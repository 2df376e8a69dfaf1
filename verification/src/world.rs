pub mod brick;
pub mod brick_pool;
pub mod chunk;
pub mod world;
pub mod world_renderer;
