//! Voxel world bookkeeping: grid indexing, brick and chunk data, the
//! reference-counted brick pool and the decisions that drive the renderer.
pub mod util;
pub mod world;
pub mod app;
pub mod camera;
pub mod display;
pub mod renderer;
