# micro_voxels

The bookkeeping of a small voxel ray-tracer, verified with Verus.

- `src/util.rs`: grid vectors, `flatten` (3D position to linear index), bit
  helpers over 32-bit mask words, and `ResultExt`.
- `src/util/free_list.rs`: `FreeList<T>`, a reference-counted free list that
  stores each distinct value once; its abstract state is `FreeListModel`.
- `src/util/bit_set.rs`: the two `bitvec` bit-vectors the logic uses, seen by
  Verus only through the contracts of their methods.
- `src/world/`: bricks (8x8x8 voxels with an occupancy mask), chunks (brick
  indices plus a brick mask), the brick pool that deduplicates bricks, and the
  wrapping 8x1x8 chunk grid.
- `src/camera.rs`, `src/app.rs`, `src/display.rs`, `src/renderer.rs`: the
  integer decisions of the renderer (held movement keys, key actions, which
  memory heap to report, whether a frame can be drawn, workgroup counts).
- `app/`: the window, the GPU (wgpu), the GUI (egui), terrain noise and shader
  hot reloading, which call into the library.
- `tests/`: tests of the library on concrete values.
