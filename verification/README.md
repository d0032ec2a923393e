# terrain_water

The verified core of a small terrain-and-water game built on Bevy.

- `src/heightmap.rs` — the 2048 × 2048 terrain height grid (heights as `f32`
  bit patterns), read/write, the spike test map, filling the grid from a
  height function, and its R32Float texture.
- `src/texture.rs` — little-endian R32Float pixel buffers and the Bevy image
  built from them.
- `src/mesh.rs` — the clip-map terrain mesh on an integer lattice: quads,
  triple quads at level-of-detail seams, subdivided blocks and the full
  ring layout, with proofs that every index names a vertex, that all
  triangles turn the same way, that ring `n`'s quads are `2^n` wide, that no
  vertex of the clip-map lies strictly inside an edge of one of its triangles
  (so no crack opens where a ring meets finer geometry), and that the
  triangles stay within the clip-map's square, overlap nowhere and add up to
  its area. Coordinates are 128-bit lattice points, which holds up to 114
  rings.
- `src/water.rs` — the staggered flow textures, the ping-pong of the two
  water height textures between frames, and the texel under a world position.
- `app/` — the Bevy game around it: plugins, systems, rendering, physics and
  the floating-point noise that produces the terrain.

The tests in `tests/` exercise the library with the real Bevy image type.
