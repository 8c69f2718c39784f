# bevy_voxel

Voxel grids for Bevy, stored as a sparse set of 16×16×16 chunks.

- `src/` is the library, with machine-checked contracts and proofs:
  - `ivec.rs`: integer 3-vectors and component-wise Euclidean division, which
    splits a voxel position into its chunk and its place in that chunk;
  - `chunk.rs`: a chunk of cells;
  - `grid.rs`: a grid of chunks, allocated on first write, with lookup,
    write, mutable access and a count of the cells that differ from
    `T::default()`;
  - `boundary.rs`: the unloaded chunks adjacent to loaded ones, kept exact as
    chunks are loaded, and what that means for the boundary's collider;
  - `key.rs`: a bijection between chunk coordinates and integer keys.
- `app/` is the Bevy side: grid and boundary components, the `GridsMut` and
  `Grids` system parameters, the system that mirrors the boundary as an avian
  sensor collider, and the compute plugin.
  Chunks are stored inside the grid component, not as child entities with a
  chunk component of their own: there is no deferred spawning of chunks, and
  change detection applies to a grid as a whole. `count` refuses (panics on)
  grids whose total number of cells does not fit in a `usize`.
- `tests/` exercises the library.
