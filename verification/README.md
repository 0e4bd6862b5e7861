# miterra

Meshing of voxel terrain, verified with Verus.

- `src/voxel_source.rs`: what a voxel source is (`VoxelSource`), and a solid ball.
- `src/surfnet.rs`, `src/surface.rs`: surface nets, a vertex in every lattice
  cell the surface crosses and a quad across every crossed lattice edge.
- `src/blocky.rs`: blocky meshes, two triangles on every face between a solid
  and an empty voxel.
- `src/marching_cubes/`: marching cubes with shared edge vertices: the
  geometry of a cube, the cube tables (checked when they are built, by
  `CubeTables::new`), the builder with its vertex caches, and the laws.
- `src/chunk/`: a dense 64^3 chunk, and the chunk manager that decides which
  chunks need meshing.
- `src/mesh.rs`, `src/lattice.rs`: integer meshes, and the lattice sweeps the
  contracts are written with.

The library builds the topology of each mesh: which vertices there are, on
which lattice cell or edge, and the triangle list. `app/` is the viewer: it
places the vertices in floating point (relaxing, blurring, interpolating),
computes normals, and draws the chunks with gfx and glutin. It reads its
shaders and textures from `assets/`, and the marching-cubes tables from
`assets/marching_cubes.txt` (the surface level, the winding order, then 256
rows of sixteen edge numbers).
