//! A dense cube of 64^3 voxels that meshes itself as a surface net.
use vstd::prelude::*;
use crate::lattice::{in_cube, slot, sweep};
use crate::surface::{
    build_faces, build_vertices, built_upto, cell_faces, covers, face_side, index_at, map_entry,
    relax_neighbors, relax_stencil, vertex_cells, fresh_net, lemma_fresh_from_blank, map_matches,
};
use crate::voxel_source::VoxelSource;

verus! {

/// Voxels along each axis.
pub const SZ: usize = 64;

/// Voxels along each axis, as an `i32`.
pub const ISZ: i32 = 64;

/// Voxels in a chunk.
pub const SZ3: usize = 262144;

/// Whether the voxel `(x, y, z)` of a new chunk is solid: the part of the
/// ball of radius `sqrt(1/2)` centred on the middle of the bottom face, in
/// units of the chunk's side.
pub open spec fn in_ball(x: int, y: int, z: int) -> bool {
    (x - 32) * (x - 32) + y * y + (z - 32) * (z - 32) < 2048
}

/// The voxels of a chunk, seen as a voxel source: solid inside the chunk
/// where the data says so, empty outside.
pub struct ChunkView<'a> {
    pub data: &'a Vec<bool>,
}

impl<'a> VoxelSource for ChunkView<'a> {
    open spec fn solid(&self, x: int, y: int, z: int) -> bool {
        in_cube(64, x, y, z) && self.data@[slot(64, x, y, z)]
    }

    open spec fn defined_at(&self, x: int, y: int, z: int) -> bool {
        self.data@.len() == SZ3
    }

    fn get(&self, x: i32, y: i32, z: i32) -> (b: bool) {
        if x >= 0 && y >= 0 && z >= 0 && x < ISZ && y < ISZ && z < ISZ {
            self.data[(x + y * ISZ + z * ISZ * ISZ) as usize]
        } else {
            false
        }
    }
}

/// A cube of voxels and the surface-net topology made from it.
pub struct Chunk {
    pub data: Vec<bool>,
    positions: Vec<(i32, i32, i32)>,
    pub indices: Vec<u16>,
    indexmap: Vec<i32>,
}

impl Chunk {
    /// The chunk's voxels as a source.
    pub closed spec fn voxels(&self) -> ChunkView<'_> {
        ChunkView { data: &self.data }
    }

    /// The voxels, by slot.
    pub closed spec fn voxel_data(&self) -> Seq<bool> {
        self.data@
    }

    /// The triangle list.
    pub closed spec fn triangles(&self) -> Seq<u16> {
        self.indices@
    }

    /// The source seen by `voxels` reads this chunk's data.
    pub proof fn lemma_voxels(&self)
        ensures
            self.voxels().data@ == self.voxel_data(),
    {
    }

    /// The lattice cell of each vertex, in order.
    pub closed spec fn cells(&self) -> Seq<(i32, i32, i32)> {
        self.positions@
    }

    /// The vertex index recorded for each cell, by slot; `-1` for none.
    pub closed spec fn vertex_map(&self) -> Seq<i32> {
        self.indexmap@
    }

    /// No vertex and no triangle yet, and no cell marked.
    pub open spec fn is_blank(&self) -> bool {
        &&& self.cells().len() == 0
        &&& self.triangles().len() == 0
        &&& forall|i: int| 0 <= i < self.vertex_map().len() ==> #[trigger] self.vertex_map()[i] == -1
    }

    /// A voxel and a vertex-map entry for every cell.
    pub open spec fn wf(&self) -> bool {
        &&& self.voxel_data().len() == SZ3
        &&& self.vertex_map().len() == SZ3
    }

    /// A chunk holding the ball `in_ball`, with no mesh yet.
    pub fn new() -> (c: Self)
        ensures
            c.wf(),
            forall|x: int, y: int, z: int|
                in_cube(64, x, y, z) ==> #[trigger] c.voxel_data()[slot(64, x, y, z)] == in_ball(x, y, z),
            c.cells() == Seq::<(i32, i32, i32)>::empty(),
            c.triangles() == Seq::<u16>::empty(),
            forall|i: int| 0 <= i < SZ3 ==> #[trigger] c.vertex_map()[i] == -1,
    {
        let mut data: Vec<bool> = Vec::new();
        let mut i: usize = 0;
        while i < SZ3
            invariant
                0 <= i <= SZ3,
                data@.len() == i,
                forall|j: int| 0 <= j < i ==> #[trigger] data@[j] == in_ball(j % 64, (j / 64) % 64, j / 4096),
            decreases SZ3 - i,
        {
            assert(i % 64 < 64 && (i / 64) % 64 < 64 && i / 4096 < 64);
            let x = (i % SZ) as i32 - 32;
            let y = ((i / SZ) % SZ) as i32;
            let z = (i / (SZ * SZ)) as i32 - 32;
            assert(-32 <= x < 32 && 0 <= y < 64 && -32 <= z < 32);
            assert(0 <= x * x <= 1024 && 0 <= y * y <= 4096 && 0 <= z * z <= 1024) by (nonlinear_arith)
                requires
                    -32 <= x < 32,
                    0 <= y < 64,
                    -32 <= z < 32,
            ;
            data.push(x * x + y * y + z * z < 2048);
            i = i + 1;
        }
        assert forall|x: int, y: int, z: int| in_cube(64, x, y, z) implies #[trigger] data@[slot(64, x, y, z)]
            == in_ball(x, y, z) by {
            let j = slot(64, x, y, z);
            assert(j == (y + z * 64) * 64 + x);
            vstd::arithmetic::div_mod::lemma_fundamental_div_mod_converse(j, 64, y + z * 64, x);
            vstd::arithmetic::div_mod::lemma_fundamental_div_mod_converse(y + z * 64, 64, z, y);
            assert(j == z * 4096 + (y * 64 + x));
            vstd::arithmetic::div_mod::lemma_fundamental_div_mod_converse(j, 4096, z, y * 64 + x);
        }
        let indexmap: Vec<i32> = vec![-1; SZ3];
        Chunk { data, positions: Vec::new(), indices: Vec::new(), indexmap }
    }

    /// Sets the voxel stored at `x + y * 64 + z * 64 * 64`.
    pub fn set(&mut self, x: usize, y: usize, z: usize, b: bool)
        requires
            x + y * SZ + z * SZ * SZ < old(self).voxel_data().len(),
        ensures
            final(self).voxel_data() == old(self).voxel_data().update(x + y * SZ + z * SZ * SZ, b),
            final(self).cells() == old(self).cells(),
            final(self).triangles() == old(self).triangles(),
            final(self).vertex_map() == old(self).vertex_map(),
    {
        let len = self.data.len();
        assert(x + y * SZ + z * SZ * SZ < len);
        self.data.set(x + y * SZ + z * SZ * SZ, b);
    }

    /// Whether the voxel `(x, y, z)` is solid; `false` outside the chunk.
    pub fn get(&self, x: usize, y: usize, z: usize) -> (b: bool)
        requires
            self.voxel_data().len() == SZ3,
        ensures
            b == self.voxels().solid(x as int, y as int, z as int),
    {
        if x >= SZ || y >= SZ || z >= SZ {
            false
        } else {
            self.data[x + y * SZ + z * SZ * SZ]
        }
    }

    /// The lattice cell of each vertex.
    pub fn positions(&self) -> (r: &Vec<(i32, i32, i32)>)
        ensures
            r@ == self.cells(),
    {
        &self.positions
    }

    /// The vertex index recorded for cell `(x, y, z)`, or `-1`.
    pub fn index_at(&self, x: i32, y: i32, z: i32) -> (r: i32)
        requires
            self.wf(),
        ensures
            r as int == index_at(self.vertex_map(), 64, x as int, y as int, z as int),
    {
        crate::surface::lookup(&self.indexmap, ISZ, x, y, z)
    }

    /// What relaxing the vertex of cell `(x, y, z)` averages: its own index,
    /// then the indices of the axis neighbours that have a vertex.
    pub fn relax_stencil(&self, x: i32, y: i32, z: i32) -> (r: (i32, Vec<i32>))
        requires
            self.wf(),
            i32::MIN < x < i32::MAX,
            i32::MIN < y < i32::MAX,
            i32::MIN < z < i32::MAX,
        ensures
            r.0 as int == index_at(self.vertex_map(), 64, x as int, y as int, z as int),
            r.1@ == relax_neighbors(self.vertex_map(), 64, x as int, y as int, z as int, 6),
    {
        relax_stencil(&self.indexmap, ISZ, x, y, z)
    }

    /// Makes a vertex in every cell of `[0, 64)^3` whose corners are mixed,
    /// then the triangles of every cell of `[0, 63)^3`. Relaxing the vertices
    /// and computing normals are left to the caller, on floating-point positions.
    pub fn create_mesh(&mut self)
        requires
            old(self).wf(),
        ensures
            final(self).wf(),
            final(self).voxel_data() == old(self).voxel_data(),
            final(self).voxels() == old(self).voxels(),
            built_upto(
                old(self).voxels(),
                64,
                old(self).cells(),
                old(self).vertex_map(),
                final(self).cells(),
                final(self).vertex_map(),
                64,
                0,
                0,
            ),
            final(self).cells() == old(self).cells() + sweep(vertex_cells(old(self).voxels()), 64),
            forall|a: int, b: int, c: int|
                in_cube(64, a, b, c) ==> #[trigger] final(self).vertex_map()[slot(64, a, b, c)]
                    == map_entry(old(self).voxels(), 64, old(self).vertex_map(), old(self).cells().len() as int, a, b, c),
            final(self).triangles() == old(self).triangles() + sweep(
                cell_faces(old(self).voxels(), final(self).vertex_map(), 64),
                face_side(64),
            ),
            old(self).is_blank() ==> fresh_net(
                final(self).voxels(),
                64,
                final(self).cells(),
                final(self).vertex_map(),
                final(self).triangles(),
            ),
            old(self).is_blank() ==> map_matches(final(self).cells(), final(self).vertex_map(), 64),
    {
        let view = ChunkView { data: &self.data };
        assert(covers(view, 0, 64));
        build_vertices(&view, ISZ, &mut self.positions, &mut self.indexmap);
        build_faces(&view, &self.indexmap, ISZ, &mut self.indices);
        proof {
            if old(self).is_blank() {
                lemma_fresh_from_blank(
                    old(self).voxels(),
                    64,
                    old(self).cells(),
                    old(self).vertex_map(),
                    old(self).triangles(),
                    self.cells(),
                    self.vertex_map(),
                    self.triangles(),
                );
            }
        }
    }

    /// A write reads back: after `set(x, y, z, b)` on a cell of the chunk,
    /// `get` gives `b` there and what it gave before everywhere else.
    pub proof fn law_set_then_get(before: &Chunk, after: &Chunk, x: int, y: int, z: int, b: bool)
        requires
            before.wf(),
            in_cube(64, x, y, z),
            after.voxel_data() == before.voxel_data().update(slot(64, x, y, z), b),
        ensures
            after.voxels().solid(x, y, z) == b,
            forall|a: int, c: int, d: int|
                in_cube(64, a, c, d) && !(a == x && c == y && d == z) ==> #[trigger] after.voxels().solid(a, c, d)
                    == before.voxels().solid(a, c, d),
    {
        crate::lattice::lemma_slot_bounds(64, x, y, z);
        assert forall|a: int, c: int, d: int|
            in_cube(64, a, c, d) && !(a == x && c == y && d == z) implies #[trigger] after.voxels().solid(a, c, d)
                == before.voxels().solid(a, c, d) by {
            crate::lattice::lemma_slot_bounds(64, a, c, d);
            if slot(64, a, c, d) == slot(64, x, y, z) {
                crate::lattice::lemma_slot_injective(64, a, c, d, x, y, z);
            }
        }
    }
}

} // verus!
