//! Surface nets: a smooth mesher that puts one vertex in every lattice cell
//! that the surface crosses and joins the vertices of neighbouring cells.
use vstd::prelude::*;
use crate::surface::{
    build_faces, build_vertices, cell_faces, covers, cube_fits, face_side, map_entry,
    relax_neighbors, relax_stencil, index_at, vertex_cells, built_upto, blank_map, fresh_net, map_matches,
    law_blank_map_matches,
};
use crate::lattice::{in_cube, slot, sweep};
use crate::voxel_source::VoxelSource;

verus! {

/// The surface-net mesher: `size` voxels along each axis, relaxed `smooth` times.
pub struct SurfNet {
    pub size: u16,
    pub smooth: u16,
}

/// The topology of a surface net under construction: the lattice cell of
/// each vertex, the triangle indices, and for each cell its vertex index.
pub struct Builder<'a, S: VoxelSource> {
    size: i32,
    smooth: u16,
    source: &'a S,
    positions: Vec<(i32, i32, i32)>,
    indices: Vec<u16>,
    indexmap: Vec<i32>,
}

impl SurfNet {
    /// Builds the surface-net topology of `source` over `[0, size]^3`: the
    /// vertex cells and the triangles. Relaxing the vertices `smooth` times and
    /// computing normals are left to the caller, on floating-point positions.
    pub fn mesh<'a, S: VoxelSource>(&mut self, source: &'a S) -> (b: Builder<'a, S>)
        requires
            cube_fits(old(self).size as int),
            covers(*source, 0, old(self).size as int),
        ensures
            *final(self) == *old(self),
            b.wf(),
            b.side() == old(self).size as int,
            b.smoothing() == old(self).smooth as int,
            b.src() == *source,
            b.cells() == sweep(vertex_cells(*source), old(self).size as nat),
            forall|x: int, y: int, z: int|
                in_cube(old(self).size as int, x, y, z) ==> #[trigger] b.vertex_map()[slot(old(self).size as int, x, y, z)]
                    == map_entry(*source, old(self).size as int, Seq::new(b.vertex_map().len(), |i: int| -1i32), 0, x, y, z),
            built_upto(
                *source,
                old(self).size as int,
                Seq::empty(),
                Seq::new(b.vertex_map().len(), |i: int| -1i32),
                b.cells(),
                b.vertex_map(),
                old(self).size as int,
                0,
                0,
            ),
            b.triangles() == sweep(cell_faces(*source, b.vertex_map(), old(self).size as int), face_side(old(self).size as int)),
            fresh_net(*source, old(self).size as int, b.cells(), b.vertex_map(), b.triangles()),
            map_matches(b.cells(), b.vertex_map(), b.side()),
    {
        let mut builder = Builder::new(self, source);
        let ghost map0 = builder.vertex_map();
        assert(map0 =~= Seq::new(map0.len(), |i: int| -1i32));
        assert(Seq::<(i32, i32, i32)>::empty() + sweep(vertex_cells(*source), self.size as nat)
            =~= sweep(vertex_cells(*source), self.size as nat));
        builder.mesh();
        assert(Seq::<u16>::empty() + sweep(cell_faces(*source, builder.vertex_map(), self.size as int), face_side(self.size as int))
            =~= sweep(cell_faces(*source, builder.vertex_map(), self.size as int), face_side(self.size as int)));
        assert(map0 =~= blank_map(self.size as int));
        builder
    }
}

impl<'a, S: VoxelSource> Builder<'a, S> {
    /// The side of the lattice.
    pub closed spec fn side(&self) -> int {
        self.size as int
    }

    /// How many times the vertices are relaxed.
    pub closed spec fn smoothing(&self) -> int {
        self.smooth as int
    }

    /// The voxels that are meshed.
    pub closed spec fn src(&self) -> S {
        *self.source
    }

    /// The lattice cell of each vertex, in order.
    pub closed spec fn cells(&self) -> Seq<(i32, i32, i32)> {
        self.positions@
    }

    /// The triangle list.
    pub closed spec fn triangles(&self) -> Seq<u16> {
        self.indices@
    }

    /// The vertex index recorded for each cell, by slot; `-1` for none.
    pub closed spec fn vertex_map(&self) -> Seq<i32> {
        self.indexmap@
    }

    /// The side fits in 16 bits and every cell has a slot in the vertex map.
    pub open spec fn wf(&self) -> bool {
        &&& 0 <= self.side() <= u16::MAX
        &&& self.vertex_map().len() == self.side() * self.side() * self.side()
    }

    /// A builder with no vertices and no triangles, every cell marked `-1`.
    pub fn new(params: &SurfNet, source: &'a S) -> (b: Self)
        requires
            (params.size as int) * (params.size as int) * (params.size as int) <= usize::MAX,
        ensures
            b.wf(),
            b.side() == params.size as int,
            b.smoothing() == params.smooth as int,
            b.src() == *source,
            b.cells() == Seq::<(i32, i32, i32)>::empty(),
            b.triangles() == Seq::<u16>::empty(),
            forall|i: int| 0 <= i < b.vertex_map().len() ==> #[trigger] b.vertex_map()[i] == -1,
            map_matches(b.cells(), b.vertex_map(), b.side()),
    {
        let sz = params.size as usize;
        assert(sz * sz <= sz * sz * sz) by (nonlinear_arith)
            requires
                sz >= 0,
        ;
        let n = sz * sz * sz;
        let indexmap: Vec<i32> = vec![-1; n];
        proof {
            law_blank_map_matches(params.size as int);
            assert(indexmap@ =~= blank_map(params.size as int));
        }
        Builder {
            size: params.size as i32,
            smooth: params.smooth,
            source: source,
            positions: Vec::new(),
            indices: Vec::new(),
            indexmap: indexmap,
        }
    }

    /// How many times the vertices are to be relaxed.
    pub fn smooth(&self) -> (r: u16)
        ensures
            r as int == self.smoothing(),
    {
        self.smooth
    }

    /// The lattice cell of each vertex.
    pub fn positions(&self) -> (r: &Vec<(i32, i32, i32)>)
        ensures
            r@ == self.cells(),
    {
        &self.positions
    }

    /// The triangle list.
    pub fn indices(&self) -> (r: &Vec<u16>)
        ensures
            r@ == self.triangles(),
    {
        &self.indices
    }

    /// The vertex index recorded for cell `(x, y, z)`, or `-1`.
    pub fn index_at(&self, x: i32, y: i32, z: i32) -> (r: i32)
        requires
            self.wf(),
            cube_fits(self.side()),
        ensures
            r as int == index_at(self.vertex_map(), self.side(), x as int, y as int, z as int),
    {
        crate::surface::lookup(&self.indexmap, self.size, x, y, z)
    }

    /// What relaxing the vertex of cell `(x, y, z)` averages: its own index,
    /// then the indices of the axis neighbours that have a vertex.
    pub fn relax_stencil(&self, x: i32, y: i32, z: i32) -> (r: (i32, Vec<i32>))
        requires
            self.wf(),
            cube_fits(self.side()),
            i32::MIN < x < i32::MAX,
            i32::MIN < y < i32::MAX,
            i32::MIN < z < i32::MAX,
        ensures
            r.0 as int == index_at(self.vertex_map(), self.side(), x as int, y as int, z as int),
            r.1@ == relax_neighbors(self.vertex_map(), self.side(), x as int, y as int, z as int, 6),
    {
        relax_stencil(&self.indexmap, self.size, x, y, z)
    }

    /// Makes a vertex in every cell of `[0, size)^3` that the surface
    /// crosses, then the triangles of every cell of `[0, size - 1)^3`.
    pub fn mesh(&mut self)
        requires
            old(self).wf(),
            cube_fits(old(self).side()),
            covers(old(self).src(), 0, old(self).side()),
        ensures
            final(self).wf(),
            final(self).side() == old(self).side(),
            final(self).smoothing() == old(self).smoothing(),
            final(self).src() == old(self).src(),
            built_upto(
                old(self).src(),
                old(self).side(),
                old(self).cells(),
                old(self).vertex_map(),
                final(self).cells(),
                final(self).vertex_map(),
                old(self).side(),
                0,
                0,
            ),
            final(self).cells() == old(self).cells() + sweep(vertex_cells(old(self).src()), old(self).side() as nat),
            forall|a: int, b: int, c: int|
                in_cube(old(self).side(), a, b, c) ==> #[trigger] final(self).vertex_map()[slot(old(self).side(), a, b, c)]
                    == map_entry(old(self).src(), old(self).side(), old(self).vertex_map(), old(self).cells().len() as int, a, b, c),
            final(self).triangles() == old(self).triangles() + sweep(
                cell_faces(old(self).src(), final(self).vertex_map(), old(self).side()),
                face_side(old(self).side()),
            ),
            old(self).cells().len() == 0 && (forall|i: int| 0 <= i < old(self).vertex_map().len() ==> #[trigger] old(self).vertex_map()[i] == -1)
                ==> map_matches(final(self).cells(), final(self).vertex_map(), old(self).side()),
    {
        build_vertices(self.source, self.size, &mut self.positions, &mut self.indexmap);
        build_faces(self.source, &self.indexmap, self.size, &mut self.indices);
    }
}

} // verus!
