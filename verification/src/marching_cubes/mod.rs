//! Marching cubes: a vertex on every lattice edge where the voxel field
//! crosses the surface, and triangles in each cube as the cube tables say.
//!
//! The field arrives classified: for each voxel of a cube of side
//! `size + 5` stored with `x` fastest, whether its value is at or below the
//! surface level. The topology is built here; where on its edge each vertex
//! lies, and the normals, are computed by the caller from the values.
use vstd::prelude::*;
use crate::lattice::{in_cube, slot, sweep};
use crate::surface::covers;
use crate::voxel_source::VoxelSource;
use self::tables::{tables_consistent, tables_wf};
use self::builder::{cube_corners_fn, cube_own_fn, cube_span, cube_vertices_fn, indices_name, indices_own, vertices_on_crossings};

pub mod builder;
pub mod cube;
pub mod laws;
pub mod tables;

pub use self::builder::Builder;
pub use self::cube::{corner_offset, EdgeVertex};
pub use self::tables::CubeTables;

verus! {

/// The marching-cubes mesher over `[0, size)^3`, optionally smoothed.
pub struct MarchingCubes {
    pub size: i32,
    pub smooth: bool,
}

impl MarchingCubes {
    /// Samples `source` over `[0, size + 5)^3`, stored with `x` fastest:
    /// `true` where the voxel is solid. The values the surface is drawn
    /// through are made from these by the caller.
    pub fn fill_voxels<S: VoxelSource>(&self, source: &S) -> (v: Vec<bool>)
        requires
            self.size >= -5,
            (self.size + 5) * (self.size + 5) * (self.size + 5) <= usize::MAX,
            covers(*source, 0, self.size + 4),
        ensures
            v@.len() == (self.size + 5) * (self.size + 5) * (self.size + 5),
            forall|x: int, y: int, z: int|
                in_cube(self.size + 5, x, y, z) ==> #[trigger] v@[slot(self.size + 5, x, y, z)] == source.solid(x, y, z),
    {
        proof {
            lemma_side_fits(self.size as int + 5);
        }
        let s: i32 = self.size + 5;
        let su: usize = s as usize;
        let ghost si = s as int;
        proof {
            assert(su * su <= su * su * su) by (nonlinear_arith)
                requires
                    su >= 0,
            ;
            assert(su <= su * su) by (nonlinear_arith)
                requires
                    su >= 0,
            ;
        }
        let total: usize = su * su * su;
        let mut voxels: Vec<bool> = vec![false; total];
        let mut x: i32 = 0;
        while x < s
            invariant
                0 <= x <= s,
                s == si,
                su == si,
                si >= 0,
                si * si * si <= usize::MAX,
                covers(*source, 0, si - 1),
                voxels@.len() == si * si * si,
                forall|a: int, b: int, c: int|
                    in_cube(si, a, b, c) && a < x ==> #[trigger] voxels@[slot(si, a, b, c)] == source.solid(a, b, c),
            decreases s - x,
        {
            let mut y: i32 = 0;
            while y < s
                invariant
                    0 <= x < s,
                    0 <= y <= s,
                    s == si,
                    su == si,
                    si >= 0,
                    si * si * si <= usize::MAX,
                    covers(*source, 0, si - 1),
                    voxels@.len() == si * si * si,
                    forall|a: int, b: int, c: int|
                        in_cube(si, a, b, c) && (a < x || (a == x && b < y)) ==> #[trigger] voxels@[slot(si, a, b, c)]
                            == source.solid(a, b, c),
                decreases s - y,
            {
                let mut z: i32 = 0;
                while z < s
                    invariant
                        0 <= x < s,
                        0 <= y < s,
                        0 <= z <= s,
                        s == si,
                        su == si,
                        si >= 0,
                        si * si * si <= usize::MAX,
                        covers(*source, 0, si - 1),
                        voxels@.len() == si * si * si,
                        forall|a: int, b: int, c: int|
                            in_cube(si, a, b, c) && crate::lattice::lex_lt(a, b, c, x as int, y as int, z as int)
                                ==> #[trigger] voxels@[slot(si, a, b, c)] == source.solid(a, b, c),
                    decreases s - z,
                {
                    let vox = source.get(x, y, z);
                    let ghost k = slot(si, x as int, y as int, z as int);
                    proof {
                        crate::lattice::lemma_slot_bounds(si, x as int, y as int, z as int);
                        assert(y * si <= si * si * si) by (nonlinear_arith)
                            requires
                                0 <= y < si,
                        ;
                        assert(z * si <= si * si * si) by (nonlinear_arith)
                            requires
                                0 <= z < si,
                        ;
                        assert(z * si * si <= si * si * si) by (nonlinear_arith)
                            requires
                                0 <= z < si,
                        ;
                        assert(x + y * si <= x + y * si + z * si * si) by (nonlinear_arith)
                            requires
                                0 <= x,
                                0 <= y,
                                0 <= z,
                                0 <= si,
                        ;
                    }
                    let i: usize = x as usize + y as usize * su + z as usize * su * su;
                    let ghost before = voxels@;
                    assert(i == k);
                    voxels.set(i, vox);
                    assert forall|a: int, b: int, c: int|
                        in_cube(si, a, b, c) && crate::lattice::lex_lt(a, b, c, x as int, y as int, z + 1)
                            implies #[trigger] voxels@[slot(si, a, b, c)] == source.solid(a, b, c) by {
                        crate::lattice::lemma_slot_bounds(si, a, b, c);
                        if a == x && b == y && c == z {
                            assert(voxels@[k] == vox);
                        } else {
                            if slot(si, a, b, c) == k {
                                crate::lattice::lemma_slot_injective(si, a, b, c, x as int, y as int, z as int);
                            }
                            assert(crate::lattice::lex_lt(a, b, c, x as int, y as int, z as int));
                            assert(before[slot(si, a, b, c)] == source.solid(a, b, c));
                            assert(voxels@[slot(si, a, b, c)] == before[slot(si, a, b, c)]);
                        }
                    }
                    z += 1;
                }
                assert forall|a: int, b: int, c: int|
                    in_cube(si, a, b, c) && (a < x || (a == x && b < y + 1)) implies #[trigger] voxels@[slot(si, a, b, c)]
                        == source.solid(a, b, c) by {
                    assert(crate::lattice::lex_lt(a, b, c, x as int, y as int, s as int));
                }
                y += 1;
            }
            x += 1;
        }
        voxels
    }

    /// Builds the marching-cubes topology of `[0, size)^3` from the field
    /// telling which voxels of `[0, size + 5)^3` are inside: the vertices,
    /// each on a crossed lattice edge of its cube, and the triangle list.
    /// Placing the vertices along their edges and computing the normals are
    /// left to the caller, on the floating-point values. A side below `-1`
    /// has no caches to allocate: their length, `size + 1`, would be negative.
    pub fn mesh(&mut self, field: &Vec<bool>, tables: &CubeTables) -> (b: Builder)
        requires
            old(self).size >= -1,
            tables_wf(*tables),
            tables_consistent(*tables),
            field@.len() == (old(self).size + 5) * (old(self).size + 5) * (old(self).size + 5),
        ensures
            *final(self) == *old(self),
            b.side() == old(self).size,
            vertices_on_crossings(b.vertex_list(), field@, old(self).size + 5),
            b.vertex_list() == sweep(cube_vertices_fn(field@, old(self).size + 5), cube_span(old(self).size as int)),
            indices_own(
                b.vertex_list(),
                b.triangles(),
                sweep(cube_corners_fn(*tables, field@, old(self).size + 5), cube_span(old(self).size as int)),
                sweep(cube_own_fn(*tables, field@, old(self).size + 5), cube_span(old(self).size as int)),
            ),
            indices_name(
                b.vertex_list(),
                b.triangles(),
                sweep(cube_corners_fn(*tables, field@, old(self).size + 5), cube_span(old(self).size as int)),
            ),
    {
        let mut builder = Builder::new(self.size);
        builder.mesh(field, tables);
        builder
    }
}

/// A side whose cube fits in a `usize` fits in an `i32`.
proof fn lemma_side_fits(t: int)
    requires
        t >= 0,
        t * t * t <= usize::MAX,
    ensures
        t < 0x8000_0000,
{
    if t >= 0x8000_0000 {
        assert(t * t >= 0x8000_0000 * 0x8000_0000) by (nonlinear_arith)
            requires
                t >= 0x8000_0000,
        ;
        assert(t * t * t >= 0x8000_0000 * 0x8000_0000 * 0x8000_0000) by (nonlinear_arith)
            requires
                t >= 0x8000_0000,
                t * t >= 0x8000_0000 * 0x8000_0000,
        ;
    }
}

} // verus!
