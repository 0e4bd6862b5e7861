//! The blocky mesher: a square face on every side of a solid voxel that
//! touches an empty one.
use vstd::prelude::*;
use crate::lattice::{
    cross, in_cube, lemma_cross_translate, lemma_sweep_has, unit, lemma_prefix_end, lemma_prefix_plane_end, lemma_prefix_row_end, lemma_prefix_start,
    lemma_prefix_step, lemma_sweep_all, prefix, sweep,
};
use crate::mesh::{Mesh, Vertex};
use crate::surface::covers;
use crate::voxel_source::{fits_i32, VoxelSource};

verus! {

/// The blocky mesher over `[0, size)^3`.
pub struct Blocky {
    pub size: i32,
}

/// A unit square of the lattice: its lowest corner `(x, y, z)`, the axis it
/// is perpendicular to, and whether it is wound the other way.
pub struct Face {
    pub x: i32,
    pub y: i32,
    pub z: i32,
    pub axis: u8,
    pub reverse: bool,
}

/// Corner `i` of a face perpendicular to `axis`, relative to its lowest corner.
pub open spec fn face_offset(axis: int, i: int) -> (int, int, int) {
    if axis == 0 {
        seq![(0, 0, 0), (0, 0, 1), (0, 1, 0), (0, 1, 1)][i]
    } else if axis == 1 {
        seq![(0, 0, 0), (0, 0, 1), (1, 0, 0), (1, 0, 1)][i]
    } else {
        seq![(0, 0, 0), (1, 0, 0), (0, 1, 0), (1, 1, 0)][i]
    }
}

/// The normal stored in the vertices of a face.
pub open spec fn face_normal(axis: int, reverse: bool) -> (int, int, int) {
    let s: int = if reverse { -1 } else { 1 };
    if axis == 0 {
        (s, 0, 0)
    } else if axis == 1 {
        (0, s, 0)
    } else {
        (0, 0, s)
    }
}

/// Vertex `i` of face `f`.
pub open spec fn face_vertex(f: Face, i: int) -> Vertex {
    let o = face_offset(f.axis as int, i);
    let m = face_normal(f.axis as int, f.reverse);
    Vertex {
        pos: [(f.x + o.0) as i32, (f.y + o.1) as i32, (f.z + o.2) as i32],
        normal: [m.0 as i32, m.1 as i32, m.2 as i32],
    }
}

/// The four vertices of face `f`.
pub open spec fn face_vertices(f: Face) -> Seq<Vertex> {
    Seq::new(4, |i: int| face_vertex(f, i))
}

/// Which corners make the two triangles of a face.
pub open spec fn face_order(reverse: bool) -> Seq<int> {
    if reverse {
        seq![2, 1, 0, 3, 1, 2]
    } else {
        seq![0, 1, 2, 2, 1, 3]
    }
}

/// The six indices of a face whose first vertex is vertex `base`, taken
/// modulo 2^16 as 16-bit indices wrap.
pub open spec fn face_indices(base: int, reverse: bool) -> Seq<u16> {
    Seq::new(6, |i: int| ((base + face_order(reverse)[i]) % 0x10000) as u16)
}

/// The vertices of a list of faces.
pub open spec fn faces_vertices(fs: Seq<Face>) -> Seq<Vertex>
    decreases fs.len(),
{
    if fs.len() == 0 {
        Seq::empty()
    } else {
        faces_vertices(fs.drop_last()) + face_vertices(fs.last())
    }
}

/// The indices of a list of faces whose vertices start at vertex `base`.
pub open spec fn faces_indices(fs: Seq<Face>, base: int) -> Seq<u16>
    decreases fs.len(),
{
    if fs.len() == 0 {
        Seq::empty()
    } else {
        faces_indices(fs.drop_last(), base) + face_indices(base + 4 * (fs.len() - 1), fs.last().reverse)
    }
}

/// The face with lowest corner `(x, y, z)` perpendicular to `axis`.
pub open spec fn mk_face(x: int, y: int, z: int, axis: int, reverse: bool) -> Face {
    Face { x: x as i32, y: y as i32, z: z as i32, axis: axis as u8, reverse }
}

/// `f` alone when `b`, else no face.
pub open spec fn face_if(b: bool, f: Face) -> Seq<Face> {
    if b {
        seq![f]
    } else {
        Seq::empty()
    }
}

/// The faces of voxel `(x, y, z)`: none if it is empty, else one on each
/// side whose neighbour is empty, in the order +x, -x, +y, -y, +z, -z.
pub open spec fn cube_faces<S: VoxelSource>(src: S, x: int, y: int, z: int) -> Seq<Face> {
    if !src.solid(x, y, z) {
        Seq::empty()
    } else {
        face_if(!src.solid(x + 1, y, z), mk_face(x + 1, y, z, 0, true))
            + face_if(!src.solid(x - 1, y, z), mk_face(x, y, z, 0, false))
            + face_if(!src.solid(x, y + 1, z), mk_face(x, y + 1, z, 1, false))
            + face_if(!src.solid(x, y - 1, z), mk_face(x, y, z, 1, true))
            + face_if(!src.solid(x, y, z + 1), mk_face(x, y, z + 1, 2, false))
            + face_if(!src.solid(x, y, z - 1), mk_face(x, y, z, 2, true))
    }
}

/// `cube_faces` of `src`, cell by cell.
pub open spec fn cube_faces_fn<S: VoxelSource>(src: S) -> spec_fn(int, int, int) -> Seq<Face> {
    |x: int, y: int, z: int| cube_faces(src, x, y, z)
}

/// Every face of the voxels of `[0, n)^3`, in visiting order.
pub open spec fn blocky_faces<S: VoxelSource>(src: S, n: int) -> Seq<Face> {
    sweep(cube_faces_fn(src), if n > 0 { n as nat } else { 0 })
}

/// The vertices of two lists of faces, one after the other.
pub proof fn lemma_faces_vertices_append(a: Seq<Face>, b: Seq<Face>)
    ensures
        faces_vertices(a + b) == faces_vertices(a) + faces_vertices(b),
        faces_vertices(a).len() == 4 * a.len(),
    decreases b.len(),
{
    if b.len() == 0 {
        assert(a + b =~= a);
        assert(faces_vertices(a) + faces_vertices(b) =~= faces_vertices(a));
        lemma_faces_vertices_len(a);
    } else {
        assert((a + b).drop_last() =~= a + b.drop_last());
        assert((a + b).last() == b.last());
        lemma_faces_vertices_append(a, b.drop_last());
        assert(faces_vertices(a) + faces_vertices(b.drop_last()) + face_vertices(b.last())
            =~= faces_vertices(a) + (faces_vertices(b.drop_last()) + face_vertices(b.last())));
    }
}

/// Four vertices per face.
pub proof fn lemma_faces_vertices_len(a: Seq<Face>)
    ensures
        faces_vertices(a).len() == 4 * a.len(),
    decreases a.len(),
{
    if a.len() > 0 {
        lemma_faces_vertices_len(a.drop_last());
    }
}

/// The indices of two lists of faces, one after the other.
pub proof fn lemma_faces_indices_append(a: Seq<Face>, b: Seq<Face>, base: int)
    ensures
        faces_indices(a + b, base) == faces_indices(a, base) + faces_indices(b, base + 4 * a.len()),
        faces_indices(a, base).len() == 6 * a.len(),
    decreases b.len(),
{
    lemma_faces_indices_len(a, base);
    if b.len() == 0 {
        assert(a + b =~= a);
        assert(faces_indices(a, base) + faces_indices(b, base + 4 * a.len()) =~= faces_indices(a, base));
    } else {
        assert((a + b).drop_last() =~= a + b.drop_last());
        assert((a + b).last() == b.last());
        lemma_faces_indices_append(a, b.drop_last(), base);
        assert(base + 4 * ((a + b).len() - 1) == (base + 4 * a.len()) + 4 * (b.len() - 1));
        assert(faces_indices(a, base) + faces_indices(b.drop_last(), base + 4 * a.len()) + face_indices(
            base + 4 * ((a + b).len() - 1),
            b.last().reverse,
        ) =~= faces_indices(a, base) + (faces_indices(b.drop_last(), base + 4 * a.len()) + face_indices(
            (base + 4 * a.len()) + 4 * (b.len() - 1),
            b.last().reverse,
        )));
    }
}

/// Six indices per face.
pub proof fn lemma_faces_indices_len(a: Seq<Face>, base: int)
    ensures
        faces_indices(a, base).len() == 6 * a.len(),
    decreases a.len(),
{
    if a.len() > 0 {
        lemma_faces_indices_len(a.drop_last(), base);
    }
}

/// Adding a face adds its vertices and indices at the end.
pub proof fn lemma_push_face(acc: Seq<Face>, f: Face, base: int)
    ensures
        faces_vertices(acc.push(f)) == faces_vertices(acc) + face_vertices(f),
        faces_indices(acc.push(f), base) == faces_indices(acc, base) + face_indices(base + 4 * acc.len(), f.reverse),
        faces_vertices(acc).len() == 4 * acc.len(),
{
    assert(acc.push(f).drop_last() =~= acc);
    lemma_faces_vertices_len(acc);
}

/// The position of corner `j` of face `f`.
pub open spec fn face_pos(f: Face, j: int) -> (int, int, int) {
    let o = face_offset(f.axis as int, j);
    (f.x + o.0, f.y + o.1, f.z + o.2)
}

/// The normal given by the winding of triangle `t` (0 or 1) of face `f`.
pub open spec fn triangle_normal(f: Face, t: int) -> (int, int, int) {
    let o = face_order(f.reverse);
    cross(face_pos(f, o[3 * t]), face_pos(f, o[3 * t + 1]), face_pos(f, o[3 * t + 2]))
}

/// The voxel on the side of face `f` that its winding faces.
pub open spec fn voxel_in_front(f: Face) -> (int, int, int) {
    let d = triangle_normal(f, 0);
    let e = unit(f.axis as int);
    if d.0 + d.1 + d.2 > 0 {
        (f.x as int, f.y as int, f.z as int)
    } else {
        (f.x - e.0, f.y - e.1, f.z - e.2)
    }
}

/// The voxel on the other side of face `f`.
pub open spec fn voxel_behind(f: Face) -> (int, int, int) {
    let d = triangle_normal(f, 0);
    let e = unit(f.axis as int);
    if d.0 + d.1 + d.2 > 0 {
        (f.x - e.0, f.y - e.1, f.z - e.2)
    } else {
        (f.x as int, f.y as int, f.z as int)
    }
}

/// What each face of the blocky mesh is: both triangles wound the same way,
/// facing along the face's axis, from a solid voxel to an empty one; the
/// normal stored in its vertices is that facing for the y and z axes and its
/// opposite for the x axis.
pub open spec fn well_faced<S: VoxelSource>(src: S, f: Face) -> bool {
    let d = triangle_normal(f, 0);
    let e = unit(f.axis as int);
    let m = face_normal(f.axis as int, f.reverse);
    let b = voxel_behind(f);
    let a = voxel_in_front(f);
    &&& triangle_normal(f, 1) == d
    &&& (d == e || d == (-e.0, -e.1, -e.2))
    &&& src.solid(b.0, b.1, b.2)
    &&& !src.solid(a.0, a.1, a.2)
    &&& (if f.axis == 0 { m == (-d.0, -d.1, -d.2) } else { m == d })
}

/// The winding normal of triangle `t` of a face, from its corner offsets.
proof fn lemma_triangle_normal_offsets(f: Face, t: int)
    ensures
        triangle_normal(f, t) == cross(
            face_offset(f.axis as int, face_order(f.reverse)[3 * t]),
            face_offset(f.axis as int, face_order(f.reverse)[3 * t + 1]),
            face_offset(f.axis as int, face_order(f.reverse)[3 * t + 2]),
        ),
{
    let o = face_order(f.reverse);
    lemma_cross_translate(
        face_offset(f.axis as int, o[3 * t]),
        face_offset(f.axis as int, o[3 * t + 1]),
        face_offset(f.axis as int, o[3 * t + 2]),
        (f.x as int, f.y as int, f.z as int),
    );
    let a = face_offset(f.axis as int, o[3 * t]);
    assert(face_pos(f, o[3 * t]) == (a.0 + f.x, a.1 + f.y, a.2 + f.z));
    let b = face_offset(f.axis as int, o[3 * t + 1]);
    assert(face_pos(f, o[3 * t + 1]) == (b.0 + f.x, b.1 + f.y, b.2 + f.z));
    let c = face_offset(f.axis as int, o[3 * t + 2]);
    assert(face_pos(f, o[3 * t + 2]) == (c.0 + f.x, c.1 + f.y, c.2 + f.z));
}

/// The winding normals of the six kinds of face.
proof fn lemma_face_normals(f: Face)
    requires
        f.axis <= 2,
    ensures
        triangle_normal(f, 0) == triangle_normal(f, 1),
        triangle_normal(f, 0) == (if (f.axis == 0) == f.reverse {
            unit(f.axis as int)
        } else {
            (-unit(f.axis as int).0, -unit(f.axis as int).1, -unit(f.axis as int).2)
        }),
{
    lemma_triangle_normal_offsets(f, 0);
    lemma_triangle_normal_offsets(f, 1);
    let a = f.axis as int;
    if a == 0 && f.reverse {
        assert(face_order(f.reverse) =~= seq![2int, 1int, 0int, 3int, 1int, 2int]);
        assert(face_offset(a, 0) == (0int, 0int, 0int));
        assert(face_offset(a, 1) == (0int, 0int, 1int));
        assert(face_offset(a, 2) == (0int, 1int, 0int));
        assert(face_offset(a, 3) == (0int, 1int, 1int));
        assert(cross((0int, 1int, 0int), (0int, 0int, 1int), (0int, 0int, 0int)) == (1int, 0int, 0int)) by (nonlinear_arith);
        assert(cross((0int, 1int, 1int), (0int, 0int, 1int), (0int, 1int, 0int)) == (1int, 0int, 0int)) by (nonlinear_arith);
    }
    if a == 0 && !f.reverse {
        assert(face_order(f.reverse) =~= seq![0int, 1int, 2int, 2int, 1int, 3int]);
        assert(face_offset(a, 0) == (0int, 0int, 0int));
        assert(face_offset(a, 1) == (0int, 0int, 1int));
        assert(face_offset(a, 2) == (0int, 1int, 0int));
        assert(face_offset(a, 3) == (0int, 1int, 1int));
        assert(cross((0int, 0int, 0int), (0int, 0int, 1int), (0int, 1int, 0int)) == (-1int, 0int, 0int)) by (nonlinear_arith);
        assert(cross((0int, 1int, 0int), (0int, 0int, 1int), (0int, 1int, 1int)) == (-1int, 0int, 0int)) by (nonlinear_arith);
    }
    if a == 1 && f.reverse {
        assert(face_order(f.reverse) =~= seq![2int, 1int, 0int, 3int, 1int, 2int]);
        assert(face_offset(a, 0) == (0int, 0int, 0int));
        assert(face_offset(a, 1) == (0int, 0int, 1int));
        assert(face_offset(a, 2) == (1int, 0int, 0int));
        assert(face_offset(a, 3) == (1int, 0int, 1int));
        assert(cross((1int, 0int, 0int), (0int, 0int, 1int), (0int, 0int, 0int)) == (0int, -1int, 0int)) by (nonlinear_arith);
        assert(cross((1int, 0int, 1int), (0int, 0int, 1int), (1int, 0int, 0int)) == (0int, -1int, 0int)) by (nonlinear_arith);
    }
    if a == 1 && !f.reverse {
        assert(face_order(f.reverse) =~= seq![0int, 1int, 2int, 2int, 1int, 3int]);
        assert(face_offset(a, 0) == (0int, 0int, 0int));
        assert(face_offset(a, 1) == (0int, 0int, 1int));
        assert(face_offset(a, 2) == (1int, 0int, 0int));
        assert(face_offset(a, 3) == (1int, 0int, 1int));
        assert(cross((0int, 0int, 0int), (0int, 0int, 1int), (1int, 0int, 0int)) == (0int, 1int, 0int)) by (nonlinear_arith);
        assert(cross((1int, 0int, 0int), (0int, 0int, 1int), (1int, 0int, 1int)) == (0int, 1int, 0int)) by (nonlinear_arith);
    }
    if a == 2 && f.reverse {
        assert(face_order(f.reverse) =~= seq![2int, 1int, 0int, 3int, 1int, 2int]);
        assert(face_offset(a, 0) == (0int, 0int, 0int));
        assert(face_offset(a, 1) == (1int, 0int, 0int));
        assert(face_offset(a, 2) == (0int, 1int, 0int));
        assert(face_offset(a, 3) == (1int, 1int, 0int));
        assert(cross((0int, 1int, 0int), (1int, 0int, 0int), (0int, 0int, 0int)) == (0int, 0int, -1int)) by (nonlinear_arith);
        assert(cross((1int, 1int, 0int), (1int, 0int, 0int), (0int, 1int, 0int)) == (0int, 0int, -1int)) by (nonlinear_arith);
    }
    if a == 2 && !f.reverse {
        assert(face_order(f.reverse) =~= seq![0int, 1int, 2int, 2int, 1int, 3int]);
        assert(face_offset(a, 0) == (0int, 0int, 0int));
        assert(face_offset(a, 1) == (1int, 0int, 0int));
        assert(face_offset(a, 2) == (0int, 1int, 0int));
        assert(face_offset(a, 3) == (1int, 1int, 0int));
        assert(cross((0int, 0int, 0int), (1int, 0int, 0int), (0int, 1int, 0int)) == (0int, 0int, 1int)) by (nonlinear_arith);
        assert(cross((0int, 1int, 0int), (1int, 0int, 0int), (1int, 1int, 0int)) == (0int, 0int, 1int)) by (nonlinear_arith);
    }
}

/// Each face that voxel `(x, y, z)` makes is well faced.
proof fn lemma_face_kind<S: VoxelSource>(src: S, x: int, y: int, z: int, f: Face, solid: (int, int, int), empty: (int, int, int))
    requires
        f.axis <= 2,
        fits_i32(f.x as int - 1) && fits_i32(f.y as int - 1) && fits_i32(f.z as int - 1),
        src.solid(solid.0, solid.1, solid.2),
        !src.solid(empty.0, empty.1, empty.2),
        (if (f.axis == 0) == f.reverse {
            solid == (f.x - unit(f.axis as int).0, f.y - unit(f.axis as int).1, f.z - unit(f.axis as int).2)
                && empty == (f.x as int, f.y as int, f.z as int)
        } else {
            empty == (f.x - unit(f.axis as int).0, f.y - unit(f.axis as int).1, f.z - unit(f.axis as int).2)
                && solid == (f.x as int, f.y as int, f.z as int)
        }),
    ensures
        well_faced(src, f),
{
    lemma_face_normals(f);
}

#[verifier::rlimit(40)]
proof fn lemma_cube_faces_well_faced<S: VoxelSource>(src: S, x: int, y: int, z: int, j: int)
    requires
        fits_i32(x - 1) && fits_i32(x + 1),
        fits_i32(y - 1) && fits_i32(y + 1),
        fits_i32(z - 1) && fits_i32(z + 1),
        0 <= j < cube_faces(src, x, y, z).len(),
    ensures
        well_faced(src, cube_faces(src, x, y, z)[j]),
{
    let s1 = face_if(!src.solid(x + 1, y, z), mk_face(x + 1, y, z, 0, true));
    let s2 = face_if(!src.solid(x - 1, y, z), mk_face(x, y, z, 0, false));
    let s3 = face_if(!src.solid(x, y + 1, z), mk_face(x, y + 1, z, 1, false));
    let s4 = face_if(!src.solid(x, y - 1, z), mk_face(x, y, z, 1, true));
    let s5 = face_if(!src.solid(x, y, z + 1), mk_face(x, y, z + 1, 2, false));
    let s6 = face_if(!src.solid(x, y, z - 1), mk_face(x, y, z, 2, true));
    let a2 = s1 + s2;
    let a3 = a2 + s3;
    let a4 = a3 + s4;
    let a5 = a4 + s5;
    let all = a5 + s6;
    assert(cube_faces(src, x, y, z) == all);
    if j < s1.len() {
        assert(all[j] == s1[j]);
        lemma_face_kind(src, x, y, z, s1[0], (x, y, z), (x + 1, y, z));
    } else if j < a2.len() {
        assert(all[j] == s2[j - s1.len()]);
        lemma_face_kind(src, x, y, z, s2[0], (x, y, z), (x - 1, y, z));
    } else if j < a3.len() {
        assert(all[j] == s3[j - a2.len()]);
        lemma_face_kind(src, x, y, z, s3[0], (x, y, z), (x, y + 1, z));
    } else if j < a4.len() {
        assert(all[j] == s4[j - a3.len()]);
        lemma_face_kind(src, x, y, z, s4[0], (x, y, z), (x, y - 1, z));
    } else if j < a5.len() {
        assert(all[j] == s5[j - a4.len()]);
        lemma_face_kind(src, x, y, z, s5[0], (x, y, z), (x, y, z + 1));
    } else {
        assert(all[j] == s6[j - a5.len()]);
        lemma_face_kind(src, x, y, z, s6[0], (x, y, z), (x, y, z - 1));
    }
}

/// Every face of the blocky mesh of `[0, n)^3` separates a solid voxel from
/// an empty one, its two triangles wound to face the empty one.
pub proof fn law_faces_face_out<S: VoxelSource>(src: S, n: int)
    requires
        n < i32::MAX,
    ensures
        forall|k: int|
            0 <= k < blocky_faces(src, n).len() ==> well_faced(src, #[trigger] blocky_faces(src, n)[k]),
{
    let f = cube_faces_fn(src);
    let m: nat = if n > 0 { n as nat } else { 0 };
    let p = |fc: Face| well_faced(src, fc);
    assert forall|x: int, y: int, z: int, j: int|
        in_cube(m as int, x, y, z) && 0 <= j < f(x, y, z).len() implies p(#[trigger] f(x, y, z)[j]) by {
        lemma_cube_faces_well_faced(src, x, y, z, j);
    }
    lemma_sweep_all(f, m, p);
}

/// The neighbour of `(x, y, z)` one step along `axis`, forwards when
/// `forward`, else backwards.
pub open spec fn neighbour(x: int, y: int, z: int, axis: int, forward: bool) -> (int, int, int) {
    let u = unit(axis);
    if forward {
        (x + u.0, y + u.1, z + u.2)
    } else {
        (x - u.0, y - u.1, z - u.2)
    }
}

/// Completeness: for every solid voxel of `[0, n)^3` and each of its six
/// axis neighbours that is empty, the blocky mesh has the face between
/// them: the unit square perpendicular to that axis that the two voxels
/// share (its lowest corner is the voxel's, moved one step when the
/// neighbour lies forwards), with both triangles wound to face the empty
/// neighbour.
#[verifier::rlimit(40)]
pub proof fn law_faces_complete<S: VoxelSource>(src: S, n: int, x: int, y: int, z: int, axis: int, forward: bool)
    requires
        in_cube(n, x, y, z),
        n < i32::MAX,
        0 <= axis < 3,
        src.solid(x, y, z),
        !src.solid(neighbour(x, y, z, axis, forward).0, neighbour(x, y, z, axis, forward).1, neighbour(x, y, z, axis, forward).2),
    ensures
        exists|k: int|
            0 <= k < blocky_faces(src, n).len() && {
                let f = #[trigger] blocky_faces(src, n)[k];
                let c = if forward { neighbour(x, y, z, axis, true) } else { (x, y, z) };
                let d = if forward { unit(axis) } else { (-unit(axis).0, -unit(axis).1, -unit(axis).2) };
                &&& f.axis as int == axis
                &&& (f.x as int, f.y as int, f.z as int) == c
                &&& triangle_normal(f, 0) == d
                &&& triangle_normal(f, 1) == d
            },
{
    let m: nat = n as nat;
    let s1 = face_if(!src.solid(x + 1, y, z), mk_face(x + 1, y, z, 0, true));
    let s2 = face_if(!src.solid(x - 1, y, z), mk_face(x, y, z, 0, false));
    let s3 = face_if(!src.solid(x, y + 1, z), mk_face(x, y + 1, z, 1, false));
    let s4 = face_if(!src.solid(x, y - 1, z), mk_face(x, y, z, 1, true));
    let s5 = face_if(!src.solid(x, y, z + 1), mk_face(x, y, z + 1, 2, false));
    let s6 = face_if(!src.solid(x, y, z - 1), mk_face(x, y, z, 2, true));
    let cf = cube_faces(src, x, y, z);
    assert(cf == s1 + s2 + s3 + s4 + s5 + s6);
    let f = if axis == 0 {
        if forward { mk_face(x + 1, y, z, 0, true) } else { mk_face(x, y, z, 0, false) }
    } else if axis == 1 {
        if forward { mk_face(x, y + 1, z, 1, false) } else { mk_face(x, y, z, 1, true) }
    } else {
        if forward { mk_face(x, y, z + 1, 2, false) } else { mk_face(x, y, z, 2, true) }
    };
    let j: int = if axis == 0 {
        if forward { 0 } else { s1.len() as int }
    } else if axis == 1 {
        if forward { (s1.len() + s2.len()) as int } else { (s1.len() + s2.len() + s3.len()) as int }
    } else {
        if forward { (s1.len() + s2.len() + s3.len() + s4.len()) as int } else { (s1.len() + s2.len() + s3.len() + s4.len() + s5.len()) as int }
    };
    assert(0 <= j < cf.len() && cf[j] == f);
    assert(cube_faces_fn(src)(x, y, z) == cf);
    lemma_sweep_has(cube_faces_fn(src), m, x, y, z, j);
    let k = choose|k: int| 0 <= k < blocky_faces(src, n).len() && blocky_faces(src, n)[k] == f;
    lemma_face_normals(f);
    assert(blocky_faces(src, n)[k] == f);
}

/// Where a face stands in the order in which a voxel makes its faces
/// (+x, -x, +y, -y, +z, -z).
pub open spec fn face_rank(f: Face) -> int {
    2 * f.axis + (if f.reverse == (f.axis == 0) { 0int } else { 1int })
}

proof fn lemma_append_face(a: Seq<Face>, b: bool, f: Face, r: int)
    requires
        a.no_duplicates(),
        forall|m: int| 0 <= m < a.len() ==> face_rank(#[trigger] a[m]) < r,
        face_rank(f) == r,
    ensures
        (a + face_if(b, f)).no_duplicates(),
        forall|m: int| 0 <= m < (a + face_if(b, f)).len() ==> face_rank(#[trigger] (a + face_if(b, f))[m]) < r + 1,
{
    let c = face_if(b, f);
    assert forall|i: int, j: int| 0 <= i < a.len() && 0 <= j < c.len() implies a[i] != c[j] by {
        assert(c[j] == f);
    }
    vstd::seq_lib::lemma_no_dup_in_concat(a, c);
    assert forall|m: int| 0 <= m < (a + c).len() implies face_rank(#[trigger] (a + c)[m]) < r + 1 by {
        if m < a.len() {
            assert((a + c)[m] == a[m]);
        } else {
            assert((a + c)[m] == c[m - a.len()]);
        }
    }
}

/// The six faces a voxel can make, in order.
pub open spec fn voxel_face(x: int, y: int, z: int, i: int) -> Face {
    if i == 0 {
        mk_face(x + 1, y, z, 0, true)
    } else if i == 1 {
        mk_face(x, y, z, 0, false)
    } else if i == 2 {
        mk_face(x, y + 1, z, 1, false)
    } else if i == 3 {
        mk_face(x, y, z, 1, true)
    } else if i == 4 {
        mk_face(x, y, z + 1, 2, false)
    } else {
        mk_face(x, y, z, 2, true)
    }
}

/// Every face a voxel makes is one of its six.
proof fn lemma_cube_faces_members<S: VoxelSource>(src: S, x: int, y: int, z: int)
    ensures
        forall|j: int| 0 <= j < cube_faces(src, x, y, z).len() ==> exists|i: int| 0 <= i < 6 && #[trigger] cube_faces(src, x, y, z)[j] == voxel_face(x, y, z, i),
{
    let s1 = face_if(!src.solid(x + 1, y, z), voxel_face(x, y, z, 0));
    let s2 = face_if(!src.solid(x - 1, y, z), voxel_face(x, y, z, 1));
    let s3 = face_if(!src.solid(x, y + 1, z), voxel_face(x, y, z, 2));
    let s4 = face_if(!src.solid(x, y - 1, z), voxel_face(x, y, z, 3));
    let s5 = face_if(!src.solid(x, y, z + 1), voxel_face(x, y, z, 4));
    let s6 = face_if(!src.solid(x, y, z - 1), voxel_face(x, y, z, 5));
    let cf = cube_faces(src, x, y, z);
    if src.solid(x, y, z) {
        assert(cf == s1 + s2 + s3 + s4 + s5 + s6);
        assert forall|j: int| 0 <= j < cf.len() implies exists|i: int| 0 <= i < 6 && #[trigger] cf[j] == voxel_face(x, y, z, i) by {
            let a1 = s1 + s2;
            let a2 = a1 + s3;
            let a3 = a2 + s4;
            let a4 = a3 + s5;
            if j < a4.len() {
                assert(cf[j] == a4[j]);
                if j < a3.len() {
                    assert(a4[j] == a3[j]);
                    if j < a2.len() {
                        assert(a3[j] == a2[j]);
                        if j < a1.len() {
                            assert(a2[j] == a1[j]);
                            if j < s1.len() {
                                assert(a1[j] == voxel_face(x, y, z, 0));
                            } else {
                                assert(a1[j] == voxel_face(x, y, z, 1));
                            }
                        } else {
                            assert(a2[j] == voxel_face(x, y, z, 2));
                        }
                    } else {
                        assert(a3[j] == voxel_face(x, y, z, 3));
                    }
                } else {
                    assert(a4[j] == voxel_face(x, y, z, 4));
                }
            } else {
                assert(cf[j] == voxel_face(x, y, z, 5));
            }
        }
    }
}

/// Each of a voxel's six faces has the voxel behind it.
proof fn lemma_voxel_face_behind(x: int, y: int, z: int, i: int)
    requires
        0 <= i < 6,
        fits_i32(x - 1) && fits_i32(x + 1),
        fits_i32(y - 1) && fits_i32(y + 1),
        fits_i32(z - 1) && fits_i32(z + 1),
    ensures
        voxel_behind(voxel_face(x, y, z, i)) == (x, y, z),
        face_rank(voxel_face(x, y, z, i)) == i,
{
    lemma_face_normals(voxel_face(x, y, z, i));
}

/// The faces a voxel makes are distinct.
proof fn lemma_cube_faces_distinct<S: VoxelSource>(src: S, x: int, y: int, z: int)
    requires
        fits_i32(x - 1) && fits_i32(x + 1),
        fits_i32(y - 1) && fits_i32(y + 1),
        fits_i32(z - 1) && fits_i32(z + 1),
    ensures
        cube_faces(src, x, y, z).no_duplicates(),
{
    let s1 = face_if(!src.solid(x + 1, y, z), voxel_face(x, y, z, 0));
    let s2 = face_if(!src.solid(x - 1, y, z), voxel_face(x, y, z, 1));
    let s3 = face_if(!src.solid(x, y + 1, z), voxel_face(x, y, z, 2));
    let s4 = face_if(!src.solid(x, y - 1, z), voxel_face(x, y, z, 3));
    let s5 = face_if(!src.solid(x, y, z + 1), voxel_face(x, y, z, 4));
    let s6 = face_if(!src.solid(x, y, z - 1), voxel_face(x, y, z, 5));
    if src.solid(x, y, z) {
        let e = Seq::<Face>::empty();
        assert(e + s1 =~= s1);
        lemma_voxel_face_behind(x, y, z, 0);
        lemma_voxel_face_behind(x, y, z, 1);
        lemma_voxel_face_behind(x, y, z, 2);
        lemma_voxel_face_behind(x, y, z, 3);
        lemma_voxel_face_behind(x, y, z, 4);
        lemma_voxel_face_behind(x, y, z, 5);
        lemma_append_face(e, !src.solid(x + 1, y, z), voxel_face(x, y, z, 0), 0);
        lemma_append_face(s1, !src.solid(x - 1, y, z), voxel_face(x, y, z, 1), 1);
        lemma_append_face(s1 + s2, !src.solid(x, y + 1, z), voxel_face(x, y, z, 2), 2);
        lemma_append_face(s1 + s2 + s3, !src.solid(x, y - 1, z), voxel_face(x, y, z, 3), 3);
        lemma_append_face(s1 + s2 + s3 + s4, !src.solid(x, y, z + 1), voxel_face(x, y, z, 4), 4);
        lemma_append_face(s1 + s2 + s3 + s4 + s5, !src.solid(x, y, z - 1), voxel_face(x, y, z, 5), 5);
        assert(cube_faces(src, x, y, z) == s1 + s2 + s3 + s4 + s5 + s6);
    } else {
        assert(cube_faces(src, x, y, z) =~= Seq::<Face>::empty());
    }
}

/// No face comes twice in the blocky mesh; with `law_faces_complete`, the
/// mesh has exactly one face for each solid voxel of `[0, n)^3` and each of
/// its empty axis neighbours.
pub proof fn law_faces_distinct<S: VoxelSource>(src: S, n: int)
    requires
        n < i32::MAX,
    ensures
        blocky_faces(src, n).no_duplicates(),
{
    let f = cube_faces_fn(src);
    let m: nat = if n > 0 { n as nat } else { 0 };
    let tag = |g: Face| voxel_behind(g);
    assert forall|x: int, y: int, z: int, j: int| in_cube(m as int, x, y, z) && 0 <= j < f(x, y, z).len() implies tag(
        #[trigger] f(x, y, z)[j],
    ) == (x, y, z) by {
        lemma_cube_faces_members(src, x, y, z);
        let i = choose|i: int| 0 <= i < 6 && #[trigger] cube_faces(src, x, y, z)[j] == voxel_face(x, y, z, i);
        lemma_voxel_face_behind(x, y, z, i);
    }
    assert forall|x: int, y: int, z: int| in_cube(m as int, x, y, z) implies (#[trigger] f(x, y, z)).no_duplicates() by {
        lemma_cube_faces_distinct(src, x, y, z);
    }
    crate::lattice::lemma_sweep_distinct(f, m, tag);
}

/// The blocky mesh has four vertices and six indices per face.
pub proof fn law_counts(fs: Seq<Face>)
    ensures
        faces_vertices(fs).len() == 4 * fs.len(),
        faces_indices(fs, 0).len() == 6 * fs.len(),
{
    lemma_faces_vertices_len(fs);
    lemma_faces_indices_len(fs, 0);
}

/// With at most 2^16 vertices, every index of the blocky mesh names a
/// vertex: each face's indices name its own four vertices.
pub proof fn law_indices_name_vertices(fs: Seq<Face>)
    requires
        4 * fs.len() <= 0x10000,
    ensures
        forall|k: int|
            0 <= k < faces_indices(fs, 0).len() ==> {
                &&& 4 * (k / 6) <= (#[trigger] faces_indices(fs, 0)[k]) as int
                &&& (faces_indices(fs, 0)[k] as int) < 4 * (k / 6) + 4
                &&& (faces_indices(fs, 0)[k] as int) < 4 * fs.len()
            },
    decreases fs.len(),
{
    lemma_faces_indices_len(fs, 0);
    if fs.len() > 0 {
        let a = fs.drop_last();
        law_indices_name_vertices(a);
        lemma_faces_indices_len(a, 0);
        let last = face_indices(4 * (fs.len() - 1), fs.last().reverse);
        assert forall|k: int| 0 <= k < faces_indices(fs, 0).len() implies {
            &&& 4 * (k / 6) <= (#[trigger] faces_indices(fs, 0)[k]) as int
            &&& (faces_indices(fs, 0)[k] as int) < 4 * (k / 6) + 4
            &&& (faces_indices(fs, 0)[k] as int) < 4 * fs.len()
        } by {
            if k < 6 * a.len() {
                assert(faces_indices(fs, 0)[k] == faces_indices(a, 0)[k]);
            } else {
                let i = k - 6 * a.len();
                assert(faces_indices(fs, 0)[k] == last[i]);
                let o = face_order(fs.last().reverse)[i];
                assert(0 <= o <= 3);
                assert(k / 6 == a.len()) by {
                    vstd::arithmetic::div_mod::lemma_fundamental_div_mod_converse(k, 6, a.len() as int, i);
                }
                vstd::arithmetic::div_mod::lemma_small_mod((4 * (fs.len() - 1) + o) as nat, 0x10000);
            }
        }
    }
}

/// A mesh of faces under construction.
pub struct Builder<'a, S: VoxelSource> {
    size: i32,
    source: &'a S,
    mesh: Mesh,
}

impl<'a, S: VoxelSource> Builder<'a, S> {
    /// The side of the lattice.
    pub closed spec fn side(&self) -> int {
        self.size as int
    }

    /// The voxel source.
    pub closed spec fn src(&self) -> S {
        *self.source
    }

    /// The vertices made so far.
    pub closed spec fn vertices(&self) -> Seq<Vertex> {
        self.mesh.vertices@
    }

    /// The triangle list made so far.
    pub closed spec fn triangles(&self) -> Seq<u16> {
        self.mesh.indices@
    }

    fn new(source: &'a S, size: i32) -> (b: Self)
        ensures
            b.side() == size,
            b.src() == *source,
            b.vertices() == Seq::<Vertex>::empty(),
            b.triangles() == Seq::<u16>::empty(),
    {
        Builder { size: size, source: source, mesh: Mesh::new() }
    }

    /// Adds the face perpendicular to `axis` whose lowest corner is `(x, y, z)`.
    fn face(&mut self, x: i32, y: i32, z: i32, axis: u8, reverse: bool)
        requires
            axis <= 2,
            x < i32::MAX,
            y < i32::MAX,
            z < i32::MAX,
        ensures
            final(self).side() == old(self).side(),
            final(self).src() == old(self).src(),
            final(self).vertices() == old(self).vertices() + face_vertices(
                Face { x, y, z, axis, reverse },
            ),
            final(self).triangles() == old(self).triangles() + face_indices(
                old(self).vertices().len() as int,
                reverse,
            ),
    {
        let ghost f = Face { x, y, z, axis, reverse };
        let index = (self.mesh.vertices.len() % 0x10000) as u16;
        let offs: [[i32; 3]; 4] = if axis == 0 {
            [[0, 0, 0], [0, 0, 1], [0, 1, 0], [0, 1, 1]]
        } else if axis == 1 {
            [[0, 0, 0], [0, 0, 1], [1, 0, 0], [1, 0, 1]]
        } else {
            [[0, 0, 0], [1, 0, 0], [0, 1, 0], [1, 1, 0]]
        };
        let axoff: [i32; 3] = if axis == 0 {
            if reverse { [-1, 0, 0] } else { [1, 0, 0] }
        } else if axis == 1 {
            if reverse { [0, -1, 0] } else { [0, 1, 0] }
        } else {
            if reverse { [0, 0, -1] } else { [0, 0, 1] }
        };
        assert(forall|i: int| 0 <= i < 4 ==> face_offset(axis as int, i) == (#[trigger] offs[i][0] as int, offs[i][1] as int, offs[i][2] as int));
        let ghost v0 = self.mesh.vertices@;
        let mut i: usize = 0;
        while i < 4
            invariant
                0 <= i <= 4,
                f == (Face { x, y, z, axis, reverse }),
                x < i32::MAX,
                y < i32::MAX,
                z < i32::MAX,
                axis <= 2,
                forall|i: int| 0 <= i < 4 ==> face_offset(axis as int, i) == (#[trigger] offs[i][0] as int, offs[i][1] as int, offs[i][2] as int),
                forall|i: int| 0 <= i < 4 ==> 0 <= #[trigger] offs[i][0] <= 1 && 0 <= offs[i][1] <= 1 && 0 <= offs[i][2] <= 1,
                axoff@ == seq![face_normal(axis as int, reverse).0 as i32, face_normal(axis as int, reverse).1 as i32, face_normal(axis as int, reverse).2 as i32],
                self.mesh.vertices@ == v0 + Seq::new(i as nat, |k: int| face_vertex(f, k)),
                self.mesh.indices@ == old(self).mesh.indices@,
                self.size == old(self).size,
                self.source == old(self).source,
            decreases 4 - i,
        {
            let off = offs[i];
            assert(0 <= off[0] <= 1 && 0 <= off[1] <= 1 && 0 <= off[2] <= 1);
            let v = Vertex { pos: [x + off[0], y + off[1], z + off[2]], normal: axoff };
            assert(v == face_vertex(f, i as int)) by {
                assert(v.pos =~= face_vertex(f, i as int).pos);
                assert(v.normal =~= face_vertex(f, i as int).normal);
            }
            self.mesh.vertices.push(v);
            assert(self.mesh.vertices@ =~= v0 + Seq::new((i + 1) as nat, |k: int| face_vertex(f, k)));
            i += 1;
        }
        assert(self.mesh.vertices@ =~= v0 + face_vertices(f));
        let order: [u16; 6] = if reverse { [2, 1, 0, 3, 1, 2] } else { [0, 1, 2, 2, 1, 3] };
        assert(forall|k: int| 0 <= k < 6 ==> #[trigger] order[k] as int == face_order(reverse)[k]);
        let ghost i0 = self.mesh.indices@;
        let ghost base = v0.len() as int;
        let mut k: usize = 0;
        while k < 6
            invariant
                0 <= k <= 6,
                index as int == base % 0x10000,
                forall|k: int| 0 <= k < 6 ==> #[trigger] order[k] as int == face_order(reverse)[k],
                forall|k: int| 0 <= k < 6 ==> 0 <= #[trigger] order[k] <= 3,
                self.mesh.indices@ == i0 + Seq::new(k as nat, |j: int| ((base + face_order(reverse)[j]) % 0x10000) as u16),
                self.mesh.vertices@ == v0 + face_vertices(f),
                self.size == old(self).size,
                self.source == old(self).source,
            decreases 6 - k,
        {
            let v = ((index as u32 + order[k] as u32) % 0x10000) as u16;
            assert(v as int == (base + face_order(reverse)[k as int]) % 0x10000) by {
                let o = face_order(reverse)[k as int];
                assert(0 <= o <= 3);
                assert((index as int + o) % 0x10000 == (base + o) % 0x10000) by {
                    vstd::arithmetic::div_mod::lemma_add_mod_noop(base, o, 0x10000);
                    vstd::arithmetic::div_mod::lemma_mod_twice(base, 0x10000);
                    vstd::arithmetic::div_mod::lemma_add_mod_noop(base % 0x10000, o, 0x10000);
                    vstd::arithmetic::div_mod::lemma_small_mod(o as nat, 0x10000);
                }
            }
            self.mesh.indices.push(v);
            assert(self.mesh.indices@ =~= i0 + Seq::new((k + 1) as nat, |j: int| ((base + face_order(reverse)[j]) % 0x10000) as u16));
            k += 1;
        }
        assert(self.mesh.indices@ =~= i0 + face_indices(base, reverse));
    }

    /// The state after adding the faces `acc` to a mesh with vertices `v0`
    /// and indices `t0`.
    pub open spec fn holds(&self, v0: Seq<Vertex>, t0: Seq<u16>, acc: Seq<Face>) -> bool {
        &&& self.vertices() == v0 + faces_vertices(acc)
        &&& self.triangles() == t0 + faces_indices(acc, v0.len() as int)
    }

    /// Adds face `(x, y, z, axis, reverse)` when `b` holds.
    fn face_when(
        &mut self,
        b: bool,
        x: i32,
        y: i32,
        z: i32,
        axis: u8,
        reverse: bool,
        Ghost(v0): Ghost<Seq<Vertex>>,
        Ghost(t0): Ghost<Seq<u16>>,
        Ghost(acc): Ghost<Seq<Face>>,
    )
        requires
            axis <= 2,
            x < i32::MAX,
            y < i32::MAX,
            z < i32::MAX,
            old(self).holds(v0, t0, acc),
        ensures
            final(self).side() == old(self).side(),
            final(self).src() == old(self).src(),
            final(self).holds(v0, t0, acc + face_if(b, Face { x, y, z, axis, reverse })),
    {
        let ghost f = Face { x, y, z, axis, reverse };
        if b {
            proof {
                lemma_push_face(acc, f, v0.len() as int);
            }
            self.face(x, y, z, axis, reverse);
            assert(acc + face_if(b, f) =~= acc.push(f));
            assert(self.vertices() =~= v0 + faces_vertices(acc.push(f)));
            assert(self.triangles() =~= t0 + faces_indices(acc.push(f), v0.len() as int));
        } else {
            assert(acc + face_if(b, f) =~= acc);
        }
    }

    /// Adds the faces of voxel `(x, y, z)`.
    fn cube(&mut self, x: i32, y: i32, z: i32)
        requires
            i32::MIN < x && x + 2 <= i32::MAX,
            i32::MIN < y && y + 2 <= i32::MAX,
            i32::MIN < z && z + 2 <= i32::MAX,
            old(self).src().defined_at(x as int, y as int, z as int),
            old(self).src().defined_at(x + 1, y as int, z as int),
            old(self).src().defined_at(x - 1, y as int, z as int),
            old(self).src().defined_at(x as int, y + 1, z as int),
            old(self).src().defined_at(x as int, y - 1, z as int),
            old(self).src().defined_at(x as int, y as int, z + 1),
            old(self).src().defined_at(x as int, y as int, z - 1),
        ensures
            final(self).side() == old(self).side(),
            final(self).src() == old(self).src(),
            final(self).holds(old(self).vertices(), old(self).triangles(), cube_faces(old(self).src(), x as int, y as int, z as int)),
    {
        let ghost v0 = self.vertices();
        let ghost t0 = self.triangles();
        let ghost src = self.src();
        assert(v0 + faces_vertices(Seq::<Face>::empty()) =~= v0);
        assert(t0 + faces_indices(Seq::<Face>::empty(), v0.len() as int) =~= t0);
        if !self.source.get(x, y, z) {
            return;
        }
        let ghost a0 = Seq::<Face>::empty();
        let b = !self.source.get(x + 1, y, z);
        self.face_when(b, x + 1, y, z, 0, true, Ghost(v0), Ghost(t0), Ghost(a0));
        let ghost a1 = a0 + face_if(b, Face { x: (x + 1) as i32, y, z, axis: 0, reverse: true });
        let b = !self.source.get(x - 1, y, z);
        self.face_when(b, x, y, z, 0, false, Ghost(v0), Ghost(t0), Ghost(a1));
        let ghost a2 = a1 + face_if(b, Face { x, y, z, axis: 0, reverse: false });
        let b = !self.source.get(x, y + 1, z);
        self.face_when(b, x, y + 1, z, 1, false, Ghost(v0), Ghost(t0), Ghost(a2));
        let ghost a3 = a2 + face_if(b, Face { x, y: (y + 1) as i32, z, axis: 1, reverse: false });
        let b = !self.source.get(x, y - 1, z);
        self.face_when(b, x, y, z, 1, true, Ghost(v0), Ghost(t0), Ghost(a3));
        let ghost a4 = a3 + face_if(b, Face { x, y, z, axis: 1, reverse: true });
        let b = !self.source.get(x, y, z + 1);
        self.face_when(b, x, y, z + 1, 2, false, Ghost(v0), Ghost(t0), Ghost(a4));
        let ghost a5 = a4 + face_if(b, Face { x, y, z: (z + 1) as i32, axis: 2, reverse: false });
        let b = !self.source.get(x, y, z - 1);
        self.face_when(b, x, y, z, 2, true, Ghost(v0), Ghost(t0), Ghost(a5));
        let ghost a6 = a5 + face_if(b, Face { x, y, z, axis: 2, reverse: true });
        assert(a6 =~= cube_faces(src, x as int, y as int, z as int));
    }

    /// Adds the faces of every voxel of `[0, size)^3`.
    fn build(&mut self)
        requires
            old(self).side() < i32::MAX,
            covers(old(self).src(), -1, old(self).side()),
        ensures
            final(self).side() == old(self).side(),
            final(self).src() == old(self).src(),
            final(self).holds(old(self).vertices(), old(self).triangles(), blocky_faces(old(self).src(), old(self).side())),
    {
        let ghost v0 = self.vertices();
        let ghost t0 = self.triangles();
        let ghost src = self.src();
        let ghost f = cube_faces_fn(src);
        let n = self.size;
        let ghost m: nat = if n > 0 { n as nat } else { 0 };
        proof {
            lemma_prefix_start(f, m);
            assert(v0 + faces_vertices(prefix(f, m, 0, 0, 0)) =~= v0);
            assert(t0 + faces_indices(prefix(f, m, 0, 0, 0), v0.len() as int) =~= t0);
        }
        let mut x: i32 = 0;
        while x < n
            invariant
                0 <= x,
                n > 0 ==> x <= n,
                n <= 0 ==> x == 0,
                n == self.side(),
                n < i32::MAX,
                m == (if n > 0 { n as nat } else { 0nat }),
                src == self.src(),
                f == cube_faces_fn(src),
                covers(src, -1, n as int),
                self.holds(v0, t0, prefix(f, m, x as nat, 0, 0)),
            decreases n - x,
        {
            let mut y: i32 = 0;
            while y < n
                invariant
                    0 <= x < n,
                    0 <= y <= n,
                    n == self.side(),
                    n < i32::MAX,
                    m == n as nat,
                    src == self.src(),
                    f == cube_faces_fn(src),
                    covers(src, -1, n as int),
                    self.holds(v0, t0, prefix(f, m, x as nat, y as nat, 0)),
                decreases n - y,
            {
                let mut z: i32 = 0;
                while z < n
                    invariant
                        0 <= x < n,
                        0 <= y < n,
                        0 <= z <= n,
                        n == self.side(),
                        n < i32::MAX,
                        m == n as nat,
                        src == self.src(),
                        f == cube_faces_fn(src),
                        covers(src, -1, n as int),
                        self.holds(v0, t0, prefix(f, m, x as nat, y as nat, z as nat)),
                    decreases n - z,
                {
                    let ghost acc = prefix(f, m, x as nat, y as nat, z as nat);
                    let ghost v1 = self.vertices();
                    let ghost t1 = self.triangles();
                    assert(src.defined_at(x as int, y as int, z as int));
                    assert(src.defined_at(x + 1, y as int, z as int));
                    assert(src.defined_at(x - 1, y as int, z as int));
                    assert(src.defined_at(x as int, y + 1, z as int));
                    assert(src.defined_at(x as int, y - 1, z as int));
                    assert(src.defined_at(x as int, y as int, z + 1));
                    assert(src.defined_at(x as int, y as int, z - 1));
                    self.cube(x, y, z);
                    proof {
                        let cf = cube_faces(src, x as int, y as int, z as int);
                        lemma_prefix_step(f, m, x as nat, y as nat, z as nat);
                        assert(((z + 1) as nat) == (z as nat) + 1);
                        assert(f(x as int, y as int, z as int) == cf);
                        lemma_faces_vertices_append(acc, cf);
                        lemma_faces_indices_append(acc, cf, v0.len() as int);
                        assert(self.vertices() =~= v0 + faces_vertices(acc + cf));
                        assert(self.triangles() =~= t0 + faces_indices(acc + cf, v0.len() as int));
                    }
                    z = z + 1;
                }
                proof {
                    lemma_prefix_row_end(f, m, x as nat, y as nat);
                    assert(((y + 1) as nat) == (y as nat) + 1);
                }
                y = y + 1;
            }
            proof {
                lemma_prefix_plane_end(f, m, x as nat);
                assert(((x + 1) as nat) == (x as nat) + 1);
            }
            x = x + 1;
        }
        proof {
            lemma_prefix_end(f, m);
            if n <= 0 {
                lemma_prefix_start(f, m);
            }
        }
    }

    /// The mesh made so far.
    fn into_mesh(self) -> (m: Mesh)
        ensures
            m.vertices@ == self.vertices(),
            m.indices@ == self.triangles(),
    {
        self.mesh
    }
}

impl Blocky {
    /// The blocky mesh of the voxels of `[0, size)^3`: the faces of
    /// `blocky_faces`, four vertices and two triangles each.
    pub fn mesh<S: VoxelSource>(&mut self, source: &S) -> (m: Mesh)
        requires
            old(self).size < i32::MAX,
            covers(*source, -1, old(self).size as int),
        ensures
            *final(self) == *old(self),
            m.vertices@ == faces_vertices(blocky_faces(*source, old(self).size as int)),
            m.indices@ == faces_indices(blocky_faces(*source, old(self).size as int), 0),
    {
        let mut builder = Builder::new(source, self.size);
        builder.build();
        let m = builder.into_mesh();
        assert(m.vertices@ =~= faces_vertices(blocky_faces(*source, self.size as int)));
        assert(m.indices@ =~= faces_indices(blocky_faces(*source, self.size as int), 0));
        m
    }
}

} // verus!
