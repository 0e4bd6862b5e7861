//! Meshes on the integer lattice: vertices with integer positions and
//! normals, and a triangle list of 16-bit indices.
use vstd::prelude::*;
use crate::voxel_source::fits_i32;

verus! {

/// A vertex: its position and its normal.
pub struct Vertex {
    pub pos: [i32; 3],
    pub normal: [i32; 3],
}

impl Vertex {
    /// A vertex at the origin with a zero normal.
    pub fn new() -> (v: Self)
        ensures
            v.pos@ == seq![0i32, 0, 0],
            v.normal@ == seq![0i32, 0, 0],
    {
        Vertex { pos: [0, 0, 0], normal: [0, 0, 0] }
    }

    /// A vertex at `pos` with a zero normal.
    pub fn from_pos(pos: [i32; 3]) -> (v: Self)
        ensures
            v.pos == pos,
            v.normal@ == seq![0i32, 0, 0],
    {
        Vertex { pos: pos, normal: [0, 0, 0] }
    }
}

/// A triangle mesh: each three consecutive indices name a triangle.
pub struct Mesh {
    pub vertices: Vec<Vertex>,
    pub indices: Vec<u16>,
}

/// `v` moved by `p`.
pub open spec fn moved(v: Vertex, p: [i32; 3]) -> Vertex {
    Vertex {
        pos: [(v.pos[0] + p[0]) as i32, (v.pos[1] + p[1]) as i32, (v.pos[2] + p[2]) as i32],
        normal: v.normal,
    }
}

impl Mesh {
    /// A mesh without vertices or triangles.
    pub fn new() -> (m: Self)
        ensures
            m.vertices@ == Seq::<Vertex>::empty(),
            m.indices@ == Seq::<u16>::empty(),
    {
        Mesh { vertices: Vec::new(), indices: Vec::new() }
    }

    /// Moves every vertex by `p`.
    pub fn translate(&mut self, p: [i32; 3])
        requires
            forall|i: int, d: int|
                0 <= i < old(self).vertices@.len() && 0 <= d < 3 ==> fits_i32(
                    #[trigger] old(self).vertices@[i].pos[d] + p[d],
                ),
        ensures
            final(self).vertices@.len() == old(self).vertices@.len(),
            forall|i: int|
                0 <= i < final(self).vertices@.len() ==> #[trigger] final(self).vertices@[i] == moved(
                    old(self).vertices@[i],
                    p,
                ),
            final(self).indices@ == old(self).indices@,
    {
        let mut i: usize = 0;
        while i < self.vertices.len()
            invariant
                0 <= i <= self.vertices@.len(),
                self.vertices@.len() == old(self).vertices@.len(),
                self.indices@ == old(self).indices@,
                forall|j: int, d: int|
                    0 <= j < old(self).vertices@.len() && 0 <= d < 3 ==> fits_i32(
                        #[trigger] old(self).vertices@[j].pos[d] + p[d],
                    ),
                forall|j: int|
                    0 <= j < self.vertices@.len() ==> #[trigger] self.vertices@[j] == (if j < i {
                        moved(old(self).vertices@[j], p)
                    } else {
                        old(self).vertices@[j]
                    }),
            decreases self.vertices@.len() - i,
        {
            let old_v = &self.vertices[i];
            assert(fits_i32(old_v.pos[0] + p[0]));
            assert(fits_i32(old_v.pos[1] + p[1]));
            assert(fits_i32(old_v.pos[2] + p[2]));
            let v = Vertex {
                pos: [old_v.pos[0] + p[0], old_v.pos[1] + p[1], old_v.pos[2] + p[2]],
                normal: old_v.normal,
            };
            self.vertices.set(i, v);
            i += 1;
        }
    }
}

/// Translating by `p` and then by `-p` gives back every vertex.
pub proof fn law_translate_back(v: Vertex, p: [i32; 3], q: [i32; 3])
    requires
        forall|d: int| 0 <= d < 3 ==> fits_i32(#[trigger] v.pos[d] + p[d]),
        forall|d: int| 0 <= d < 3 ==> #[trigger] q[d] == -p[d],
    ensures
        moved(moved(v, p), q) == v,
{
    let w = moved(v, p);
    assert(fits_i32(v.pos[0] + p[0]) && fits_i32(v.pos[1] + p[1]) && fits_i32(v.pos[2] + p[2]));
    assert(q[0] == -p[0] && q[1] == -p[1] && q[2] == -p[2]);
    assert(moved(w, q).pos =~= v.pos);
}

} // verus!
