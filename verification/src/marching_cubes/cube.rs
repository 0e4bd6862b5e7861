//! The geometry of one cube of the lattice: its corners and edges, the
//! lattice segment each edge covers, and the vertices placed on edges.
use vstd::prelude::*;

verus! {

/// The corners of a cube, relative to its lowest corner; `y` points up.
pub open spec fn corner(i: int) -> (int, int, int) {
    if i == 0 {
        (0, 0, 0)
    } else if i == 1 {
        (1, 0, 0)
    } else if i == 2 {
        (1, 0, 1)
    } else if i == 3 {
        (0, 0, 1)
    } else if i == 4 {
        (0, 1, 0)
    } else if i == 5 {
        (1, 1, 0)
    } else if i == 6 {
        (1, 1, 1)
    } else {
        (0, 1, 1)
    }
}

/// The two corners at the ends of each of the twelve edges of a cube.
pub open spec fn edge_ends(e: int) -> (int, int) {
    if e == 0 {
        (0, 1)
    } else if e == 1 {
        (1, 2)
    } else if e == 2 {
        (2, 3)
    } else if e == 3 {
        (3, 0)
    } else if e == 4 {
        (4, 5)
    } else if e == 5 {
        (5, 6)
    } else if e == 6 {
        (6, 7)
    } else if e == 7 {
        (7, 4)
    } else if e == 8 {
        (0, 4)
    } else if e == 9 {
        (1, 5)
    } else if e == 10 {
        (2, 6)
    } else {
        (3, 7)
    }
}

/// `p` moved by `o`.
pub open spec fn add3(p: (int, int, int), o: (int, int, int)) -> (int, int, int) {
    (p.0 + o.0, p.1 + o.1, p.2 + o.2)
}

/// `p` comes no later than `q`, comparing `x`, then `y`, then `z`.
pub open spec fn le3(p: (int, int, int), q: (int, int, int)) -> bool {
    p.0 < q.0 || (p.0 == q.0 && (p.1 < q.1 || (p.1 == q.1 && p.2 <= q.2)))
}

/// A lattice segment with its ends in a fixed order.
pub open spec fn seg_key(p: (int, int, int), q: (int, int, int)) -> ((int, int, int), (int, int, int)) {
    if le3(p, q) {
        (p, q)
    } else {
        (q, p)
    }
}

/// Lattice edge `e` of the cube whose lowest corner is `p`.
pub open spec fn edge_key(p: (int, int, int), e: int) -> ((int, int, int), (int, int, int)) {
    seg_key(add3(p, corner(edge_ends(e).0)), add3(p, corner(edge_ends(e).1)))
}

/// A vertex to be placed on the edge from corner `a` to corner `b` of the
/// cube whose lowest corner is `pos`.
pub struct EdgeVertex {
    pub pos: [i32; 3],
    pub a: u8,
    pub b: u8,
}

/// The lowest corner of the cube of a vertex.
pub open spec fn cell_of(v: EdgeVertex) -> (int, int, int) {
    (v.pos[0] as int, v.pos[1] as int, v.pos[2] as int)
}

/// The lattice edge a vertex lies on.
pub open spec fn vertex_key(v: EdgeVertex) -> ((int, int, int), (int, int, int)) {
    seg_key(add3(cell_of(v), corner(v.a as int)), add3(cell_of(v), corner(v.b as int)))
}

/// The vertex on edge `e` of the cube at `pos`.
pub open spec fn edge_vertex(pos: [i32; 3], e: int) -> EdgeVertex {
    EdgeVertex { pos, a: edge_ends(e).0 as u8, b: edge_ends(e).1 as u8 }
}

/// Only the bottom edges of the bottom layer lie on the bottom plane.
pub(crate) proof fn lemma_bottom_edge(p: (int, int, int), e: int)
    requires
        0 <= e < 12,
        p.1 >= 0,
        on_bottom(edge_key(p, e)),
    ensures
        e < 4,
        p.1 == 0,
{
}

/// The cubes that share lattice edge `e` of the cube at `p`.
pub(crate) proof fn lemma_one_maker_case(p: (int, int, int), e: int, q: (int, int, int), f: int)
    requires
        4 <= e < 12,
        0 <= f < 12,
        edge_key(p, e) == edge_key(q, f),
    ensures
        e == 4 ==> (q == p && f == 4) || (q == (p.0, p.1 + 1, p.2) && f == 0) || (q == (p.0, p.1, p.2 - 1) && f == 6) || (q == (p.0, p.1 + 1, p.2 - 1) && f == 2),
        e == 5 ==> (q == p && f == 5) || (q == (p.0 + 1, p.1, p.2) && f == 7) || (q == (p.0, p.1 + 1, p.2) && f == 1) || (q == (p.0 + 1, p.1 + 1, p.2) && f == 3),
        e == 6 ==> (q == p && f == 6) || (q == (p.0, p.1, p.2 + 1) && f == 4) || (q == (p.0, p.1 + 1, p.2) && f == 2) || (q == (p.0, p.1 + 1, p.2 + 1) && f == 0),
        e == 7 ==> (q == p && f == 7) || (q == (p.0 - 1, p.1, p.2) && f == 5) || (q == (p.0, p.1 + 1, p.2) && f == 3) || (q == (p.0 - 1, p.1 + 1, p.2) && f == 1),
        e == 8 ==> (q == p && f == 8) || (q == (p.0 - 1, p.1, p.2) && f == 9) || (q == (p.0, p.1, p.2 - 1) && f == 11) || (q == (p.0 - 1, p.1, p.2 - 1) && f == 10),
        e == 9 ==> (q == p && f == 9) || (q == (p.0 + 1, p.1, p.2) && f == 8) || (q == (p.0, p.1, p.2 - 1) && f == 10) || (q == (p.0 + 1, p.1, p.2 - 1) && f == 11),
        e == 10 ==> (q == p && f == 10) || (q == (p.0 + 1, p.1, p.2) && f == 11) || (q == (p.0, p.1, p.2 + 1) && f == 9) || (q == (p.0 + 1, p.1, p.2 + 1) && f == 8),
        e == 11 ==> (q == p && f == 11) || (q == (p.0 - 1, p.1, p.2) && f == 10) || (q == (p.0, p.1, p.2 + 1) && f == 8) || (q == (p.0 - 1, p.1, p.2 + 1) && f == 9),
{
}

/// Distinct edges give distinct vertices.
pub(crate) proof fn lemma_edge_vertex_distinct(pos: [i32; 3], e1: int, e2: int)
    requires
        0 <= e1 < 12,
        0 <= e2 < 12,
        e1 != e2,
    ensures
        edge_vertex(pos, e1) != edge_vertex(pos, e2),
{
    assert(edge_ends(e1) != edge_ends(e2));
}

/// The lattice segment `key` lies in the bottom plane.
pub open spec fn on_bottom(key: ((int, int, int), (int, int, int))) -> bool {
    key.0.1 == 0 && key.1.1 == 0
}

/// The ends of edge `e`.
pub(crate) fn ends(e: usize) -> (r: (usize, usize))
    requires
        e < 12,
    ensures
        r.0 as int == edge_ends(e as int).0,
        r.1 as int == edge_ends(e as int).1,
        r.0 < 8 && r.1 < 8,
{
    if e == 0 {
        (0, 1)
    } else if e == 1 {
        (1, 2)
    } else if e == 2 {
        (2, 3)
    } else if e == 3 {
        (3, 0)
    } else if e == 4 {
        (4, 5)
    } else if e == 5 {
        (5, 6)
    } else if e == 6 {
        (6, 7)
    } else if e == 7 {
        (7, 4)
    } else if e == 8 {
        (0, 4)
    } else if e == 9 {
        (1, 5)
    } else if e == 10 {
        (2, 6)
    } else {
        (3, 7)
    }
}

/// The offset of corner `i` from the lowest corner of its cube, where the
/// caller reads the value of that corner and places vertices.
pub fn corner_offset(i: u8) -> (o: [i32; 3])
    requires
        i < 8,
    ensures
        (o[0] as int, o[1] as int, o[2] as int) == corner(i as int),
{
    if i == 0 {
        [0, 0, 0]
    } else if i == 1 {
        [1, 0, 0]
    } else if i == 2 {
        [1, 0, 1]
    } else if i == 3 {
        [0, 0, 1]
    } else if i == 4 {
        [0, 1, 0]
    } else if i == 5 {
        [1, 1, 0]
    } else if i == 6 {
        [1, 1, 1]
    } else {
        [0, 1, 1]
    }
}

} // verus!
