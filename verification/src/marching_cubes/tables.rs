//! The cube tables: for each of the 256 ways the corners of a cube can lie
//! inside, the edges the surface crosses and the triangles over them; and
//! how a cube of the field picks its row.
use vstd::prelude::*;
use super::cube::{add3, corner, edge_ends, ends};

verus! {

/// The tables that drive marching cubes: for each of the 256 ways the eight
/// corners can lie inside, the edges the surface crosses (bit `e` of
/// `edge_flags`) and up to five triangles (three edges each, ended by `12`),
/// and the order in which each triangle's edges are taken.
pub struct CubeTables {
    pub edge_flags: Vec<i32>,
    pub triangles: Vec<[usize; 16]>,
    pub winding: [usize; 3],
}

/// Bit `n` of `x`.
pub open spec fn edge_bit(x: i32, n: usize) -> bool {
    x & (1i32 << n) != 0
}

/// Bit `i` of a corner index.
pub open spec fn corner_bit(idx: usize, i: usize) -> bool {
    idx & (1usize << i) != 0
}

/// The tables have the right sizes and every triangle names real edges.
pub open spec fn tables_wf(t: CubeTables) -> bool {
    &&& t.edge_flags@.len() == 256
    &&& t.triangles@.len() == 256
    &&& forall|j: int| 0 <= j < 3 ==> #[trigger] t.winding[j] < 3
    &&& forall|idx: int, i: int|
        0 <= idx < 256 && 0 <= i < 5 && #[trigger] t.triangles@[idx][3 * i] != 12 ==> {
            &&& t.triangles@[idx][3 * i] < 12
            &&& t.triangles@[idx][3 * i + 1] < 12
            &&& t.triangles@[idx][3 * i + 2] < 12
        }
}

/// The edge table marks exactly the edges whose two corners differ, and
/// every triangle runs over marked edges.
pub open spec fn tables_consistent(t: CubeTables) -> bool {
    &&& forall|idx: usize, e: usize|
        idx < 256 && e < 12 ==> #[trigger] edge_bit(t.edge_flags@[idx as int], e) == (corner_bit(
            idx,
            edge_ends(e as int).0 as usize,
        ) != corner_bit(idx, edge_ends(e as int).1 as usize))
    &&& forall|idx: int, i: int, j: int|
        0 <= idx < 256 && 0 <= i < 5 && 0 <= j < 3 && t.triangles@[idx][3 * i] != 12 ==> edge_bit(
            t.edge_flags@[idx],
            #[trigger] t.triangles@[idx][3 * i + j],
        )
}

/// Whether the voxel at `p` is inside, in a field of side `s`.
pub open spec fn inside_at(field: Seq<bool>, s: int, p: (int, int, int)) -> bool {
    field[p.0 + p.1 * s + p.2 * s * s]
}

/// The corner index of the cube at `p`: bit `i` set when corner `i` is inside.
pub open spec fn flag_of(field: Seq<bool>, s: int, p: (int, int, int)) -> usize {
    (if inside_at(field, s, add3(p, corner(0))) { 1usize } else { 0usize }) | (if inside_at(
        field,
        s,
        add3(p, corner(1)),
    ) {
        2usize
    } else {
        0usize
    }) | (if inside_at(field, s, add3(p, corner(2))) { 4usize } else { 0usize }) | (if inside_at(
        field,
        s,
        add3(p, corner(3)),
    ) {
        8usize
    } else {
        0usize
    }) | (if inside_at(field, s, add3(p, corner(4))) { 16usize } else { 0usize }) | (if inside_at(
        field,
        s,
        add3(p, corner(5)),
    ) {
        32usize
    } else {
        0usize
    }) | (if inside_at(field, s, add3(p, corner(6))) { 64usize } else { 0usize }) | (if inside_at(
        field,
        s,
        add3(p, corner(7)),
    ) {
        128usize
    } else {
        0usize
    })
}

/// Whether lattice edge `e` of the cube at `p` crosses the surface.
pub open spec fn crossed(field: Seq<bool>, s: int, p: (int, int, int), e: int) -> bool {
    inside_at(field, s, add3(p, corner(edge_ends(e).0))) != inside_at(
        field,
        s,
        add3(p, corner(edge_ends(e).1)),
    )
}

/// The edges of the first `i` triangles of a table row, each triangle's
/// three edges in winding order; the row ends at its first `12`.
pub open spec fn row_edges(row: [usize; 16], w: [usize; 3], i: nat) -> Seq<usize>
    decreases i,
{
    if i == 0 {
        Seq::empty()
    } else {
        let prev = row_edges(row, w, (i - 1) as nat);
        let b = 3 * (i - 1);
        if prev.len() == b && row[b] != 12 {
            prev + seq![row[b + w[0]], row[b + w[1]], row[b + w[2]]]
        } else {
            prev
        }
    }
}

/// The edges, in order, whose vertices the triangles of the cube at `p` use.
pub open spec fn cube_edges(t: CubeTables, field: Seq<bool>, s: int, p: (int, int, int)) -> Seq<usize> {
    let idx = flag_of(field, s, p);
    if t.edge_flags@[idx as int] == 0 {
        Seq::empty()
    } else {
        row_edges(t.triangles@[idx as int], t.winding, 5)
    }
}

/// Bit `n` of `x` (`n < 32`).
pub(crate) fn bit(x: i32, n: usize) -> (r: bool)
    requires
        n < 32,
    ensures
        r == edge_bit(x, n),
{
    x & (1 << n) != 0
}

pub(crate) proof fn lemma_zero_has_no_bits(e: usize)
    by (bit_vector)
    requires
        e < 12,
    ensures
        !edge_bit(0i32, e),
{
}

/// The corner index built from the eight corner bits has those bits.
proof fn lemma_flag_bits(b0: bool, b1: bool, b2: bool, b3: bool, b4: bool, b5: bool, b6: bool, b7: bool)
    by (bit_vector)
    ensures
        ({
            let f = (if b0 { 1usize } else { 0usize }) | (if b1 { 2usize } else { 0usize }) | (if b2 {
                4usize
            } else {
                0usize
            }) | (if b3 { 8usize } else { 0usize }) | (if b4 { 16usize } else { 0usize }) | (if b5 {
                32usize
            } else {
                0usize
            }) | (if b6 { 64usize } else { 0usize }) | (if b7 { 128usize } else { 0usize });
            &&& f < 256
            &&& (f & (1usize << 0usize) != 0) == b0
            &&& (f & (1usize << 1usize) != 0) == b1
            &&& (f & (1usize << 2usize) != 0) == b2
            &&& (f & (1usize << 3usize) != 0) == b3
            &&& (f & (1usize << 4usize) != 0) == b4
            &&& (f & (1usize << 5usize) != 0) == b5
            &&& (f & (1usize << 6usize) != 0) == b6
            &&& (f & (1usize << 7usize) != 0) == b7
        }),
{
}

/// The corner index of the cube at `p` has a bit set exactly for each
/// corner inside, and the edge table then marks exactly the crossed edges.
pub(crate) proof fn lemma_flag_of(t: CubeTables, field: Seq<bool>, s: int, p: (int, int, int))
    requires
        tables_wf(t),
        tables_consistent(t),
    ensures
        flag_of(field, s, p) < 256,
        forall|i: int| 0 <= i < 8 ==> #[trigger] corner_bit(flag_of(field, s, p), i as usize) == inside_at(field, s, add3(p, corner(i))),
        forall|e: int| 0 <= e < 12 ==> #[trigger] edge_bit(t.edge_flags@[flag_of(field, s, p) as int], e as usize) == crossed(field, s, p, e),
{
    lemma_flag_bits(
        inside_at(field, s, add3(p, corner(0))),
        inside_at(field, s, add3(p, corner(1))),
        inside_at(field, s, add3(p, corner(2))),
        inside_at(field, s, add3(p, corner(3))),
        inside_at(field, s, add3(p, corner(4))),
        inside_at(field, s, add3(p, corner(5))),
        inside_at(field, s, add3(p, corner(6))),
        inside_at(field, s, add3(p, corner(7))),
    );
    let f = flag_of(field, s, p);
    assert forall|i: int| 0 <= i < 8 implies #[trigger] corner_bit(f, i as usize) == inside_at(field, s, add3(p, corner(i))) by {
        if i == 0 {} else if i == 1 {} else if i == 2 {} else if i == 3 {} else if i == 4 {} else if i == 5 {} else if i == 6 {} else {}
    }
    assert forall|e: int| 0 <= e < 12 implies #[trigger] edge_bit(t.edge_flags@[f as int], e as usize) == crossed(field, s, p, e) by {
        let ab = edge_ends(e);
        assert(edge_bit(t.edge_flags@[f as int], e as usize) == (corner_bit(f, ab.0 as usize) != corner_bit(f, ab.1 as usize)));
        assert(corner_bit(f, ab.0 as usize) == inside_at(field, s, add3(p, corner(ab.0))));
        assert(corner_bit(f, ab.1 as usize) == inside_at(field, s, add3(p, corner(ab.1))));
    }
}

/// Once a table row has ended, later triangles add nothing.
pub(crate) proof fn lemma_row_edges_end(row: [usize; 16], w: [usize; 3], i: nat, j: nat)
    requires
        i <= j,
        row_edges(row, w, i).len() < 3 * i || (i < 5 && row[3 * i as int] == 12 && row_edges(row, w, i).len() == 3 * i),
    ensures
        row_edges(row, w, j) == row_edges(row, w, i),
        row_edges(row, w, j).len() < 3 * j || (i == j),
    decreases j - i,
{
    if j > i {
        lemma_row_edges_end(row, w, i, (j - 1) as nat);
        lemma_row_edges_len(row, w, (j - 1) as nat);
    }
}

proof fn lemma_row_edges_len(row: [usize; 16], w: [usize; 3], i: nat)
    ensures
        row_edges(row, w, i).len() <= 3 * i,
    decreases i,
{
    if i > 0 {
        lemma_row_edges_len(row, w, (i - 1) as nat);
    }
}

/// While none of the first `i` triangles of a row is the terminator,
/// `row_edges` lists their edges triangle by triangle, each in winding
/// order.
proof fn lemma_row_edges_full(row: [usize; 16], w: [usize; 3], i: nat)
    requires
        i <= 5,
        forall|a: int| 0 <= a < i ==> #[trigger] row[3 * a] != 12,
    ensures
        row_edges(row, w, i).len() == 3 * i,
        forall|a: int, j: int| 0 <= a < i && 0 <= j < 3 ==> #[trigger] row_edges(row, w, i)[3 * a + j] == row[3 * a + w[j]],
    decreases i,
{
    if i > 0 {
        let i1 = (i - 1) as nat;
        lemma_row_edges_full(row, w, i1);
        let prev = row_edges(row, w, i1);
        let b = 3 * i1;
        assert(row[3 * (i1 as int)] != 12);
        let cur = row_edges(row, w, i);
        assert(cur == prev + seq![row[b + w[0]], row[b + w[1]], row[b + w[2]]]);
        assert forall|a: int, j: int| 0 <= a < i && 0 <= j < 3 implies #[trigger] cur[3 * a + j] == row[3 * a + w[j]] by {
            if a < i1 {
                assert(cur[3 * a + j] == prev[3 * a + j]);
            } else {
                assert(a == i1);
                if j == 0 {
                    assert(cur[3 * a + j] == row[b + w[0]]);
                } else if j == 1 {
                    assert(cur[3 * a + j] == row[b + w[1]]);
                } else {
                    assert(cur[3 * a + j] == row[b + w[2]]);
                }
            }
        }
    }
}

/// The triangles that consistent tables give the cube at `p` are exactly
/// those of its row up to the first `12` (at most five): the cube's list of
/// triangle edges has three entries per such triangle, and they are that
/// triangle's three edges in winding order.
pub proof fn law_cube_triangles_are_row(t: CubeTables, field: Seq<bool>, s: int, p: (int, int, int), k: int)
    requires
        tables_wf(t),
        tables_consistent(t),
        0 <= k <= 5,
        forall|a: int| 0 <= a < k ==> #[trigger] t.triangles@[flag_of(field, s, p) as int][3 * a] != 12,
        k < 5 ==> t.triangles@[flag_of(field, s, p) as int][3 * k] == 12,
    ensures
        cube_edges(t, field, s, p).len() == 3 * k,
        forall|a: int, j: int|
            0 <= a < k && 0 <= j < 3 ==> #[trigger] cube_edges(t, field, s, p)[3 * a + j]
                == t.triangles@[flag_of(field, s, p) as int][3 * a + t.winding[j]],
{
    lemma_flag_of(t, field, s, p);
    let idx = flag_of(field, s, p);
    let row = t.triangles@[idx as int];
    let w = t.winding;
    lemma_row_edges_full(row, w, k as nat);
    if k < 5 {
        assert(row[3 * k] == 12);
        lemma_row_edges_end(row, w, k as nat, 5);
    }
    if t.edge_flags@[idx as int] == 0 && k > 0 {
        assert(row[3 * 0int] != 12);
        assert(t.triangles@[idx as int][3 * 0int] < 12);
        assert(edge_bit(t.edge_flags@[idx as int], t.triangles@[idx as int][3 * 0int + 0]));
        lemma_zero_has_no_bits(row[0]);
    }
}

/// Edge `j`, in winding order, of triangle `a` of a table row.
pub open spec fn tri_edge(row: [usize; 16], w: [usize; 3], a: int, j: int) -> usize {
    row[3 * a + w[j]]
}

/// Edge `e` is an edge of one of the first `i` triangles of a table row.
pub open spec fn in_row(row: [usize; 16], w: [usize; 3], i: nat, e: usize) -> bool {
    exists|a: int, j: int| 0 <= a < i && 0 <= j < 3 && row[3 * a] != 12 && e == #[trigger] tri_edge(row, w, a, j)
}

/// Each edge that `row_edges` lists for the first `i` triangles is an
/// edge of a triangle the row has.
pub open spec fn edges_from_row(row: [usize; 16], w: [usize; 3], i: nat) -> bool {
    forall|m: int| 0 <= m < row_edges(row, w, i).len() ==> in_row(row, w, i, #[trigger] row_edges(row, w, i)[m])
}

proof fn lemma_row_edges_from_row(row: [usize; 16], w: [usize; 3], i: nat)
    requires
        i <= 5,
        forall|j: int| 0 <= j < 3 ==> #[trigger] w[j] < 3,
    ensures
        edges_from_row(row, w, i),
    decreases i,
{
    if i > 0 {
        let prev = row_edges(row, w, (i - 1) as nat);
        lemma_row_edges_from_row(row, w, (i - 1) as nat);
        let b = 3 * (i - 1);
        let cur = row_edges(row, w, i);
        assert forall|m: int| 0 <= m < cur.len() implies in_row(row, w, i, #[trigger] cur[m]) by {
            if m < prev.len() {
                assert(cur[m] == prev[m]);
                assert(in_row(row, w, (i - 1) as nat, prev[m]));
                let (a, j) = choose|a: int, j: int| 0 <= a < i - 1 && 0 <= j < 3 && row[3 * a] != 12 && prev[m] == #[trigger] tri_edge(row, w, a, j);
                assert(cur[m] == tri_edge(row, w, a, j));
            } else {
                assert(prev.len() == b && row[b] != 12);
                let j = m - b;
                assert(cur[m] == row[b + w[j]]);
                assert(cur[m] == tri_edge(row, w, i - 1, j));
            }
        }
        assert(edges_from_row(row, w, i));
    } else {
        assert(row_edges(row, w, i).len() == 0);
    }
}

/// Every triangle corner the consistent tables give the cube at `p` lies
/// on an edge of that cube that the surface crosses.
pub(crate) proof fn lemma_cube_edges_crossed(t: CubeTables, field: Seq<bool>, s: int, p: (int, int, int))
    requires
        tables_wf(t),
        tables_consistent(t),
    ensures
        forall|m: int|
            0 <= m < cube_edges(t, field, s, p).len() ==> {
                let e = #[trigger] cube_edges(t, field, s, p)[m] as int;
                0 <= e < 12 && crossed(field, s, p, e)
            },
{
    lemma_flag_of(t, field, s, p);
    let idx = flag_of(field, s, p);
    let ce = cube_edges(t, field, s, p);
    if t.edge_flags@[idx as int] != 0 {
        let row = t.triangles@[idx as int];
        lemma_row_edges_from_row(row, t.winding, 5);
        assert forall|m: int| 0 <= m < ce.len() implies {
            let e = #[trigger] ce[m] as int;
            0 <= e < 12 && crossed(field, s, p, e)
        } by {
            assert(in_row(row, t.winding, 5, row_edges(row, t.winding, 5)[m]));
            let (a, j) = choose|a: int, j: int|
                0 <= a < 5 && 0 <= j < 3 && row[3 * a] != 12 && row_edges(row, t.winding, 5)[m] == #[trigger] tri_edge(row, t.winding, a, j);
            let wj = t.winding[j];
            assert(wj < 3);
            assert(t.triangles@[idx as int][3 * a] != 12);
            assert(t.triangles@[idx as int][3 * a + 0] < 12);
            assert(t.triangles@[idx as int][3 * a + 1] < 12);
            assert(t.triangles@[idx as int][3 * a + 2] < 12);
            assert(edge_bit(t.edge_flags@[idx as int], t.triangles@[idx as int][3 * a + wj]));
            let e = ce[m];
            assert(e == row[3 * a + wj]);
            assert(edge_bit(t.edge_flags@[idx as int], (e as int) as usize) == crossed(field, s, p, e as int));
        }
    }
}

/// In the case `idx`, the two corners of edge `e` differ in being inside.
pub open spec fn edge_crossed_in(idx: usize, e: int) -> bool {
    corner_bit(idx, edge_ends(e).0 as usize) != corner_bit(idx, edge_ends(e).1 as usize)
}

/// Triangle `i` of row `idx` runs over three edges that the case crosses.
pub open spec fn triangle_ok(tri: Seq<[usize; 16]>, idx: int, i: int) -> bool {
    tri[idx][3 * i] != 12 ==> {
        &&& tri[idx][3 * i] < 12 && edge_crossed_in(idx as usize, tri[idx][3 * i] as int)
        &&& tri[idx][3 * i + 1] < 12 && edge_crossed_in(idx as usize, tri[idx][3 * i + 1] as int)
        &&& tri[idx][3 * i + 2] < 12 && edge_crossed_in(idx as usize, tri[idx][3 * i + 2] as int)
    }
}

/// A triangle table and winding order that marching cubes can use: a row
/// for each of the 256 cases, each triangle (up to a `12`) over three edges
/// the surface crosses in that case, and a winding that picks among the
/// three.
pub open spec fn triangles_ok(tri: Seq<[usize; 16]>, w: [usize; 3]) -> bool {
    &&& tri.len() == 256
    &&& w[0] < 3 && w[1] < 3 && w[2] < 3
    &&& forall|idx: int, i: int| 0 <= idx < 256 && 0 <= i < 5 ==> #[trigger] triangle_ok(tri, idx, i)
}

proof fn lemma_set_bit(f: i32, e: usize, k: usize)
    by (bit_vector)
    requires
        e < 12,
        k < 12,
    ensures
        edge_bit(f | (1i32 << e), k) == (edge_bit(f, k) || k == e),
{
}

/// The edges crossed in case `idx`: bit `e` set exactly when the corners
/// of edge `e` differ.
fn edge_flags_of(idx: usize) -> (f: i32)
    ensures
        forall|e: usize| e < 12 ==> #[trigger] edge_bit(f, e) == edge_crossed_in(idx, e as int),
{
    let mut f: i32 = 0;
    let mut e: usize = 0;
    proof {
        assert forall|k: usize| k < 12 implies !#[trigger] edge_bit(f, k) by {
            lemma_zero_has_no_bits(k);
        }
    }
    while e < 12
        invariant
            e <= 12,
            forall|k: usize| k < 12 ==> #[trigger] edge_bit(f, k) == (k < e && edge_crossed_in(idx, k as int)),
        decreases 12 - e,
    {
        let (a, b) = ends(e);
        let ca = idx & (1usize << a) != 0;
        let cb = idx & (1usize << b) != 0;
        if ca != cb {
            let ghost f0 = f;
            f = f | (1i32 << e);
            assert forall|k: usize| k < 12 implies #[trigger] edge_bit(f, k) == (k < e + 1 && edge_crossed_in(idx, k as int)) by {
                lemma_set_bit(f0, e, k);
            }
        }
        e += 1;
    }
    f
}

impl CubeTables {
    /// The tables made of a triangle table and a winding order, with the
    /// edge table computed from the corners; `None` unless the triangle
    /// table is usable (`triangles_ok`).
    pub fn new(triangles: Vec<[usize; 16]>, winding: [usize; 3]) -> (r: Option<CubeTables>)
        ensures
            r is Some <==> triangles_ok(triangles@, winding),
            r matches Some(t) ==> {
                &&& t.triangles@ == triangles@
                &&& t.winding == winding
                &&& tables_wf(t)
                &&& tables_consistent(t)
            },
    {
        if triangles.len() != 256 || winding[0] >= 3 || winding[1] >= 3 || winding[2] >= 3 {
            return None;
        }
        let mut flags: Vec<i32> = Vec::new();
        let mut idx: usize = 0;
        while idx < 256
            invariant
                idx <= 256,
                triangles@.len() == 256,
                flags@.len() == idx,
                forall|j: int, e: usize| 0 <= j < idx && e < 12 ==> #[trigger] edge_bit(flags@[j], e) == edge_crossed_in(j as usize, e as int),
                forall|j: int, i: int| 0 <= j < idx && 0 <= i < 5 ==> #[trigger] triangle_ok(triangles@, j, i),
            decreases 256 - idx,
        {
            let f = edge_flags_of(idx);
            let row = triangles[idx];
            let mut i: usize = 0;
            while i < 5
                invariant
                    idx < 256,
                    i <= 5,
                    triangles@.len() == 256,
                    row == triangles@[idx as int],
                    forall|e: usize| e < 12 ==> #[trigger] edge_bit(f, e) == edge_crossed_in(idx, e as int),
                    forall|k: int| 0 <= k < i ==> #[trigger] triangle_ok(triangles@, idx as int, k),
                decreases 5 - i,
            {
                let b = 3 * i;
                if row[b] != 12 {
                    let e0 = row[b];
                    let e1 = row[b + 1];
                    let e2 = row[b + 2];
                    if e0 >= 12 || e1 >= 12 || e2 >= 12 {
                        assert(!triangle_ok(triangles@, idx as int, i as int));
                        return None;
                    }
                    if !bit(f, e0) || !bit(f, e1) || !bit(f, e2) {
                        assert(!triangle_ok(triangles@, idx as int, i as int));
                        return None;
                    }
                }
                i += 1;
            }
            let ghost fl0 = flags@;
            flags.push(f);
            assert forall|j: int, e: usize| 0 <= j < idx + 1 && e < 12 implies #[trigger] edge_bit(flags@[j], e) == edge_crossed_in(j as usize, e as int) by {
                if j < idx {
                    assert(flags@[j] == fl0[j]);
                }
            }
            idx += 1;
        }
        let t = CubeTables { edge_flags: flags, triangles, winding };
        proof {
            assert forall|j: int| 0 <= j < 3 implies #[trigger] t.winding[j] < 3 by {
                if j == 0 {} else if j == 1 {} else {}
            }
            assert forall|x: int, i: int|
                0 <= x < 256 && 0 <= i < 5 && #[trigger] t.triangles@[x][3 * i] != 12 implies {
                    &&& t.triangles@[x][3 * i] < 12
                    &&& t.triangles@[x][3 * i + 1] < 12
                    &&& t.triangles@[x][3 * i + 2] < 12
                } by {
                assert(triangle_ok(t.triangles@, x, i));
            }
            assert forall|x: usize, e: usize|
                x < 256 && e < 12 implies #[trigger] edge_bit(t.edge_flags@[x as int], e) == (corner_bit(
                    x,
                    edge_ends(e as int).0 as usize,
                ) != corner_bit(x, edge_ends(e as int).1 as usize)) by {
                assert(edge_bit(flags@[x as int], e) == edge_crossed_in((x as int) as usize, e as int));
            }
            assert forall|x: int, i: int, j: int|
                0 <= x < 256 && 0 <= i < 5 && 0 <= j < 3 && t.triangles@[x][3 * i] != 12 implies edge_bit(
                    t.edge_flags@[x],
                    #[trigger] t.triangles@[x][3 * i + j],
                ) by {
                assert(triangle_ok(t.triangles@, x, i));
                let e = t.triangles@[x][3 * i + j];
                assert(e < 12);
                assert(edge_bit(flags@[x], e) == edge_crossed_in(x as usize, e as int));
                if j == 0 {
                    assert(t.triangles@[x][3 * i + j] == t.triangles@[x][3 * i]);
                } else if j == 1 {
                } else {
                }
            }
        }
        Some(t)
    }
}

/// The case of a cube is its eight corners read as bits: bit `i` is set
/// exactly when corner `i` (at the cube's lowest corner moved by
/// `corner(i)`) is inside.
pub proof fn law_case_bits(field: Seq<bool>, s: int, p: (int, int, int), i: int)
    requires
        0 <= i < 8,
    ensures
        flag_of(field, s, p) < 256,
        corner_bit(flag_of(field, s, p), i as usize) == field[(p.0 + corner(i).0) + (p.1 + corner(i).1) * s + (p.2 + corner(i).2) * s * s],
{
    lemma_flag_bits(
        inside_at(field, s, add3(p, corner(0))),
        inside_at(field, s, add3(p, corner(1))),
        inside_at(field, s, add3(p, corner(2))),
        inside_at(field, s, add3(p, corner(3))),
        inside_at(field, s, add3(p, corner(4))),
        inside_at(field, s, add3(p, corner(5))),
        inside_at(field, s, add3(p, corner(6))),
        inside_at(field, s, add3(p, corner(7))),
    );
    if i == 0 {} else if i == 1 {} else if i == 2 {} else if i == 3 {} else if i == 4 {} else if i == 5 {} else if i == 6 {} else {}
}

} // verus!
