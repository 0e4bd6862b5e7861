//! What holds of every marching-cubes mesh.
use vstd::prelude::*;
use crate::lattice::{in_cube, sweep};
use super::cube::{EdgeVertex, cell_of, edge_key, edge_vertex, lemma_edge_vertex_distinct, lemma_one_maker_case, on_bottom, vertex_key};
use super::tables::{CubeTables, crossed, cube_edges, flag_of, law_cube_triangles_are_row, lemma_cube_edges_crossed, tables_consistent, tables_wf};
use super::builder::{cube_corners_fn, cube_span, cube_vertices_fn, indices_name, indices_own, made_upto, makes, names, names_vertex};

verus! {

/// With at most 2^16 vertices, every index of a triangle list that names
/// vertices on lattice edges is the index of a vertex.
pub proof fn law_indices_in_range(
    vs: Seq<EdgeVertex>,
    idx: Seq<u16>,
    keys: Seq<((int, int, int), (int, int, int))>,
)
    requires
        indices_name(vs, idx, keys),
        vs.len() <= 0x10000,
    ensures
        forall|m: int| 0 <= m < idx.len() ==> (#[trigger] idx[m] as int) < vs.len(),
{
    assert forall|m: int| 0 <= m < idx.len() implies (#[trigger] idx[m] as int) < vs.len() by {
        assert(names(vs, idx[m], keys[m]));
        let k = choose|k: int| 0 <= k < vs.len() && idx[m] as int == k % 0x10000 && #[trigger] vertex_key(vs[k]) == keys[m];
        assert(k % 0x10000 == k);
    }
}

/// Above the bottom plane, every lattice edge of the mesh gets its vertex
/// from one cube only: when two cubes of `[0, n)^3` both make a vertex on
/// the same lattice edge (see `makes`), they are the same cube and the same
/// edge, unless the edge lies on the bottom plane, where each cube of the
/// bottom layer makes its own.
pub proof fn law_one_vertex_per_edge(field: Seq<bool>, n: int, p: (int, int, int), e: int, q: (int, int, int), f: int)
    requires
        in_cube(n, p.0, p.1, p.2),
        in_cube(n, q.0, q.1, q.2),
        0 <= e < 12,
        0 <= f < 12,
        makes(field, n + 5, p, e),
        makes(field, n + 5, q, f),
        edge_key(p, e) == edge_key(q, f),
        !(p.1 == 0 && e < 4),
    ensures
        p == q,
        e == f,
{
    if e == 4 {
        lemma_one_maker_case(p, e, q, f);
    } else if e == 5 {
        lemma_one_maker_case(p, e, q, f);
    } else if e == 6 {
        lemma_one_maker_case(p, e, q, f);
    } else if e == 7 {
        lemma_one_maker_case(p, e, q, f);
    } else if e == 8 {
        lemma_one_maker_case(p, e, q, f);
    } else if e == 9 {
        lemma_one_maker_case(p, e, q, f);
    } else if e == 10 {
        lemma_one_maker_case(p, e, q, f);
    } else {
        lemma_one_maker_case(p, e, q, f);
    }
}

/// `v` is the vertex that the cube at `pos` makes on one of its edges `0..k`.
pub open spec fn made_by(field: Seq<bool>, s: int, pos: [i32; 3], k: int, v: EdgeVertex) -> bool {
    exists|e: int|
        0 <= e < k && makes(field, s, (pos[0] as int, pos[1] as int, pos[2] as int), e) && v == #[trigger] edge_vertex(pos, e)
}

/// The vertices a cube makes are distinct, each made on one of its edges.
proof fn lemma_made_distinct(field: Seq<bool>, s: int, pos: [i32; 3], k: nat)
    requires
        k <= 12,
    ensures
        made_upto(field, s, pos, k).no_duplicates(),
        forall|m: int| 0 <= m < made_upto(field, s, pos, k).len() ==> made_by(field, s, pos, k as int, #[trigger] made_upto(field, s, pos, k)[m]),
    decreases k,
{
    if k > 0 {
        let k1 = (k - 1) as nat;
        lemma_made_distinct(field, s, pos, k1);
        let prev = made_upto(field, s, pos, k1);
        let cur = made_upto(field, s, pos, k);
        assert forall|m: int| 0 <= m < cur.len() implies made_by(field, s, pos, k as int, #[trigger] cur[m]) by {
            if m < prev.len() {
                assert(cur[m] == prev[m]);
                assert(made_by(field, s, pos, k1 as int, prev[m]));
                let e = choose|e: int|
                    0 <= e < k1 && makes(field, s, (pos[0] as int, pos[1] as int, pos[2] as int), e) && prev[m] == #[trigger] edge_vertex(pos, e);
                assert(cur[m] == edge_vertex(pos, e));
            } else {
                assert(cur[m] == edge_vertex(pos, k1 as int));
            }
        }
        if cur.len() > prev.len() {
            let v = edge_vertex(pos, k1 as int);
            assert(cur == prev.push(v));
            assert forall|i: int, j: int| 0 <= i < cur.len() && 0 <= j < cur.len() && i != j implies cur[i] != cur[j] by {
                if i < prev.len() && j < prev.len() {
                    assert(cur[i] == prev[i] && cur[j] == prev[j]);
                } else {
                    let o = if i < prev.len() { i } else { j };
                    assert(made_by(field, s, pos, k1 as int, prev[o]));
                    let e = choose|e: int|
                        0 <= e < k1 && makes(field, s, (pos[0] as int, pos[1] as int, pos[2] as int), e) && prev[o] == #[trigger] edge_vertex(pos, e);
                    lemma_edge_vertex_distinct(pos, e, k1 as int);
                    assert(cur[o] == prev[o]);
                }
            }
        }
    }
}

/// `v` is made by a cube of `[0, n)^3` on one of its edges.
pub open spec fn made_somewhere(field: Seq<bool>, n: int, v: EdgeVertex) -> bool {
    exists|e: int|
        in_cube(n, v.pos[0] as int, v.pos[1] as int, v.pos[2] as int) && 0 <= e < 12 && makes(field, n + 5, cell_of(v), e)
            && v == #[trigger] edge_vertex(v.pos, e)
}

proof fn lemma_vertices_distinct(field: Seq<bool>, n: int)
    requires
        n < 0x8000_0000,
    ensures
        sweep(cube_vertices_fn(field, n + 5), cube_span(n)).no_duplicates(),
{
    let sf = n + 5;
    let f = cube_vertices_fn(field, sf);
    let c = cube_span(n);
    let tag = |v: EdgeVertex| (v.pos[1] as int, v.pos[2] as int, v.pos[0] as int);
    assert forall|y: int, z: int, x: int, j: int| in_cube(c as int, y, z, x) && 0 <= j < f(y, z, x).len() implies tag(
        #[trigger] f(y, z, x)[j],
    ) == (y, z, x) by {
        let pos = [x as i32, y as i32, z as i32];
        lemma_made_distinct(field, sf, pos, 12);
        assert(made_by(field, sf, pos, 12, f(y, z, x)[j]));
    }
    assert forall|y: int, z: int, x: int| in_cube(c as int, y, z, x) implies (#[trigger] f(y, z, x)).no_duplicates() by {
        lemma_made_distinct(field, sf, [x as i32, y as i32, z as i32], 12);
    }
    crate::lattice::lemma_sweep_distinct(f, c, tag);
}

proof fn lemma_vertices_made(field: Seq<bool>, n: int)
    requires
        n < 0x8000_0000,
    ensures
        forall|k: int|
            0 <= k < sweep(cube_vertices_fn(field, n + 5), cube_span(n)).len() ==> made_somewhere(
                field,
                n,
                #[trigger] sweep(cube_vertices_fn(field, n + 5), cube_span(n))[k],
            ),
{
    let sf = n + 5;
    let f = cube_vertices_fn(field, sf);
    let c = cube_span(n);
    let pred = |v: EdgeVertex| made_somewhere(field, n, v);
    assert forall|y: int, z: int, x: int, j: int| in_cube(c as int, y, z, x) && 0 <= j < f(y, z, x).len() implies pred(
        #[trigger] f(y, z, x)[j],
    ) by {
        let pos = [x as i32, y as i32, z as i32];
        lemma_made_distinct(field, sf, pos, 12);
        let v = f(y, z, x)[j];
        assert(made_by(field, sf, pos, 12, v));
        let e = choose|e: int| 0 <= e < 12 && makes(field, sf, (pos[0] as int, pos[1] as int, pos[2] as int), e) && v == #[trigger] edge_vertex(pos, e);
        assert(v.pos == pos);
        assert(edge_vertex(v.pos, e) == v);
    }
    crate::lattice::lemma_sweep_all(f, c, pred);
    assert forall|k: int| 0 <= k < sweep(f, c).len() implies made_somewhere(field, n, #[trigger] sweep(f, c)[k]) by {
        assert(pred(sweep(f, c)[k]));
    }
}

/// Two vertices made on the same lattice edge above the bottom plane are
/// the same vertex.
proof fn lemma_same_edge_same_vertex(field: Seq<bool>, n: int, v1: EdgeVertex, v2: EdgeVertex)
    requires
        made_somewhere(field, n, v1),
        made_somewhere(field, n, v2),
        vertex_key(v1) == vertex_key(v2),
        !on_bottom(vertex_key(v1)),
    ensures
        v1 == v2,
{
    let sf = n + 5;
    let e1 = choose|e: int|
        in_cube(n, v1.pos[0] as int, v1.pos[1] as int, v1.pos[2] as int) && 0 <= e < 12 && makes(field, sf, cell_of(v1), e)
            && v1 == #[trigger] edge_vertex(v1.pos, e);
    let e2 = choose|e: int|
        in_cube(n, v2.pos[0] as int, v2.pos[1] as int, v2.pos[2] as int) && 0 <= e < 12 && makes(field, sf, cell_of(v2), e)
            && v2 == #[trigger] edge_vertex(v2.pos, e);
    assert(vertex_key(v1) == edge_key(cell_of(v1), e1));
    assert(vertex_key(v2) == edge_key(cell_of(v2), e2));
    assert(!(cell_of(v1).1 == 0 && e1 < 4));
    law_one_vertex_per_edge(field, n, cell_of(v1), e1, cell_of(v2), e2);
    assert(v1.pos =~= v2.pos);
}

/// No vertex of a marching-cubes mesh comes twice, and above the bottom
/// plane no two of them lie on the same lattice edge: the neighbouring cubes
/// share the vertices of their shared edges (see `Builder::mesh`).
pub proof fn law_one_vertex_per_lattice_edge(field: Seq<bool>, n: int)
    requires
        n < 0x8000_0000,
    ensures
        sweep(cube_vertices_fn(field, n + 5), cube_span(n)).no_duplicates(),
        forall|k1: int, k2: int|
            0 <= k1 < sweep(cube_vertices_fn(field, n + 5), cube_span(n)).len()
                && 0 <= k2 < sweep(cube_vertices_fn(field, n + 5), cube_span(n)).len() && k1 != k2
                && vertex_key(#[trigger] sweep(cube_vertices_fn(field, n + 5), cube_span(n))[k1])
                == vertex_key(#[trigger] sweep(cube_vertices_fn(field, n + 5), cube_span(n))[k2]) ==> on_bottom(
                vertex_key(sweep(cube_vertices_fn(field, n + 5), cube_span(n))[k1]),
            ),
{
    let vs = sweep(cube_vertices_fn(field, n + 5), cube_span(n));
    lemma_vertices_distinct(field, n);
    lemma_vertices_made(field, n);
    assert forall|k1: int, k2: int|
        0 <= k1 < vs.len() && 0 <= k2 < vs.len() && k1 != k2 && vertex_key(#[trigger] vs[k1]) == vertex_key(#[trigger] vs[k2])
            implies on_bottom(vertex_key(vs[k1])) by {
        if !on_bottom(vertex_key(vs[k1])) {
            lemma_same_edge_same_vertex(field, n, vs[k1], vs[k2]);
        }
    }
}

/// The triangle list leaves no choice: an index is the index (modulo
/// 2^16) of the one vertex of the mesh on its lattice edge; on the bottom
/// plane, where neighbouring cubes each make their own vertex on a shared
/// edge, of the vertex that its own cube made.
pub proof fn law_indices_determined(
    field: Seq<bool>,
    n: int,
    idx: Seq<u16>,
    keys: Seq<((int, int, int), (int, int, int))>,
    owns: Seq<EdgeVertex>,
    m: int,
    k: int,
)
    requires
        n < 0x8000_0000,
        indices_name(sweep(cube_vertices_fn(field, n + 5), cube_span(n)), idx, keys),
        indices_own(sweep(cube_vertices_fn(field, n + 5), cube_span(n)), idx, keys, owns),
        0 <= m < idx.len(),
        0 <= k < sweep(cube_vertices_fn(field, n + 5), cube_span(n)).len(),
        on_bottom(keys[m]) ==> sweep(cube_vertices_fn(field, n + 5), cube_span(n))[k] == owns[m],
        !on_bottom(keys[m]) ==> vertex_key(sweep(cube_vertices_fn(field, n + 5), cube_span(n))[k]) == keys[m],
    ensures
        idx[m] as int == k % 0x10000,
{
    let vs = sweep(cube_vertices_fn(field, n + 5), cube_span(n));
    law_one_vertex_per_lattice_edge(field, n);
    if on_bottom(keys[m]) {
        assert(names_vertex(vs, idx[m], owns[m]));
        let k2 = choose|k2: int| 0 <= k2 < vs.len() && idx[m] as int == k2 % 0x10000 && #[trigger] vs[k2] == owns[m];
        if k2 != k {
            assert(vs[k] == vs[k2]);
        }
    } else {
        assert(names(vs, idx[m], keys[m]));
        let k2 = choose|k2: int| 0 <= k2 < vs.len() && idx[m] as int == k2 % 0x10000 && #[trigger] vertex_key(vs[k2]) == keys[m];
        if k2 != k {
            assert(vertex_key(vs[k]) == vertex_key(vs[k2]));
        }
    }
}

/// The lattice segment `key` is an edge, of a cube of `[0, n)^3`, that the
/// surface crosses.
pub open spec fn on_crossed_edge(field: Seq<bool>, n: int, key: ((int, int, int), (int, int, int))) -> bool {
    exists|x: int, y: int, z: int, e: int|
        in_cube(n, x, y, z) && 0 <= e < 12 && crossed(field, n + 5, (x, y, z), e) && key == #[trigger] edge_key((x, y, z), e)
}

/// Every corner of every triangle that marching cubes makes lies on a
/// lattice edge, of a cube of the mesh, that the surface crosses: the
/// triangle list names, index by index, these edges (see `Builder::mesh`).
pub proof fn law_triangles_on_surface(t: CubeTables, field: Seq<bool>, n: int)
    requires
        tables_wf(t),
        tables_consistent(t),
    ensures
        forall|k: int|
            0 <= k < sweep(cube_corners_fn(t, field, n + 5), cube_span(n)).len() ==> on_crossed_edge(
                field,
                n,
                #[trigger] sweep(cube_corners_fn(t, field, n + 5), cube_span(n))[k],
            ),
{
    let f = cube_corners_fn(t, field, n + 5);
    let c = cube_span(n);
    let pred = |key: ((int, int, int), (int, int, int))| on_crossed_edge(field, n, key);
    assert forall|a: int, b: int, cc: int, j: int|
        in_cube(c as int, a, b, cc) && 0 <= j < f(a, b, cc).len() implies pred(#[trigger] f(a, b, cc)[j]) by {
        let p = (cc, a, b);
        lemma_cube_edges_crossed(t, field, n + 5, p);
        let ce = cube_edges(t, field, n + 5, p);
        assert(f(a, b, cc) == ce.map_values(|e: usize| edge_key(p, e as int)));
        let e = ce[j] as int;
        assert(0 <= e < 12 && crossed(field, n + 5, p, e));
        assert(f(a, b, cc)[j] == edge_key(p, e));
        assert(in_cube(n, cc, a, b));
    }
    crate::lattice::lemma_sweep_all(f, c, pred);
    assert forall|k: int| 0 <= k < sweep(f, c).len() implies on_crossed_edge(field, n, #[trigger] sweep(f, c)[k]) by {
        assert(pred(sweep(f, c)[k]));
    }
}

/// What each cube adds to the triangle list of a marching-cubes mesh (the
/// mesh's triangle list names, in order, the lattice edges that
/// `cube_corners_fn` gives cube by cube): for each triangle of the cube's
/// table row before the first `12`, the lattice edges of its three edges in
/// winding order, so three entries per triangle.
pub proof fn law_cube_adds_its_row(t: CubeTables, field: Seq<bool>, s: int, x: int, y: int, z: int, k: int)
    requires
        tables_wf(t),
        tables_consistent(t),
        0 <= k <= 5,
        forall|a: int| 0 <= a < k ==> #[trigger] t.triangles@[flag_of(field, s, (x, y, z)) as int][3 * a] != 12,
        k < 5 ==> t.triangles@[flag_of(field, s, (x, y, z)) as int][3 * k] == 12,
    ensures
        cube_corners_fn(t, field, s)(y, z, x).len() == 3 * k,
        forall|a: int, j: int|
            0 <= a < k && 0 <= j < 3 ==> #[trigger] cube_corners_fn(t, field, s)(y, z, x)[3 * a + j] == edge_key(
                (x, y, z),
                t.triangles@[flag_of(field, s, (x, y, z)) as int][3 * a + t.winding[j]] as int,
            ),
{
    law_cube_triangles_are_row(t, field, s, (x, y, z), k);
    let ce = cube_edges(t, field, s, (x, y, z));
    assert(cube_corners_fn(t, field, s)(y, z, x) == ce.map_values(|e: usize| edge_key((x, y, z), e as int)));
    assert forall|a: int, j: int| 0 <= a < k && 0 <= j < 3 implies #[trigger] cube_corners_fn(t, field, s)(y, z, x)[3 * a + j]
        == edge_key((x, y, z), t.triangles@[flag_of(field, s, (x, y, z)) as int][3 * a + t.winding[j]] as int) by {
        assert(ce[3 * a + j] == t.triangles@[flag_of(field, s, (x, y, z)) as int][3 * a + t.winding[j]]);
    }
}

} // verus!
