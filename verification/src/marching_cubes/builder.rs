//! Building the mesh: the cubes are visited in layers of `y`, rows of `z`
//! and steps of `x`; each crossed lattice edge gets one vertex, shared with
//! the cubes visited later through the vertex caches of the current row and
//! layer (the bottom layer makes its own bottom vertices).
use vstd::prelude::*;
use crate::lattice::{lemma_prefix_end, lemma_prefix_plane_end, lemma_prefix_row_end, lemma_prefix_start, lemma_prefix_step, prefix, sweep};
use super::cube::{EdgeVertex, add3, cell_of, corner, edge_ends, edge_key, edge_vertex, lemma_bottom_edge, on_bottom, vertex_key};
use super::tables::{CubeTables, bit, crossed, cube_edges, edge_bit, flag_of, inside_at, lemma_cube_edges_crossed, lemma_flag_of, lemma_row_edges_end, lemma_zero_has_no_bits, row_edges, tables_consistent, tables_wf};

verus! {

/// The lattice edges of the triangle corners of the cube visited at
/// `(y, z, x)`: layers of `y`, rows of `z`, then `x`.
pub open spec fn cube_corners_fn(t: CubeTables, field: Seq<bool>, s: int) -> spec_fn(int, int, int) -> Seq<
    ((int, int, int), (int, int, int)),
> {
    |y: int, z: int, x: int| cube_edges(t, field, s, (x, y, z)).map_values(|e: usize| edge_key((x, y, z), e as int))
}

/// Index `v` names a vertex on lattice segment `key` (indices are 16 bits
/// wide and wrap).
pub open spec fn names(vs: Seq<EdgeVertex>, v: u16, key: ((int, int, int), (int, int, int))) -> bool {
    exists|k: int| 0 <= k < vs.len() && v as int == k % 0x10000 && #[trigger] vertex_key(vs[k]) == key
}

/// Whether the cube at `p` makes a vertex on its edge `e` rather than
/// taking it from a cache: the edge crosses the surface and no cube visited
/// earlier shares it. On the bottom layer every cube makes its own bottom
/// vertices.
pub open spec fn makes(field: Seq<bool>, s: int, p: (int, int, int), e: int) -> bool {
    &&& crossed(field, s, p, e)
    &&& if e < 4 {
        p.1 == 0
    } else if e == 4 || e == 9 {
        p.2 == 0
    } else if e == 7 || e == 11 {
        p.0 == 0
    } else if e == 8 {
        p.2 == 0 && p.0 == 0
    } else {
        true
    }
}

/// The vertices that the cube at `pos` makes on its edges `0..k`, in order.
pub open spec fn made_upto(field: Seq<bool>, s: int, pos: [i32; 3], k: nat) -> Seq<EdgeVertex>
    decreases k,
{
    if k == 0 {
        Seq::empty()
    } else {
        let prev = made_upto(field, s, pos, (k - 1) as nat);
        if makes(field, s, (pos[0] as int, pos[1] as int, pos[2] as int), k - 1) {
            prev.push(edge_vertex(pos, k - 1))
        } else {
            prev
        }
    }
}

/// The vertices made by the cube visited at `(y, z, x)`: layers of `y`,
/// rows of `z`, then `x`.
pub open spec fn cube_vertices_fn(field: Seq<bool>, s: int) -> spec_fn(int, int, int) -> Seq<EdgeVertex> {
    |y: int, z: int, x: int| made_upto(field, s, [x as i32, y as i32, z as i32], 12)
}

proof fn lemma_made_step(v0: Seq<EdgeVertex>, field: Seq<bool>, s: int, pos: [i32; 3], k: nat)
    ensures
        v0 + made_upto(field, s, pos, k + 1) == (if makes(field, s, (pos[0] as int, pos[1] as int, pos[2] as int), k as int) {
            (v0 + made_upto(field, s, pos, k)).push(edge_vertex(pos, k as int))
        } else {
            v0 + made_upto(field, s, pos, k)
        }),
{
    let m = made_upto(field, s, pos, k);
    assert(((k + 1) as nat) - 1 == k);
    if makes(field, s, (pos[0] as int, pos[1] as int, pos[2] as int), k as int) {
        assert(v0 + m.push(edge_vertex(pos, k as int)) =~= (v0 + m).push(edge_vertex(pos, k as int)));
    }
}

/// A cube through which the surface does not pass makes no vertex.
proof fn lemma_made_none(field: Seq<bool>, s: int, pos: [i32; 3], k: nat)
    requires
        k <= 12,
        forall|e: int| 0 <= e < 12 ==> !#[trigger] crossed(field, s, (pos[0] as int, pos[1] as int, pos[2] as int), e),
    ensures
        made_upto(field, s, pos, k) == Seq::<EdgeVertex>::empty(),
    decreases k,
{
    if k > 0 {
        lemma_made_none(field, s, pos, (k - 1) as nat);
        assert(!crossed(field, s, (pos[0] as int, pos[1] as int, pos[2] as int), k - 1));
    }
}

/// Cube `(i, k)` of the current layer was visited before cube `(x, z)`.
pub open spec fn visited(i: int, k: int, x: int, z: int) -> bool {
    k < z || (k == z && i < x)
}

/// Every vertex lies on a lattice edge of its cube that crosses the surface.
#[verifier::opaque]
pub open spec fn vertices_on_crossings(vs: Seq<EdgeVertex>, field: Seq<bool>, s: int) -> bool {
    forall|k: int|
        #![trigger vs[k]]
        0 <= k < vs.len() ==> exists|e: int|
            0 <= e < 12 && edge_ends(e) == (vs[k].a as int, vs[k].b as int) && crossed(field, s, cell_of(vs[k]), e)
}

/// What the vertex caches hold before the cube at `(x, y, z)` is visited:
/// `xb`/`zb` the x and z edges of height `y`, `xt`/`zt` those of height
/// `y + 1` made so far in this layer, `yb` the vertical edges of row `z` and
/// `yn` those of row `z + 1` made so far; each slot that should hold the
/// vertex of a crossed edge names it.
#[verifier::opaque]
pub open spec fn caches_ok(
    vs: Seq<EdgeVertex>,
    field: Seq<bool>,
    s: int,
    n: int,
    xb: Seq<u16>,
    zb: Seq<u16>,
    xt: Seq<u16>,
    zt: Seq<u16>,
    yb: Seq<u16>,
    yn: Seq<u16>,
    y: int,
    x: int,
    z: int,
) -> bool {
    let l = n + 1;
    &&& xb.len() == l * l && zb.len() == l * l && xt.len() == l * l && zt.len() == l * l
    &&& yb.len() == l && yn.len() == l
    &&& y > 0 ==> forall|i: int, k: int|
        #![trigger xb[i + k * l]]
        0 <= i < n && 0 <= k <= n && crossed(field, s, (i, y, k), 0) ==> names(vs, xb[i + k * l], edge_key((i, y, k), 0))
    &&& y > 0 ==> forall|i: int, k: int|
        #![trigger zb[i + k * l]]
        0 <= i <= n && 0 <= k < n && crossed(field, s, (i, y, k), 3) ==> names(vs, zb[i + k * l], edge_key((i, y, k), 3))
    &&& forall|i: int, k: int|
        #![trigger xt[i + k * l]]
        0 <= i < n && 0 <= k <= n && (if k > 0 { visited(i, k - 1, x, z) } else { visited(i, 0, x, z) })
            && crossed(field, s, (i, y + 1, k), 0) ==> names(vs, xt[i + k * l], edge_key((i, y + 1, k), 0))
    &&& forall|i: int, k: int|
        #![trigger zt[i + k * l]]
        0 <= i <= n && 0 <= k < n && (if i > 0 { visited(i - 1, k, x, z) } else { visited(0, k, x, z) })
            && crossed(field, s, (i, y + 1, k), 3) ==> names(vs, zt[i + k * l], edge_key((i, y + 1, k), 3))
    &&& forall|i: int|
        #![trigger yb[i]]
        0 <= i <= n && (z > 0 || (i > 0 && i - 1 < x)) && crossed(field, s, (i, y, z), 8) ==> names(
            vs,
            yb[i],
            edge_key((i, y, z), 8),
        )
    &&& forall|i: int|
        #![trigger yn[i]]
        0 <= i <= n && (if i > 0 { i - 1 < x } else { 0 < x }) && crossed(field, s, (i, y, z + 1), 8) ==> names(
            vs,
            yn[i],
            edge_key((i, y, z + 1), 8),
        )
}

/// Index `v` is the index (modulo 2^16) of the vertex `w` in `vs`.
pub open spec fn names_vertex(vs: Seq<EdgeVertex>, v: u16, w: EdgeVertex) -> bool {
    exists|k: int| 0 <= k < vs.len() && v as int == k % 0x10000 && #[trigger] vs[k] == w
}

/// On the bottom layer, the vertex indices found so far for the bottom
/// edges `0..upto` of the cube at `pos` are those of the vertices it made
/// itself.
pub open spec fn own_ok(vs: Seq<EdgeVertex>, evi: [u16; 12], field: Seq<bool>, s: int, pos: [i32; 3], upto: int) -> bool {
    forall|e: int|
        0 <= e < upto && e < 4 && pos[1] == 0 && crossed(field, s, (pos[0] as int, pos[1] as int, pos[2] as int), e) ==> names_vertex(
            vs,
            #[trigger] evi[e],
            edge_vertex(pos, e),
        )
}

proof fn lemma_names_vertex_grow(vs: Seq<EdgeVertex>, ws: Seq<EdgeVertex>, v: u16, w: EdgeVertex)
    requires
        names_vertex(vs, v, w),
        vs.len() <= ws.len(),
        ws.subrange(0, vs.len() as int) == vs,
    ensures
        names_vertex(ws, v, w),
{
    let k = choose|k: int| 0 <= k < vs.len() && v as int == k % 0x10000 && #[trigger] vs[k] == w;
    assert(ws[k] == ws.subrange(0, vs.len() as int)[k]);
}

proof fn lemma_own_grow(
    vs: Seq<EdgeVertex>,
    ws: Seq<EdgeVertex>,
    evi: [u16; 12],
    evi2: [u16; 12],
    field: Seq<bool>,
    s: int,
    pos: [i32; 3],
)
    requires
        own_ok(vs, evi, field, s, pos, 4),
        vs.len() <= ws.len(),
        ws.subrange(0, vs.len() as int) == vs,
        forall|e: int| 0 <= e < 4 ==> #[trigger] evi2[e] == evi[e],
    ensures
        own_ok(ws, evi2, field, s, pos, 4),
{
    assert forall|e: int|
        0 <= e < 4 && e < 4 && pos[1] == 0 && crossed(field, s, (pos[0] as int, pos[1] as int, pos[2] as int), e) implies names_vertex(
            ws,
            #[trigger] evi2[e],
            edge_vertex(pos, e),
        ) by {
        assert(evi2[e] == evi[e]);
        lemma_names_vertex_grow(vs, ws, evi[e], edge_vertex(pos, e));
    }
}

proof fn lemma_own_step(
    vb: Seq<EdgeVertex>,
    va: Seq<EdgeVertex>,
    eb: [u16; 12],
    ea: [u16; 12],
    field: Seq<bool>,
    s: int,
    pos: [i32; 3],
    k: int,
)
    requires
        own_ok(vb, eb, field, s, pos, k),
        0 <= k < 4,
        vb.len() <= va.len(),
        va.subrange(0, vb.len() as int) == vb,
        forall|e: int| 0 <= e < 12 && e != k ==> #[trigger] ea[e] == eb[e],
        pos[1] == 0 && crossed(field, s, (pos[0] as int, pos[1] as int, pos[2] as int), k) ==> names_vertex(
            va,
            ea[k],
            edge_vertex(pos, k),
        ),
    ensures
        own_ok(va, ea, field, s, pos, k + 1),
{
    assert forall|e: int|
        0 <= e < k + 1 && e < 4 && pos[1] == 0 && crossed(field, s, (pos[0] as int, pos[1] as int, pos[2] as int), e) implies names_vertex(
            va,
            #[trigger] ea[e],
            edge_vertex(pos, e),
        ) by {
        if e < k {
            assert(ea[e] == eb[e]);
            lemma_names_vertex_grow(vb, va, eb[e], edge_vertex(pos, e));
        }
    }
}

/// A vertex cache entry stays good as vertices are added.
proof fn lemma_names_grow(vs: Seq<EdgeVertex>, ws: Seq<EdgeVertex>, v: u16, key: ((int, int, int), (int, int, int)))
    requires
        names(vs, v, key),
        vs.len() <= ws.len(),
        ws.subrange(0, vs.len() as int) == vs,
    ensures
        names(ws, v, key),
{
    let k = choose|k: int| 0 <= k < vs.len() && v as int == k % 0x10000 && #[trigger] vertex_key(vs[k]) == key;
    assert(ws[k] == ws.subrange(0, vs.len() as int)[k]);
}

/// The caches stay good as vertices are added.
proof fn lemma_caches_grow(
    vs: Seq<EdgeVertex>,
    ws: Seq<EdgeVertex>,
    field: Seq<bool>,
    s: int,
    n: int,
    xb: Seq<u16>,
    zb: Seq<u16>,
    xt: Seq<u16>,
    zt: Seq<u16>,
    yb: Seq<u16>,
    yn: Seq<u16>,
    y: int,
    x: int,
    z: int,
)
    requires
        caches_ok(vs, field, s, n, xb, zb, xt, zt, yb, yn, y, x, z),
        vs.len() <= ws.len(),
        ws.subrange(0, vs.len() as int) == vs,
    ensures
        caches_ok(ws, field, s, n, xb, zb, xt, zt, yb, yn, y, x, z),
{
    reveal(caches_ok);
    let l = n + 1;
    assert forall|i: int, k: int|
        #![trigger xb[i + k * l]]
        y > 0 && 0 <= i < n && 0 <= k <= n && crossed(field, s, (i, y, k), 0) implies names(ws, xb[i + k * l], edge_key((i, y, k), 0)) by {
        lemma_names_grow(vs, ws, xb[i + k * l], edge_key((i, y, k), 0));
    }
    assert forall|i: int, k: int|
        #![trigger zb[i + k * l]]
        y > 0 && 0 <= i <= n && 0 <= k < n && crossed(field, s, (i, y, k), 3) implies names(ws, zb[i + k * l], edge_key((i, y, k), 3)) by {
        lemma_names_grow(vs, ws, zb[i + k * l], edge_key((i, y, k), 3));
    }
    assert forall|i: int, k: int|
        #![trigger xt[i + k * l]]
        0 <= i < n && 0 <= k <= n && (if k > 0 { visited(i, k - 1, x, z) } else { visited(i, 0, x, z) })
            && crossed(field, s, (i, y + 1, k), 0) implies names(ws, xt[i + k * l], edge_key((i, y + 1, k), 0)) by {
        lemma_names_grow(vs, ws, xt[i + k * l], edge_key((i, y + 1, k), 0));
    }
    assert forall|i: int, k: int|
        #![trigger zt[i + k * l]]
        0 <= i <= n && 0 <= k < n && (if i > 0 { visited(i - 1, k, x, z) } else { visited(0, k, x, z) })
            && crossed(field, s, (i, y + 1, k), 3) implies names(ws, zt[i + k * l], edge_key((i, y + 1, k), 3)) by {
        lemma_names_grow(vs, ws, zt[i + k * l], edge_key((i, y + 1, k), 3));
    }
    assert forall|i: int|
        #![trigger yb[i]]
        0 <= i <= n && (z > 0 || (i > 0 && i - 1 < x)) && crossed(field, s, (i, y, z), 8) implies names(ws, yb[i], edge_key((i, y, z), 8)) by {
        lemma_names_grow(vs, ws, yb[i], edge_key((i, y, z), 8));
    }
    assert forall|i: int|
        #![trigger yn[i]]
        0 <= i <= n && (if i > 0 { i - 1 < x } else { 0 < x }) && crossed(field, s, (i, y, z + 1), 8) implies names(ws, yn[i], edge_key((i, y, z + 1), 8)) by {
        lemma_names_grow(vs, ws, yn[i], edge_key((i, y, z + 1), 8));
    }
}

/// What the caches give the cube at `(x, y, z)`.
proof fn lemma_cache_facts(
    vs: Seq<EdgeVertex>,
    field: Seq<bool>,
    s: int,
    n: int,
    xb: Seq<u16>,
    zb: Seq<u16>,
    xt: Seq<u16>,
    zt: Seq<u16>,
    yb: Seq<u16>,
    yn: Seq<u16>,
    y: int,
    x: int,
    z: int,
)
    requires
        caches_ok(vs, field, s, n, xb, zb, xt, zt, yb, yn, y, x, z),
        0 <= x < n,
        0 <= z < n,
    ensures
        y > 0 && crossed(field, s, (x, y, z), 0) ==> names(vs, xb[x + z * (n + 1)], edge_key((x, y, z), 0)),
        y > 0 && crossed(field, s, (x + 1, y, z), 3) ==> names(vs, zb[(x + 1) + z * (n + 1)], edge_key((x + 1, y, z), 3)),
        y > 0 && crossed(field, s, (x, y, z + 1), 0) ==> names(vs, xb[x + (z + 1) * (n + 1)], edge_key((x, y, z + 1), 0)),
        y > 0 && crossed(field, s, (x, y, z), 3) ==> names(vs, zb[x + z * (n + 1)], edge_key((x, y, z), 3)),
        z > 0 && crossed(field, s, (x, y + 1, z), 0) ==> names(vs, xt[x + z * (n + 1)], edge_key((x, y + 1, z), 0)),
        x > 0 && crossed(field, s, (x, y + 1, z), 3) ==> names(vs, zt[x + z * (n + 1)], edge_key((x, y + 1, z), 3)),
        (z > 0 || x > 0) && crossed(field, s, (x, y, z), 8) ==> names(vs, yb[x], edge_key((x, y, z), 8)),
        z > 0 && crossed(field, s, (x + 1, y, z), 8) ==> names(vs, yb[x + 1], edge_key((x + 1, y, z), 8)),
        x > 0 && crossed(field, s, (x, y, z + 1), 8) ==> names(vs, yn[x], edge_key((x, y, z + 1), 8)),
        xb.len() == (n + 1) * (n + 1) && zb.len() == (n + 1) * (n + 1),
        xt.len() == (n + 1) * (n + 1) && zt.len() == (n + 1) * (n + 1),
        yb.len() == n + 1 && yn.len() == n + 1,
{
    reveal(caches_ok);
    let l = n + 1;
    assert(xb[x + z * l] == xb[x + z * l]);
    assert(zb[(x + 1) + z * l] == zb[(x + 1) + z * l]);
    assert(xb[x + (z + 1) * l] == xb[x + (z + 1) * l]);
    assert(zb[x + z * l] == zb[x + z * l]);
    assert(xt[x + z * l] == xt[x + z * l]);
    assert(zt[x + z * l] == zt[x + z * l]);
    if z > 0 {
        assert(visited(x, z - 1, x, z));
    }
    if x > 0 {
        assert(visited(x - 1, z, x, z));
    }
}

/// Ending a row: swapping the vertical caches gives the caches of the next row.
proof fn lemma_row_end(
    vs: Seq<EdgeVertex>,
    field: Seq<bool>,
    s: int,
    n: int,
    xb: Seq<u16>,
    zb: Seq<u16>,
    xt: Seq<u16>,
    zt: Seq<u16>,
    yb: Seq<u16>,
    yn: Seq<u16>,
    y: int,
    z: int,
)
    requires
        n > 0,
        caches_ok(vs, field, s, n, xb, zb, xt, zt, yb, yn, y, n, z),
    ensures
        caches_ok(vs, field, s, n, xb, zb, xt, zt, yn, yb, y, 0, z + 1),
{
    reveal(caches_ok);
    let l = n + 1;
    assert forall|i: int, k: int|
        #![trigger xt[i + k * l]]
        0 <= i < n && 0 <= k <= n && (if k > 0 { visited(i, k - 1, 0, z + 1) } else { visited(i, 0, 0, z + 1) })
            && crossed(field, s, (i, y + 1, k), 0) implies names(vs, xt[i + k * l], edge_key((i, y + 1, k), 0)) by {
        assert(if k > 0 { visited(i, k - 1, n, z) } else { visited(i, 0, n, z) });
    }
    assert forall|i: int, k: int|
        #![trigger zt[i + k * l]]
        0 <= i <= n && 0 <= k < n && (if i > 0 { visited(i - 1, k, 0, z + 1) } else { visited(0, k, 0, z + 1) })
            && crossed(field, s, (i, y + 1, k), 3) implies names(vs, zt[i + k * l], edge_key((i, y + 1, k), 3)) by {
        assert(if i > 0 { visited(i - 1, k, n, z) } else { visited(0, k, n, z) });
    }
    assert forall|i: int|
        #![trigger yn[i]]
        0 <= i <= n && (z + 1 > 0 || (i > 0 && i - 1 < 0)) && crossed(field, s, (i, y, z + 1), 8) implies names(vs, yn[i], edge_key((i, y, z + 1), 8)) by {
        assert(if i > 0 { i - 1 < n } else { 0 < n });
    }
}

/// Ending a layer: swapping the horizontal caches gives the caches of the
/// next layer.
proof fn lemma_layer_end(
    vs: Seq<EdgeVertex>,
    field: Seq<bool>,
    s: int,
    n: int,
    xb: Seq<u16>,
    zb: Seq<u16>,
    xt: Seq<u16>,
    zt: Seq<u16>,
    yb: Seq<u16>,
    yn: Seq<u16>,
    y: int,
)
    requires
        n > 0,
        caches_ok(vs, field, s, n, xb, zb, xt, zt, yb, yn, y, 0, n),
    ensures
        caches_ok(vs, field, s, n, xt, zt, xb, zb, yb, yn, y + 1, 0, 0),
{
    reveal(caches_ok);
    let l = n + 1;
    assert forall|i: int, k: int|
        #![trigger xt[i + k * l]]
        0 <= i < n && 0 <= k <= n && crossed(field, s, (i, y + 1, k), 0) implies names(vs, xt[i + k * l], edge_key((i, y + 1, k), 0)) by {
        assert(if k > 0 { visited(i, k - 1, 0, n) } else { visited(i, 0, 0, n) });
    }
    assert forall|i: int, k: int|
        #![trigger zt[i + k * l]]
        0 <= i <= n && 0 <= k < n && crossed(field, s, (i, y + 1, k), 3) implies names(vs, zt[i + k * l], edge_key((i, y + 1, k), 3)) by {
        assert(if i > 0 { visited(i - 1, k, 0, n) } else { visited(0, k, 0, n) });
    }
}

/// The vertex indices found so far for the first `upto` edges of the cube
/// at `p` name vertices on those edges, where the edges cross.
pub open spec fn evi_ok(
    vs: Seq<EdgeVertex>,
    evi: [u16; 12],
    field: Seq<bool>,
    s: int,
    p: (int, int, int),
    upto: int,
) -> bool {
    forall|e: int| 0 <= e < upto && crossed(field, s, p, e) ==> names(vs, #[trigger] evi[e], edge_key(p, e))
}

proof fn lemma_evi_grow(
    vs: Seq<EdgeVertex>,
    ws: Seq<EdgeVertex>,
    evi: [u16; 12],
    field: Seq<bool>,
    s: int,
    p: (int, int, int),
    upto: int,
)
    requires
        evi_ok(vs, evi, field, s, p, upto),
        vs.len() <= ws.len(),
        ws.subrange(0, vs.len() as int) == vs,
    ensures
        evi_ok(ws, evi, field, s, p, upto),
{
    assert forall|e: int| 0 <= e < upto && crossed(field, s, p, e) implies names(ws, #[trigger] evi[e], edge_key(p, e)) by {
        lemma_names_grow(vs, ws, evi[e], edge_key(p, e));
    }
}

/// Two slots `i + k * l` of a square cache with rows of length `l` are the
/// same exactly when their coordinates are.
proof fn lemma_slot2(l: int, i: int, k: int, a: int, b: int)
    requires
        0 <= i < l,
        0 <= a < l,
        0 <= k,
        0 <= b,
    ensures
        (i + k * l == a + b * l) <==> (i == a && k == b),
{
    if i + k * l == a + b * l {
        assert(i + k * l == k * l + i);
        assert(a + b * l == b * l + a);
        vstd::arithmetic::div_mod::lemma_fundamental_div_mod_converse(i + k * l, l, k, i);
        vstd::arithmetic::div_mod::lemma_fundamental_div_mod_converse(a + b * l, l, b, a);
    }
}

/// The lattice edges of a cube as seen from the cubes that share them.
proof fn lemma_edge_aliases(field: Seq<bool>, s: int, x: int, y: int, z: int)
    ensures
        edge_key((x, y, z), 1) == edge_key((x + 1, y, z), 3) && crossed(field, s, (x, y, z), 1) == crossed(field, s, (x + 1, y, z), 3),
        edge_key((x, y, z), 2) == edge_key((x, y, z + 1), 0) && crossed(field, s, (x, y, z), 2) == crossed(field, s, (x, y, z + 1), 0),
        edge_key((x, y, z), 4) == edge_key((x, y + 1, z), 0) && crossed(field, s, (x, y, z), 4) == crossed(field, s, (x, y + 1, z), 0),
        edge_key((x, y, z), 5) == edge_key((x + 1, y + 1, z), 3) && crossed(field, s, (x, y, z), 5) == crossed(field, s, (x + 1, y + 1, z), 3),
        edge_key((x, y, z), 6) == edge_key((x, y + 1, z + 1), 0) && crossed(field, s, (x, y, z), 6) == crossed(field, s, (x, y + 1, z + 1), 0),
        edge_key((x, y, z), 7) == edge_key((x, y + 1, z), 3) && crossed(field, s, (x, y, z), 7) == crossed(field, s, (x, y + 1, z), 3),
        edge_key((x, y, z), 9) == edge_key((x + 1, y, z), 8) && crossed(field, s, (x, y, z), 9) == crossed(field, s, (x + 1, y, z), 8),
        edge_key((x, y, z), 10) == edge_key((x + 1, y, z + 1), 8) && crossed(field, s, (x, y, z), 10) == crossed(field, s, (x + 1, y, z + 1), 8),
        edge_key((x, y, z), 11) == edge_key((x, y, z + 1), 8) && crossed(field, s, (x, y, z), 11) == crossed(field, s, (x, y, z + 1), 8),
{
}

/// After the cube at `(x, y, z)` stored the vertices of its new edges, the
/// caches are ready for the next cube of the row.
proof fn lemma_cube_caches(
    vs0: Seq<EdgeVertex>,
    vs1: Seq<EdgeVertex>,
    field: Seq<bool>,
    s: int,
    n: int,
    xb: Seq<u16>,
    zb: Seq<u16>,
    xt: Seq<u16>,
    zt: Seq<u16>,
    yb: Seq<u16>,
    yn: Seq<u16>,
    xt1: Seq<u16>,
    zt1: Seq<u16>,
    yb1: Seq<u16>,
    yn1: Seq<u16>,
    evi: [u16; 12],
    x: int,
    y: int,
    z: int,
)
    requires
        0 <= x < n,
        0 <= y < n,
        0 <= z < n,
        caches_ok(vs0, field, s, n, xb, zb, xt, zt, yb, yn, y, x, z),
        vs0.len() <= vs1.len(),
        vs1.subrange(0, vs0.len() as int) == vs0,
        evi_ok(vs1, evi, field, s, (x, y, z), 12),
        xt1.len() == xt.len(),
        zt1.len() == zt.len(),
        yb1.len() == yb.len(),
        yn1.len() == yn.len(),
        forall|j: int| 0 <= j < xt.len() ==> #[trigger] xt1[j] == (if j == x + (z + 1) * (n + 1) && crossed(field, s, (x, y, z), 6) {
            evi[6]
        } else if j == x + z * (n + 1) && z == 0 && crossed(field, s, (x, y, z), 4) {
            evi[4]
        } else {
            xt[j]
        }),
        forall|j: int| 0 <= j < zt.len() ==> #[trigger] zt1[j] == (if j == x + 1 + z * (n + 1) && crossed(field, s, (x, y, z), 5) {
            evi[5]
        } else if j == x + z * (n + 1) && x == 0 && crossed(field, s, (x, y, z), 7) {
            evi[7]
        } else {
            zt[j]
        }),
        forall|j: int| 0 <= j < yb.len() ==> #[trigger] yb1[j] == (if j == x + 1 && z == 0 && crossed(field, s, (x, y, z), 9) {
            evi[9]
        } else {
            yb[j]
        }),
        forall|j: int| 0 <= j < yn.len() ==> #[trigger] yn1[j] == (if j == x + 1 && crossed(field, s, (x, y, z), 10) {
            evi[10]
        } else if j == x && x == 0 && crossed(field, s, (x, y, z), 11) {
            evi[11]
        } else {
            yn[j]
        }),
    ensures
        caches_ok(vs1, field, s, n, xb, zb, xt1, zt1, yb1, yn1, y, x + 1, z),
{
    reveal(caches_ok);
    let l = n + 1;
    lemma_caches_grow(vs0, vs1, field, s, n, xb, zb, xt, zt, yb, yn, y, x, z);
    lemma_edge_aliases(field, s, x, y, z);
    assert(l * l >= 0) by (nonlinear_arith);
    assert forall|i: int, k: int|
        #![trigger xt1[i + k * l]]
        0 <= i < n && 0 <= k <= n && (if k > 0 { visited(i, k - 1, x + 1, z) } else { visited(i, 0, x + 1, z) })
            && crossed(field, s, (i, y + 1, k), 0) implies names(vs1, xt1[i + k * l], edge_key((i, y + 1, k), 0)) by {
        lemma_slot2(l, i, k, x, z + 1);
        lemma_slot2(l, i, k, x, z);
        assert(0 <= i + k * l < l * l) by (nonlinear_arith)
            requires
                0 <= i < l,
                0 <= k < l,
        ;
        if i == x && k == z + 1 {
        } else if i == x && k == z && z == 0 {
        } else {
            assert(if k > 0 { visited(i, k - 1, x, z) } else { visited(i, 0, x, z) });
        }
    }
    assert forall|i: int, k: int|
        #![trigger zt1[i + k * l]]
        0 <= i <= n && 0 <= k < n && (if i > 0 { visited(i - 1, k, x + 1, z) } else { visited(0, k, x + 1, z) })
            && crossed(field, s, (i, y + 1, k), 3) implies names(vs1, zt1[i + k * l], edge_key((i, y + 1, k), 3)) by {
        lemma_slot2(l, i, k, x + 1, z);
        lemma_slot2(l, i, k, x, z);
        assert(0 <= i + k * l < l * l) by (nonlinear_arith)
            requires
                0 <= i < l,
                0 <= k < l,
        ;
        if i == x + 1 && k == z {
        } else if i == x && k == z && x == 0 {
        } else {
            assert(if i > 0 { visited(i - 1, k, x, z) } else { visited(0, k, x, z) });
        }
    }
    assert forall|i: int|
        #![trigger yb1[i]]
        0 <= i <= n && (z > 0 || (i > 0 && i - 1 < x + 1)) && crossed(field, s, (i, y, z), 8) implies names(vs1, yb1[i], edge_key((i, y, z), 8)) by {
        if i == x + 1 && z == 0 {
        } else {
            assert(z > 0 || (i > 0 && i - 1 < x));
        }
    }
    assert forall|i: int|
        #![trigger yn1[i]]
        0 <= i <= n && (if i > 0 { i - 1 < x + 1 } else { 0 < x + 1 }) && crossed(field, s, (i, y, z + 1), 8) implies names(vs1, yn1[i], edge_key((i, y, z + 1), 8)) by {
        if i == x + 1 {
        } else if i == x && x == 0 {
        } else {
            assert(if i > 0 { i - 1 < x } else { 0 < x });
        }
    }
    assert forall|i: int, k: int|
        #![trigger xb[i + k * l]]
        y > 0 && 0 <= i < n && 0 <= k <= n && crossed(field, s, (i, y, k), 0) implies names(vs1, xb[i + k * l], edge_key((i, y, k), 0)) by {
    }
}

proof fn lemma_prefix_index<A>(a: Seq<A>, b: Seq<A>, k: int)
    requires
        b.len() <= a.len(),
        a.subrange(0, b.len() as int) == b,
        0 <= k < b.len(),
    ensures
        a[k] == b[k],
{
    assert(a.subrange(0, b.len() as int)[k] == a[k]);
}

/// A marching-cubes mesh under construction: the vertices (each on a
/// lattice edge), the triangle indices, and the vertex caches of the
/// current row and layer.
pub struct Builder {
    size: i32,
    vertices: Vec<EdgeVertex>,
    indices: Vec<u16>,
    ybuf: Vec<u16>,
    xbuf: Vec<u16>,
    zbuf: Vec<u16>,
    ybuf_next: Vec<u16>,
    xbuf_top: Vec<u16>,
    zbuf_top: Vec<u16>,
}

impl Builder {
    /// The side of the cube of cubes.
    pub closed spec fn side(&self) -> int {
        self.size as int
    }

    /// The vertices made so far, in order.
    pub closed spec fn vertex_list(&self) -> Seq<EdgeVertex> {
        self.vertices@
    }

    /// The triangle list made so far.
    pub closed spec fn triangles(&self) -> Seq<u16> {
        self.indices@
    }

    /// A builder with no vertices, no triangles and empty caches.
    pub fn new(size: i32) -> (b: Self)
        ensures
            b.side() == size,
            b.vertex_list() == Seq::<EdgeVertex>::empty(),
            b.triangles() == Seq::<u16>::empty(),
    {
        Builder {
            size: size,
            vertices: Vec::new(),
            indices: Vec::new(),
            ybuf: Vec::new(),
            xbuf: Vec::new(),
            zbuf: Vec::new(),
            ybuf_next: Vec::new(),
            xbuf_top: Vec::new(),
            zbuf_top: Vec::new(),
        }
    }

    /// The vertices, each on the edge from corner `a` to corner `b` of its cube.
    pub fn vertices(&self) -> (r: &Vec<EdgeVertex>)
        ensures
            r@ == self.vertex_list(),
    {
        &self.vertices
    }

    /// The triangle list.
    pub fn indices(&self) -> (r: &Vec<u16>)
        ensures
            r@ == self.triangles(),
    {
        &self.indices
    }

    /// The caches hold what `caches_ok` says for the cube at `(x, y, z)`.
    pub closed spec fn ready(&self, field: Seq<bool>, y: int, x: int, z: int) -> bool {
        let n = self.size as int;
        &&& 0 < n
        &&& field.len() == (n + 5) * (n + 5) * (n + 5)
        &&& caches_ok(
            self.vertices@,
            field,
            n + 5,
            n,
            self.xbuf@,
            self.zbuf@,
            self.xbuf_top@,
            self.zbuf_top@,
            self.ybuf@,
            self.ybuf_next@,
            y,
            x,
            z,
        )
        &&& vertices_on_crossings(self.vertices@, field, n + 5)
    }

    /// Adds a vertex on edge `e` (from corner `a` to corner `b`) of the cube
    /// at `pos`, which crosses the surface.
    fn new_edge(&mut self, pos: [i32; 3], a: u8, b: u8, Ghost(e): Ghost<int>, Ghost(field): Ghost<Seq<bool>>) -> (r: u16)
        requires
            0 <= e < 12,
            edge_ends(e) == (a as int, b as int),
            crossed(field, old(self).size + 5, (pos[0] as int, pos[1] as int, pos[2] as int), e),
            vertices_on_crossings(old(self).vertices@, field, old(self).size + 5),
        ensures
            final(self).vertices@ == old(self).vertices@.push(EdgeVertex { pos, a, b }),
            r as int == old(self).vertices@.len() % 0x10000,
            names(final(self).vertices@, r, edge_key((pos[0] as int, pos[1] as int, pos[2] as int), e)),
            vertices_on_crossings(final(self).vertices@, field, old(self).size + 5),
            final(self).indices@ == old(self).indices@,
            final(self).size == old(self).size,
            final(self).ybuf@ == old(self).ybuf@,
            final(self).xbuf@ == old(self).xbuf@,
            final(self).zbuf@ == old(self).zbuf@,
            final(self).ybuf_next@ == old(self).ybuf_next@,
            final(self).xbuf_top@ == old(self).xbuf_top@,
            final(self).zbuf_top@ == old(self).zbuf_top@,
    {
        reveal(vertices_on_crossings);
        let r = self.create_vertex(pos, a, b);
        let ghost k = old(self).vertices@.len() as int;
        let ghost vs = self.vertices@;
        assert(vertex_key(vs[k]) == edge_key((pos[0] as int, pos[1] as int, pos[2] as int), e));
        assert(vs.subrange(0, k) =~= old(self).vertices@);
        assert forall|j: int| #![trigger vs[j]] 0 <= j < vs.len() implies exists|e2: int|
            0 <= e2 < 12 && edge_ends(e2) == (vs[j].a as int, vs[j].b as int) && crossed(field, self.size + 5, cell_of(vs[j]), e2) by {
            if j < k {
                assert(vs[j] == old(self).vertices@[j]);
            } else {
                assert(edge_ends(e) == (vs[j].a as int, vs[j].b as int));
            }
        }
        r
    }

    /// The vertices of the bottom edges 0 to 3 of the cube at `pos`: made
    /// on the bottom layer, else taken from the caches of the layer below.
    #[verifier::rlimit(80)]
    #[verifier::spinoff_prover]
    fn edges_bottom(&mut self, pos: [i32; 3], edge_flags: i32, evi: &mut [u16; 12], Ghost(field): Ghost<Seq<bool>>, Ghost(v0): Ghost<Seq<EdgeVertex>>, Ghost(bufs): Ghost<(Seq<u16>, Seq<u16>, Seq<u16>, Seq<u16>, Seq<u16>, Seq<u16>)>)
        requires
            old(self).vertices@ == v0 + made_upto(field, old(self).size + 5, pos, 0),
            0 <= pos[0] < old(self).size,
            0 <= pos[1] < old(self).size,
            0 <= pos[2] < old(self).size,
            (old(self).size + 1) * (old(self).size + 1) <= usize::MAX,
            0 < old(self).size,
            forall|e: usize| e < 12 ==> #[trigger] edge_bit(edge_flags, e) == crossed(field, old(self).size + 5, (pos[0] as int, pos[1] as int, pos[2] as int), e as int),
            caches_ok(v0, field, old(self).size + 5, old(self).size as int, bufs.0, bufs.1, bufs.2, bufs.3, bufs.4, bufs.5, pos[1] as int, pos[0] as int, pos[2] as int),
            old(self).xbuf@ == bufs.0 && old(self).zbuf@ == bufs.1,
            v0.len() <= old(self).vertices@.len(),
            old(self).vertices@.subrange(0, v0.len() as int) == v0,
            vertices_on_crossings(old(self).vertices@, field, old(self).size + 5),
            evi_ok(old(self).vertices@, *old(evi), field, old(self).size + 5, (pos[0] as int, pos[1] as int, pos[2] as int), 0),
        ensures
            final(self).vertices@ == v0 + made_upto(field, old(self).size + 5, pos, 4),
            own_ok(final(self).vertices@, *final(evi), field, old(self).size + 5, pos, 4),
            final(self).size == old(self).size,
            final(self).indices@ == old(self).indices@,
            old(self).vertices@.len() <= final(self).vertices@.len(),
            final(self).vertices@.subrange(0, old(self).vertices@.len() as int) == old(self).vertices@,
            final(self).vertices@.subrange(0, v0.len() as int) == v0,
            vertices_on_crossings(final(self).vertices@, field, old(self).size + 5),
            final(self).xbuf@ == old(self).xbuf@,
            final(self).zbuf@ == old(self).zbuf@,
            final(self).xbuf_top@ == old(self).xbuf_top@,
            final(self).zbuf_top@ == old(self).zbuf_top@,
            final(self).ybuf@ == old(self).ybuf@,
            final(self).ybuf_next@ == old(self).ybuf_next@,
            evi_ok(final(self).vertices@, *final(evi), field, old(self).size + 5, (pos[0] as int, pos[1] as int, pos[2] as int), 4),
    {
        let ghost p = (pos[0] as int, pos[1] as int, pos[2] as int);
        let ghost n = self.size as int;
        let ghost sf = n + 5;
        let ghost l = n + 1;
        let x = pos[0] as usize;
        let z = pos[2] as usize;
        let s = self.size as usize + 1;
        proof {
            lemma_edge_aliases(field, sf, p.0, p.1, p.2);
            lemma_cache_facts(v0, field, sf, n, bufs.0, bufs.1, bufs.2, bufs.3, bufs.4, bufs.5, p.1, p.0, p.2);
            let xi = x as int;
            let zi = z as int;
            let si = s as int;
            assert(si == l);
            assert(0 <= zi * si && zi * si + si <= si * si) by (nonlinear_arith)
                requires
                    0 <= zi < si - 1,
                    0 < si,
            ;
            assert(xi + 1 + zi * si < si * si);
            assert(xi + (zi + 1) * si < si * si) by (nonlinear_arith)
                requires
                    0 <= xi < si - 1,
                    0 <= zi < si - 1,
            ;
            assert((zi + 1) * si == zi * si + si) by (nonlinear_arith);
        }
        assert(self.vertices@.subrange(0, v0.len() as int) =~= v0);
        if pos[1] == 0 {
            let ghost vb = self.vertices@;
            let ghost eb = *evi;
            if bit(edge_flags, 0) {
                let ghost before = self.vertices@;
                let index = self.new_edge(pos, 0, 1, Ghost(0int), Ghost(field));
                evi[0] = index;
                assert(self.vertices@[before.len() as int] == edge_vertex(pos, 0));
                proof {
                    assert(self.vertices@.subrange(0, before.len() as int) =~= before);
                    assert(self.vertices@.subrange(0, v0.len() as int) =~= v0);
                    lemma_evi_grow(before, self.vertices@, *evi, field, sf, p, 0);
                }
            }
            assert(evi_ok(self.vertices@, *evi, field, sf, p, 1));
            proof {
                assert(self.vertices@.subrange(0, vb.len() as int) =~= vb);
                lemma_own_step(vb, self.vertices@, eb, *evi, field, sf, pos, 0);
            }
            proof {
                lemma_made_step(v0, field, sf, pos, 0);
            }
            assert(self.vertices@ == v0 + made_upto(field, sf, pos, 1));
            let ghost vb = self.vertices@;
            let ghost eb = *evi;
            if bit(edge_flags, 1) {
                let ghost before = self.vertices@;
                let index = self.new_edge(pos, 1, 2, Ghost(1int), Ghost(field));
                evi[1] = index;
                assert(self.vertices@[before.len() as int] == edge_vertex(pos, 1));
                proof {
                    assert(self.vertices@.subrange(0, before.len() as int) =~= before);
                    assert(self.vertices@.subrange(0, v0.len() as int) =~= v0);
                    lemma_evi_grow(before, self.vertices@, *evi, field, sf, p, 1);
                }
            }
            assert(evi_ok(self.vertices@, *evi, field, sf, p, 2));
            proof {
                assert(self.vertices@.subrange(0, vb.len() as int) =~= vb);
                lemma_own_step(vb, self.vertices@, eb, *evi, field, sf, pos, 1);
            }
            proof {
                lemma_made_step(v0, field, sf, pos, 1);
            }
            assert(self.vertices@ == v0 + made_upto(field, sf, pos, 2));
            let ghost vb = self.vertices@;
            let ghost eb = *evi;
            if bit(edge_flags, 2) {
                let ghost before = self.vertices@;
                let index = self.new_edge(pos, 2, 3, Ghost(2int), Ghost(field));
                evi[2] = index;
                assert(self.vertices@[before.len() as int] == edge_vertex(pos, 2));
                proof {
                    assert(self.vertices@.subrange(0, before.len() as int) =~= before);
                    assert(self.vertices@.subrange(0, v0.len() as int) =~= v0);
                    lemma_evi_grow(before, self.vertices@, *evi, field, sf, p, 2);
                }
            }
            assert(evi_ok(self.vertices@, *evi, field, sf, p, 3));
            proof {
                assert(self.vertices@.subrange(0, vb.len() as int) =~= vb);
                lemma_own_step(vb, self.vertices@, eb, *evi, field, sf, pos, 2);
            }
            proof {
                lemma_made_step(v0, field, sf, pos, 2);
            }
            assert(self.vertices@ == v0 + made_upto(field, sf, pos, 3));
            let ghost vb = self.vertices@;
            let ghost eb = *evi;
            if bit(edge_flags, 3) {
                let ghost before = self.vertices@;
                let index = self.new_edge(pos, 3, 0, Ghost(3int), Ghost(field));
                evi[3] = index;
                assert(self.vertices@[before.len() as int] == edge_vertex(pos, 3));
                proof {
                    assert(self.vertices@.subrange(0, before.len() as int) =~= before);
                    assert(self.vertices@.subrange(0, v0.len() as int) =~= v0);
                    lemma_evi_grow(before, self.vertices@, *evi, field, sf, p, 3);
                }
            }
            assert(evi_ok(self.vertices@, *evi, field, sf, p, 4));
            proof {
                assert(self.vertices@.subrange(0, vb.len() as int) =~= vb);
                lemma_own_step(vb, self.vertices@, eb, *evi, field, sf, pos, 3);
            }
            proof {
                lemma_made_step(v0, field, sf, pos, 3);
            }
            assert(self.vertices@ == v0 + made_upto(field, sf, pos, 4));
        } else {
            if bit(edge_flags, 0) {
                evi[0] = self.xbuf[x + z * s];
                proof {
                    assert(crossed(field, sf, p, 0));
                    assert(names(v0, self.xbuf@[p.0 + p.2 * l], edge_key(p, 0)));
                    lemma_names_grow(v0, self.vertices@, evi[0], edge_key(p, 0));
                }
            }
            assert(evi_ok(self.vertices@, *evi, field, sf, p, 1));
            proof {
                lemma_made_step(v0, field, sf, pos, 0);
            }
            assert(self.vertices@ == v0 + made_upto(field, sf, pos, 1));
            if bit(edge_flags, 1) {
                evi[1] = self.zbuf[x + 1 + z * s];
                proof {
                    assert(crossed(field, sf, p, 1));
                    assert(names(v0, self.zbuf@[(p.0 + 1) + p.2 * l], edge_key((p.0 + 1, p.1, p.2), 3)));
                    lemma_names_grow(v0, self.vertices@, evi[1], edge_key(p, 1));
                }
            }
            assert(evi_ok(self.vertices@, *evi, field, sf, p, 2));
            proof {
                lemma_made_step(v0, field, sf, pos, 1);
            }
            assert(self.vertices@ == v0 + made_upto(field, sf, pos, 2));
            if bit(edge_flags, 2) {
                evi[2] = self.xbuf[x + (z + 1) * s];
                proof {
                    assert(crossed(field, sf, p, 2));
                    assert(names(v0, self.xbuf@[p.0 + (p.2 + 1) * l], edge_key((p.0, p.1, p.2 + 1), 0)));
                    lemma_names_grow(v0, self.vertices@, evi[2], edge_key(p, 2));
                }
            }
            assert(evi_ok(self.vertices@, *evi, field, sf, p, 3));
            proof {
                lemma_made_step(v0, field, sf, pos, 2);
            }
            assert(self.vertices@ == v0 + made_upto(field, sf, pos, 3));
            if bit(edge_flags, 3) {
                evi[3] = self.zbuf[x + z * s];
                proof {
                    assert(crossed(field, sf, p, 3));
                    assert(names(v0, self.zbuf@[p.0 + p.2 * l], edge_key(p, 3)));
                    lemma_names_grow(v0, self.vertices@, evi[3], edge_key(p, 3));
                }
            }
            assert(evi_ok(self.vertices@, *evi, field, sf, p, 4));
            proof {
                lemma_made_step(v0, field, sf, pos, 3);
            }
            assert(self.vertices@ == v0 + made_upto(field, sf, pos, 4));
        }
        assert(self.vertices@.subrange(0, old(self).vertices@.len() as int) =~= old(self).vertices@);
    }

    /// The vertices of the top edges 4 to 7 of the cube at `pos`: made and
    /// cached for the layer above, or taken from that cache when a
    /// neighbour in this layer made them.
    #[verifier::rlimit(80)]
    #[verifier::spinoff_prover]
    fn edges_top(&mut self, pos: [i32; 3], edge_flags: i32, evi: &mut [u16; 12], Ghost(field): Ghost<Seq<bool>>, Ghost(v0): Ghost<Seq<EdgeVertex>>, Ghost(bufs): Ghost<(Seq<u16>, Seq<u16>, Seq<u16>, Seq<u16>, Seq<u16>, Seq<u16>)>)
        requires
            own_ok(old(self).vertices@, *old(evi), field, old(self).size + 5, pos, 4),
            old(self).vertices@ == v0 + made_upto(field, old(self).size + 5, pos, 4),
            0 <= pos[0] < old(self).size,
            0 <= pos[1] < old(self).size,
            0 <= pos[2] < old(self).size,
            (old(self).size + 1) * (old(self).size + 1) <= usize::MAX,
            0 < old(self).size,
            forall|e: usize| e < 12 ==> #[trigger] edge_bit(edge_flags, e) == crossed(field, old(self).size + 5, (pos[0] as int, pos[1] as int, pos[2] as int), e as int),
            caches_ok(v0, field, old(self).size + 5, old(self).size as int, bufs.0, bufs.1, bufs.2, bufs.3, bufs.4, bufs.5, pos[1] as int, pos[0] as int, pos[2] as int),
            old(self).xbuf_top@ == bufs.2 && old(self).zbuf_top@ == bufs.3,
            v0.len() <= old(self).vertices@.len(),
            old(self).vertices@.subrange(0, v0.len() as int) == v0,
            vertices_on_crossings(old(self).vertices@, field, old(self).size + 5),
            evi_ok(old(self).vertices@, *old(evi), field, old(self).size + 5, (pos[0] as int, pos[1] as int, pos[2] as int), 4),
        ensures
            own_ok(final(self).vertices@, *final(evi), field, old(self).size + 5, pos, 4),
            final(self).vertices@ == v0 + made_upto(field, old(self).size + 5, pos, 8),
            final(self).size == old(self).size,
            final(self).indices@ == old(self).indices@,
            old(self).vertices@.len() <= final(self).vertices@.len(),
            final(self).vertices@.subrange(0, old(self).vertices@.len() as int) == old(self).vertices@,
            final(self).vertices@.subrange(0, v0.len() as int) == v0,
            vertices_on_crossings(final(self).vertices@, field, old(self).size + 5),
            final(self).xbuf@ == old(self).xbuf@,
            final(self).zbuf@ == old(self).zbuf@,
            final(self).ybuf@ == old(self).ybuf@,
            final(self).ybuf_next@ == old(self).ybuf_next@,
            evi_ok(final(self).vertices@, *final(evi), field, old(self).size + 5, (pos[0] as int, pos[1] as int, pos[2] as int), 8),
            final(self).xbuf_top@.len() == old(self).xbuf_top@.len(),
            final(self).zbuf_top@.len() == old(self).zbuf_top@.len(),
            forall|j: int| 0 <= j < old(self).xbuf_top@.len() ==> #[trigger] final(self).xbuf_top@[j] == (if j == pos[0] + (pos[2] + 1) * (old(self).size + 1) && crossed(field, old(self).size + 5, (pos[0] as int, pos[1] as int, pos[2] as int), 6) {
                final(evi)[6]
            } else if j == pos[0] + pos[2] * (old(self).size + 1) && pos[2] == 0 && crossed(field, old(self).size + 5, (pos[0] as int, pos[1] as int, pos[2] as int), 4) {
                final(evi)[4]
            } else {
                old(self).xbuf_top@[j]
            }),
            forall|j: int| 0 <= j < old(self).zbuf_top@.len() ==> #[trigger] final(self).zbuf_top@[j] == (if j == pos[0] + 1 + pos[2] * (old(self).size + 1) && crossed(field, old(self).size + 5, (pos[0] as int, pos[1] as int, pos[2] as int), 5) {
                final(evi)[5]
            } else if j == pos[0] + pos[2] * (old(self).size + 1) && pos[0] == 0 && crossed(field, old(self).size + 5, (pos[0] as int, pos[1] as int, pos[2] as int), 7) {
                final(evi)[7]
            } else {
                old(self).zbuf_top@[j]
            }),
    {
        let ghost p = (pos[0] as int, pos[1] as int, pos[2] as int);
        let ghost n = self.size as int;
        let ghost sf = n + 5;
        let ghost l = n + 1;
        let x = pos[0] as usize;
        let z = pos[2] as usize;
        let s = self.size as usize + 1;
        proof {
            lemma_edge_aliases(field, sf, p.0, p.1, p.2);
            lemma_cache_facts(v0, field, sf, n, bufs.0, bufs.1, bufs.2, bufs.3, bufs.4, bufs.5, p.1, p.0, p.2);
            let xi = x as int;
            let zi = z as int;
            let si = s as int;
            assert(si == l);
            assert(0 <= zi * si && zi * si + si <= si * si) by (nonlinear_arith)
                requires
                    0 <= zi < si - 1,
                    0 < si,
            ;
            assert(xi + 1 + zi * si < si * si);
            assert(xi + (zi + 1) * si < si * si) by (nonlinear_arith)
                requires
                    0 <= xi < si - 1,
                    0 <= zi < si - 1,
            ;
            assert((zi + 1) * si == zi * si + si) by (nonlinear_arith);
        }
        assert(self.vertices@.subrange(0, v0.len() as int) =~= v0);
        if pos[2] == 0 {
            if bit(edge_flags, 4) {
                let ghost before = self.vertices@;
                let index = self.new_edge(pos, 4, 5, Ghost(4int), Ghost(field));
                self.xbuf_top.set(x + z * s, index);
                evi[4] = index;
                proof {
                    assert(self.vertices@.subrange(0, before.len() as int) =~= before);
                    assert(self.vertices@.subrange(0, v0.len() as int) =~= v0);
                    lemma_evi_grow(before, self.vertices@, *evi, field, sf, p, 4);
                }
            }
            assert(evi_ok(self.vertices@, *evi, field, sf, p, 5));
            proof {
                lemma_made_step(v0, field, sf, pos, 4);
            }
            assert(self.vertices@ == v0 + made_upto(field, sf, pos, 5));
        } else {
            if bit(edge_flags, 4) {
                evi[4] = self.xbuf_top[x + z * s];
                proof {
                    assert(crossed(field, sf, p, 4));
                    assert(names(v0, self.xbuf_top@[p.0 + p.2 * l], edge_key((p.0, p.1 + 1, p.2), 0)));
                    lemma_names_grow(v0, self.vertices@, evi[4], edge_key(p, 4));
                }
            }
            assert(evi_ok(self.vertices@, *evi, field, sf, p, 5));
            proof {
                lemma_made_step(v0, field, sf, pos, 4);
            }
            assert(self.vertices@ == v0 + made_upto(field, sf, pos, 5));
        }
        if bit(edge_flags, 5) {
            let ghost before = self.vertices@;
            let index = self.new_edge(pos, 5, 6, Ghost(5int), Ghost(field));
            self.zbuf_top.set(x + 1 + z * s, index);
            evi[5] = index;
            proof {
                assert(self.vertices@.subrange(0, before.len() as int) =~= before);
                assert(self.vertices@.subrange(0, v0.len() as int) =~= v0);
                lemma_evi_grow(before, self.vertices@, *evi, field, sf, p, 5);
            }
        }
        assert(evi_ok(self.vertices@, *evi, field, sf, p, 6));
        proof {
            lemma_made_step(v0, field, sf, pos, 5);
        }
        assert(self.vertices@ == v0 + made_upto(field, sf, pos, 6));
        if bit(edge_flags, 6) {
            let ghost before = self.vertices@;
            let index = self.new_edge(pos, 6, 7, Ghost(6int), Ghost(field));
            self.xbuf_top.set(x + (z + 1) * s, index);
            evi[6] = index;
            proof {
                assert(self.vertices@.subrange(0, before.len() as int) =~= before);
                assert(self.vertices@.subrange(0, v0.len() as int) =~= v0);
                lemma_evi_grow(before, self.vertices@, *evi, field, sf, p, 6);
            }
        }
        assert(evi_ok(self.vertices@, *evi, field, sf, p, 7));
        proof {
            lemma_made_step(v0, field, sf, pos, 6);
        }
        assert(self.vertices@ == v0 + made_upto(field, sf, pos, 7));
        if pos[0] == 0 {
            if bit(edge_flags, 7) {
                let ghost before = self.vertices@;
                let index = self.new_edge(pos, 7, 4, Ghost(7int), Ghost(field));
                self.zbuf_top.set(x + z * s, index);
                evi[7] = index;
                proof {
                    assert(self.vertices@.subrange(0, before.len() as int) =~= before);
                    assert(self.vertices@.subrange(0, v0.len() as int) =~= v0);
                    lemma_evi_grow(before, self.vertices@, *evi, field, sf, p, 7);
                }
            }
            assert(evi_ok(self.vertices@, *evi, field, sf, p, 8));
            proof {
                lemma_made_step(v0, field, sf, pos, 7);
            }
            assert(self.vertices@ == v0 + made_upto(field, sf, pos, 8));
        } else {
            if bit(edge_flags, 7) {
                evi[7] = self.zbuf_top[x + z * s];
                proof {
                    assert(crossed(field, sf, p, 7));
                    assert(names(v0, self.zbuf_top@[p.0 + p.2 * l], edge_key((p.0, p.1 + 1, p.2), 3)));
                    lemma_names_grow(v0, self.vertices@, evi[7], edge_key(p, 7));
                }
            }
            assert(evi_ok(self.vertices@, *evi, field, sf, p, 8));
            proof {
                lemma_made_step(v0, field, sf, pos, 7);
            }
            assert(self.vertices@ == v0 + made_upto(field, sf, pos, 8));
        }
        assert(self.vertices@.subrange(0, old(self).vertices@.len() as int) =~= old(self).vertices@);
        proof {
            assert forall|e: int| 0 <= e < 4 implies #[trigger] evi[e] == old(evi)[e] by {}
            lemma_own_grow(old(self).vertices@, self.vertices@, *old(evi), *evi, field, sf, pos);
        }
    }

    /// The vertices of the vertical edges 8 to 11 of the cube at `pos`:
    /// made and cached for the next cube and row, or taken from those caches.
    #[verifier::rlimit(80)]
    #[verifier::spinoff_prover]
    fn edges_vertical(&mut self, pos: [i32; 3], edge_flags: i32, evi: &mut [u16; 12], Ghost(field): Ghost<Seq<bool>>, Ghost(v0): Ghost<Seq<EdgeVertex>>, Ghost(bufs): Ghost<(Seq<u16>, Seq<u16>, Seq<u16>, Seq<u16>, Seq<u16>, Seq<u16>)>)
        requires
            own_ok(old(self).vertices@, *old(evi), field, old(self).size + 5, pos, 4),
            old(self).vertices@ == v0 + made_upto(field, old(self).size + 5, pos, 8),
            0 <= pos[0] < old(self).size,
            0 <= pos[1] < old(self).size,
            0 <= pos[2] < old(self).size,
            (old(self).size + 1) * (old(self).size + 1) <= usize::MAX,
            0 < old(self).size,
            forall|e: usize| e < 12 ==> #[trigger] edge_bit(edge_flags, e) == crossed(field, old(self).size + 5, (pos[0] as int, pos[1] as int, pos[2] as int), e as int),
            caches_ok(v0, field, old(self).size + 5, old(self).size as int, bufs.0, bufs.1, bufs.2, bufs.3, bufs.4, bufs.5, pos[1] as int, pos[0] as int, pos[2] as int),
            old(self).ybuf@ == bufs.4 && old(self).ybuf_next@ == bufs.5,
            v0.len() <= old(self).vertices@.len(),
            old(self).vertices@.subrange(0, v0.len() as int) == v0,
            vertices_on_crossings(old(self).vertices@, field, old(self).size + 5),
            evi_ok(old(self).vertices@, *old(evi), field, old(self).size + 5, (pos[0] as int, pos[1] as int, pos[2] as int), 8),
        ensures
            own_ok(final(self).vertices@, *final(evi), field, old(self).size + 5, pos, 4),
            final(self).vertices@ == v0 + made_upto(field, old(self).size + 5, pos, 12),
            forall|e: int| 0 <= e < 8 ==> #[trigger] final(evi)[e] == old(evi)[e],
            final(self).size == old(self).size,
            final(self).indices@ == old(self).indices@,
            old(self).vertices@.len() <= final(self).vertices@.len(),
            final(self).vertices@.subrange(0, old(self).vertices@.len() as int) == old(self).vertices@,
            final(self).vertices@.subrange(0, v0.len() as int) == v0,
            vertices_on_crossings(final(self).vertices@, field, old(self).size + 5),
            final(self).xbuf@ == old(self).xbuf@,
            final(self).zbuf@ == old(self).zbuf@,
            final(self).xbuf_top@ == old(self).xbuf_top@,
            final(self).zbuf_top@ == old(self).zbuf_top@,
            evi_ok(final(self).vertices@, *final(evi), field, old(self).size + 5, (pos[0] as int, pos[1] as int, pos[2] as int), 12),
            final(self).ybuf@.len() == old(self).ybuf@.len(),
            final(self).ybuf_next@.len() == old(self).ybuf_next@.len(),
            forall|j: int| 0 <= j < old(self).ybuf@.len() ==> #[trigger] final(self).ybuf@[j] == (if j == pos[0] + 1 && pos[2] == 0 && crossed(field, old(self).size + 5, (pos[0] as int, pos[1] as int, pos[2] as int), 9) {
                final(evi)[9]
            } else {
                old(self).ybuf@[j]
            }),
            forall|j: int| 0 <= j < old(self).ybuf_next@.len() ==> #[trigger] final(self).ybuf_next@[j] == (if j == pos[0] + 1 && crossed(field, old(self).size + 5, (pos[0] as int, pos[1] as int, pos[2] as int), 10) {
                final(evi)[10]
            } else if j == pos[0] && pos[0] == 0 && crossed(field, old(self).size + 5, (pos[0] as int, pos[1] as int, pos[2] as int), 11) {
                final(evi)[11]
            } else {
                old(self).ybuf_next@[j]
            }),
    {
        let ghost p = (pos[0] as int, pos[1] as int, pos[2] as int);
        let ghost n = self.size as int;
        let ghost sf = n + 5;
        let ghost l = n + 1;
        let x = pos[0] as usize;
        let z = pos[2] as usize;
        let s = self.size as usize + 1;
        proof {
            lemma_edge_aliases(field, sf, p.0, p.1, p.2);
            lemma_cache_facts(v0, field, sf, n, bufs.0, bufs.1, bufs.2, bufs.3, bufs.4, bufs.5, p.1, p.0, p.2);
            let xi = x as int;
            let zi = z as int;
            let si = s as int;
            assert(si == l);
            assert(0 <= zi * si && zi * si + si <= si * si) by (nonlinear_arith)
                requires
                    0 <= zi < si - 1,
                    0 < si,
            ;
            assert(xi + 1 + zi * si < si * si);
            assert(xi + (zi + 1) * si < si * si) by (nonlinear_arith)
                requires
                    0 <= xi < si - 1,
                    0 <= zi < si - 1,
            ;
            assert((zi + 1) * si == zi * si + si) by (nonlinear_arith);
        }
        assert(self.vertices@.subrange(0, v0.len() as int) =~= v0);
        if z == 0 && x == 0 {
            if bit(edge_flags, 8) {
                let ghost before = self.vertices@;
                let index = self.new_edge(pos, 0, 4, Ghost(8int), Ghost(field));
                evi[8] = index;
                proof {
                    assert(self.vertices@.subrange(0, before.len() as int) =~= before);
                    assert(self.vertices@.subrange(0, v0.len() as int) =~= v0);
                    lemma_evi_grow(before, self.vertices@, *evi, field, sf, p, 8);
                }
            }
            assert(evi_ok(self.vertices@, *evi, field, sf, p, 9));
            proof {
                lemma_made_step(v0, field, sf, pos, 8);
            }
            assert(self.vertices@ == v0 + made_upto(field, sf, pos, 9));
        } else {
            if bit(edge_flags, 8) {
                evi[8] = self.ybuf[x];
                proof {
                    assert(crossed(field, sf, p, 8));
                    assert(names(v0, self.ybuf@[p.0], edge_key(p, 8)));
                    lemma_names_grow(v0, self.vertices@, evi[8], edge_key(p, 8));
                }
            }
            assert(evi_ok(self.vertices@, *evi, field, sf, p, 9));
            proof {
                lemma_made_step(v0, field, sf, pos, 8);
            }
            assert(self.vertices@ == v0 + made_upto(field, sf, pos, 9));
        }
        if z == 0 {
            if bit(edge_flags, 9) {
                let ghost before = self.vertices@;
                let index = self.new_edge(pos, 1, 5, Ghost(9int), Ghost(field));
                self.ybuf.set(x + 1, index);
                evi[9] = index;
                proof {
                    assert(self.vertices@.subrange(0, before.len() as int) =~= before);
                    assert(self.vertices@.subrange(0, v0.len() as int) =~= v0);
                    lemma_evi_grow(before, self.vertices@, *evi, field, sf, p, 9);
                }
            }
            assert(evi_ok(self.vertices@, *evi, field, sf, p, 10));
            proof {
                lemma_made_step(v0, field, sf, pos, 9);
            }
            assert(self.vertices@ == v0 + made_upto(field, sf, pos, 10));
        } else {
            if bit(edge_flags, 9) {
                evi[9] = self.ybuf[x + 1];
                proof {
                    assert(crossed(field, sf, p, 9));
                    assert(names(v0, self.ybuf@[p.0 + 1], edge_key((p.0 + 1, p.1, p.2), 8)));
                    lemma_names_grow(v0, self.vertices@, evi[9], edge_key(p, 9));
                }
            }
            assert(evi_ok(self.vertices@, *evi, field, sf, p, 10));
            proof {
                lemma_made_step(v0, field, sf, pos, 9);
            }
            assert(self.vertices@ == v0 + made_upto(field, sf, pos, 10));
        }
        if bit(edge_flags, 10) {
            let ghost before = self.vertices@;
            let index = self.new_edge(pos, 2, 6, Ghost(10int), Ghost(field));
            self.ybuf_next.set(x + 1, index);
            evi[10] = index;
            proof {
                assert(self.vertices@.subrange(0, before.len() as int) =~= before);
                assert(self.vertices@.subrange(0, v0.len() as int) =~= v0);
                lemma_evi_grow(before, self.vertices@, *evi, field, sf, p, 10);
            }
        }
        assert(evi_ok(self.vertices@, *evi, field, sf, p, 11));
        proof {
            lemma_made_step(v0, field, sf, pos, 10);
        }
        assert(self.vertices@ == v0 + made_upto(field, sf, pos, 11));
        if x == 0 {
            if bit(edge_flags, 11) {
                let ghost before = self.vertices@;
                let index = self.new_edge(pos, 3, 7, Ghost(11int), Ghost(field));
                self.ybuf_next.set(x, index);
                evi[11] = index;
                proof {
                    assert(self.vertices@.subrange(0, before.len() as int) =~= before);
                    assert(self.vertices@.subrange(0, v0.len() as int) =~= v0);
                    lemma_evi_grow(before, self.vertices@, *evi, field, sf, p, 11);
                }
            }
            assert(evi_ok(self.vertices@, *evi, field, sf, p, 12));
            proof {
                lemma_made_step(v0, field, sf, pos, 11);
            }
            assert(self.vertices@ == v0 + made_upto(field, sf, pos, 12));
        } else {
            if bit(edge_flags, 11) {
                evi[11] = self.ybuf_next[x];
                proof {
                    assert(crossed(field, sf, p, 11));
                    assert(names(v0, self.ybuf_next@[p.0], edge_key((p.0, p.1, p.2 + 1), 8)));
                    lemma_names_grow(v0, self.vertices@, evi[11], edge_key(p, 11));
                }
            }
            assert(evi_ok(self.vertices@, *evi, field, sf, p, 12));
            proof {
                lemma_made_step(v0, field, sf, pos, 11);
            }
            assert(self.vertices@ == v0 + made_upto(field, sf, pos, 12));
        }
        assert(self.vertices@.subrange(0, old(self).vertices@.len() as int) =~= old(self).vertices@);
        proof {
            assert forall|e: int| 0 <= e < 4 implies #[trigger] evi[e] == old(evi)[e] by {}
            lemma_own_grow(old(self).vertices@, self.vertices@, *old(evi), *evi, field, sf, pos);
        }
    }

    /// Adds the triangles of a table row: the vertices of each triangle's
    /// edges, in winding order, until the row ends.
    fn emit(
        &mut self,
        row: [usize; 16],
        winding: [usize; 3],
        evi: &[u16; 12],
        Ghost(field): Ghost<Seq<bool>>,
        Ghost(p): Ghost<(int, int, int)>,
        Ghost(pos): Ghost<[i32; 3]>,
        Ghost(edge_flags): Ghost<i32>,
    )
        requires
            forall|j: int| 0 <= j < 3 ==> #[trigger] winding[j] < 3,
            forall|i: int| 0 <= i < 5 && #[trigger] row[3 * i] != 12 ==> {
                &&& row[3 * i] < 12 && row[3 * i + 1] < 12 && row[3 * i + 2] < 12
                &&& edge_bit(edge_flags, row[3 * i]) && edge_bit(edge_flags, row[3 * i + 1]) && edge_bit(edge_flags, row[3 * i + 2])
            },
            forall|e: usize| e < 12 ==> #[trigger] edge_bit(edge_flags, e) == crossed(field, old(self).size + 5, p, e as int),
            evi_ok(old(self).vertices@, *evi, field, old(self).size + 5, p, 12),
            p == (pos[0] as int, pos[1] as int, pos[2] as int),
            own_ok(old(self).vertices@, *evi, field, old(self).size + 5, pos, 4),
        ensures
            final(self).size == old(self).size,
            final(self).vertices@ == old(self).vertices@,
            final(self).xbuf@ == old(self).xbuf@,
            final(self).zbuf@ == old(self).zbuf@,
            final(self).xbuf_top@ == old(self).xbuf_top@,
            final(self).zbuf_top@ == old(self).zbuf_top@,
            final(self).ybuf@ == old(self).ybuf@,
            final(self).ybuf_next@ == old(self).ybuf_next@,
            ({
                let re = row_edges(row, winding, 5);
                let o = old(self).indices@.len() as int;
                &&& final(self).indices@.len() == o + re.len()
                &&& final(self).indices@.subrange(0, o) == old(self).indices@
                &&& forall|m: int| 0 <= m < re.len() ==> names(final(self).vertices@, #[trigger] final(self).indices@[o + m], edge_key(p, re[m] as int))
                &&& forall|m: int|
                    0 <= m < re.len() && re[m] < 4 && pos[1] == 0 ==> names_vertex(
                        final(self).vertices@,
                        #[trigger] final(self).indices@[o + m],
                        edge_vertex(pos, re[m] as int),
                    )
            }),
    {
        let ghost sf = self.size + 5;
        let ghost i0 = self.indices@;
        let ghost o = i0.len() as int;
        let mut i: usize = 0;
        while i < 5 && row[3 * i] != 12
            invariant
                0 <= i <= 5,
                row_edges(row, winding, i as nat).len() == 3 * i,
                forall|j: int| 0 <= j < 3 ==> #[trigger] winding[j] < 3,
                forall|i: int| 0 <= i < 5 && #[trigger] row[3 * i] != 12 ==> {
                    &&& row[3 * i] < 12 && row[3 * i + 1] < 12 && row[3 * i + 2] < 12
                    &&& edge_bit(edge_flags, row[3 * i]) && edge_bit(edge_flags, row[3 * i + 1]) && edge_bit(edge_flags, row[3 * i + 2])
                },
                forall|e: usize| e < 12 ==> #[trigger] edge_bit(edge_flags, e) == crossed(field, sf, p, e as int),
                evi_ok(self.vertices@, *evi, field, sf, p, 12),
                sf == self.size + 5,
                self.size == old(self).size,
                self.vertices@ == old(self).vertices@,
                self.xbuf@ == old(self).xbuf@,
                self.zbuf@ == old(self).zbuf@,
                self.xbuf_top@ == old(self).xbuf_top@,
                self.zbuf_top@ == old(self).zbuf_top@,
                self.ybuf@ == old(self).ybuf@,
                self.ybuf_next@ == old(self).ybuf_next@,
                self.indices@.len() == o + 3 * i,
                self.indices@.subrange(0, o) == i0,
                o == i0.len(),
                forall|m: int| 0 <= m < 3 * i ==> names(self.vertices@, #[trigger] self.indices@[o + m], edge_key(p, row_edges(row, winding, i as nat)[m] as int)),
                p == (pos[0] as int, pos[1] as int, pos[2] as int),
                own_ok(self.vertices@, *evi, field, sf, pos, 4),
                forall|m: int|
                    0 <= m < 3 * i && row_edges(row, winding, i as nat)[m] < 4 && pos[1] == 0 ==> names_vertex(
                        self.vertices@,
                        #[trigger] self.indices@[o + m],
                        edge_vertex(pos, row_edges(row, winding, i as nat)[m] as int),
                    ),
            decreases 5 - i,
        {
            let ghost before = self.indices@;
            let ghost re = row_edges(row, winding, i as nat);
            assert(row[3 * i as int] != 12);
            let mut j: usize = 0;
            while j < 3
                invariant
                    0 <= j <= 3,
                    0 <= i < 5,
                    row[3 * i as int] != 12,
                    forall|j: int| 0 <= j < 3 ==> #[trigger] winding[j] < 3,
                    forall|i: int| 0 <= i < 5 && #[trigger] row[3 * i] != 12 ==> {
                        &&& row[3 * i] < 12 && row[3 * i + 1] < 12 && row[3 * i + 2] < 12
                        &&& edge_bit(edge_flags, row[3 * i]) && edge_bit(edge_flags, row[3 * i + 1]) && edge_bit(edge_flags, row[3 * i + 2])
                    },
                    forall|e: usize| e < 12 ==> #[trigger] edge_bit(edge_flags, e) == crossed(field, sf, p, e as int),
                    evi_ok(self.vertices@, *evi, field, sf, p, 12),
                    sf == self.size + 5,
                    self.size == old(self).size,
                    self.vertices@ == old(self).vertices@,
                    self.xbuf@ == old(self).xbuf@,
                    self.zbuf@ == old(self).zbuf@,
                    self.xbuf_top@ == old(self).xbuf_top@,
                    self.zbuf_top@ == old(self).zbuf_top@,
                    self.ybuf@ == old(self).ybuf@,
                    self.ybuf_next@ == old(self).ybuf_next@,
                    self.indices@.len() == before.len() + j,
                    self.indices@.subrange(0, before.len() as int) == before,
                    before.len() == o + 3 * i,
                    before.subrange(0, o) == i0,
                    o == i0.len(),
                    forall|m: int| 0 <= m < j ==> names(self.vertices@, #[trigger] self.indices@[before.len() + m], edge_key(p, row[3 * i + winding[m]] as int)),
                    p == (pos[0] as int, pos[1] as int, pos[2] as int),
                    own_ok(self.vertices@, *evi, field, sf, pos, 4),
                    forall|m: int|
                        0 <= m < j && row[3 * i + winding[m]] < 4 && pos[1] == 0 ==> names_vertex(
                            self.vertices@,
                            #[trigger] self.indices@[before.len() + m],
                            edge_vertex(pos, row[3 * i + winding[m]] as int),
                        ),
                    forall|m: int|
                        0 <= m < 3 * i && row_edges(row, winding, i as nat)[m] < 4 && pos[1] == 0 ==> names_vertex(
                            self.vertices@,
                            #[trigger] before[o + m],
                            edge_vertex(pos, row_edges(row, winding, i as nat)[m] as int),
                        ),
                decreases 3 - j,
            {
                let ix = 3 * i + winding[j];
                let vert = row[ix];
                assert(winding[j as int] < 3);
                assert(vert < 12 && edge_bit(edge_flags, vert)) by {
                    let w = winding[j as int];
                    assert(w == 0 || w == 1 || w == 2);
                }
                assert(crossed(field, sf, p, vert as int));
                assert(names(self.vertices@, evi[vert as int], edge_key(p, vert as int)));
                let ghost prev = self.indices@;
                self.indices.push(evi[vert]);
                assert(self.indices@.subrange(0, before.len() as int) =~= before) by {
                    assert(prev.subrange(0, before.len() as int) == before);
                    assert forall|k: int| 0 <= k < before.len() implies self.indices@[k] == before[k] by {
                        assert(prev.subrange(0, before.len() as int)[k] == prev[k]);
                    }
                }
                assert forall|m: int| 0 <= m < j + 1 implies names(self.vertices@, #[trigger] self.indices@[before.len() + m], edge_key(p, row[3 * i + winding[m]] as int)) by {
                    if m < j {
                        assert(self.indices@[before.len() + m] == prev[before.len() + m]);
                    }
                }
                assert forall|m: int|
                    0 <= m < j + 1 && row[3 * i + winding[m]] < 4 && pos[1] == 0 implies names_vertex(
                        self.vertices@,
                        #[trigger] self.indices@[before.len() + m],
                        edge_vertex(pos, row[3 * i + winding[m]] as int),
                    ) by {
                    if m < j {
                        assert(self.indices@[before.len() + m] == prev[before.len() + m]);
                    } else {
                        assert(row[3 * i + winding[m]] == vert);
                    }
                }
                j += 1;
            }
            proof {
                assert(((i + 1) as nat) - 1 == i);
                let re2 = row_edges(row, winding, (i + 1) as nat);
                assert(re2 == re + seq![row[3 * i + winding[0]], row[3 * i + winding[1]], row[3 * i + winding[2]]]);
                assert forall|m: int| 0 <= m < 3 * (i + 1) implies names(self.vertices@, #[trigger] self.indices@[o + m], edge_key(p, re2[m] as int)) by {
                    if m < 3 * i {
                        lemma_prefix_index(self.indices@, before, o + m);
                    } else {
                        assert(self.indices@[o + m] == self.indices@[before.len() + (m - 3 * i)]);
                    }
                }
                assert forall|m: int|
                    0 <= m < 3 * (i + 1) && re2[m] < 4 && pos[1] == 0 implies names_vertex(
                        self.vertices@,
                        #[trigger] self.indices@[o + m],
                        edge_vertex(pos, re2[m] as int),
                    ) by {
                    if m < 3 * i {
                        lemma_prefix_index(self.indices@, before, o + m);
                        assert(re2[m] == re[m]);
                    } else {
                        assert(self.indices@[o + m] == self.indices@[before.len() + (m - 3 * i)]);
                    }
                }
                assert forall|k: int| 0 <= k < o implies self.indices@[k] == i0[k] by {
                    lemma_prefix_index(self.indices@, before, k);
                    lemma_prefix_index(before, i0, k);
                }
                assert(self.indices@.subrange(0, o) =~= i0);
            }
            i += 1;
        }
        proof {
            if i < 5 {
                lemma_row_edges_end(row, winding, i as nat, 5);
            }
        }
    }

    /// Finds or makes the vertices of the crossed edges of the cube at
    /// `pos`, whose corners lie inside as `inside` says, and adds its
    /// triangles.
    fn cube(
        &mut self,
        pos: [i32; 3],
        inside: [bool; 8],
        tables: &CubeTables,
        Ghost(field): Ghost<Seq<bool>>,
    )
        requires
            tables_wf(*tables),
            tables_consistent(*tables),
            0 <= pos[0] < old(self).size,
            0 <= pos[1] < old(self).size,
            0 <= pos[2] < old(self).size,
            (old(self).size + 1) * (old(self).size + 1) <= usize::MAX,
            forall|i: int| 0 <= i < 8 ==> #[trigger] inside[i] == inside_at(field, old(self).size + 5, add3((pos[0] as int, pos[1] as int, pos[2] as int), corner(i))),
            old(self).ready(field, pos[1] as int, pos[0] as int, pos[2] as int),
        ensures
            final(self).size == old(self).size,
            final(self).ready(field, pos[1] as int, pos[0] + 1, pos[2] as int),
            old(self).vertices@.len() <= final(self).vertices@.len(),
            final(self).vertices@.subrange(0, old(self).vertices@.len() as int) == old(self).vertices@,
            final(self).vertices@ == old(self).vertices@ + made_upto(field, old(self).size + 5, pos, 12),
            ({
                let p = (pos[0] as int, pos[1] as int, pos[2] as int);
                let ce = cube_edges(*tables, field, old(self).size + 5, p);
                let o = old(self).indices@.len() as int;
                &&& final(self).indices@.len() == o + ce.len()
                &&& final(self).indices@.subrange(0, o) == old(self).indices@
                &&& forall|m: int| 0 <= m < ce.len() ==> names(final(self).vertices@, #[trigger] final(self).indices@[o + m], edge_key(p, ce[m] as int))
                &&& forall|m: int|
                    0 <= m < ce.len() && ce[m] < 4 && pos[1] == 0 ==> names_vertex(
                        final(self).vertices@,
                        #[trigger] final(self).indices@[o + m],
                        edge_vertex(pos, ce[m] as int),
                    )
            }),
            (forall|e: int| 0 <= e < 12 ==> !#[trigger] crossed(field, old(self).size + 5, (pos[0] as int, pos[1] as int, pos[2] as int), e))
                ==> {
                &&& final(self).vertices@ == old(self).vertices@
                &&& final(self).indices@ == old(self).indices@
                &&& final(self).xbuf@ == old(self).xbuf@
                &&& final(self).zbuf@ == old(self).zbuf@
                &&& final(self).xbuf_top@ == old(self).xbuf_top@
                &&& final(self).zbuf_top@ == old(self).zbuf_top@
                &&& final(self).ybuf@ == old(self).ybuf@
                &&& final(self).ybuf_next@ == old(self).ybuf_next@
            },
    {
        let ghost p = (pos[0] as int, pos[1] as int, pos[2] as int);
        let ghost n = self.size as int;
        let ghost sf = n + 5;
        let ghost v0 = self.vertices@;
        let ghost i0 = self.indices@;
        let ghost xb0 = self.xbuf@;
        let ghost zb0 = self.zbuf@;
        let ghost xt0 = self.xbuf_top@;
        let ghost zt0 = self.zbuf_top@;
        let ghost yb0 = self.ybuf@;
        let ghost yn0 = self.ybuf_next@;
        proof {
            lemma_flag_of(*tables, field, sf, p);
        }
        let mut flag_index: usize = if inside[0] { 1 } else { 0 };
        flag_index = flag_index | (if inside[1] { 2 } else { 0 });
        flag_index = flag_index | (if inside[2] { 4 } else { 0 });
        flag_index = flag_index | (if inside[3] { 8 } else { 0 });
        flag_index = flag_index | (if inside[4] { 16 } else { 0 });
        flag_index = flag_index | (if inside[5] { 32 } else { 0 });
        flag_index = flag_index | (if inside[6] { 64 } else { 0 });
        flag_index = flag_index | (if inside[7] { 128 } else { 0 });
        assert(flag_index == flag_of(field, sf, p));
        let edge_flags = tables.edge_flags[flag_index];
        assert forall|e: usize| e < 12 implies #[trigger] edge_bit(edge_flags, e) == crossed(field, sf, p, e as int) by {
            assert(edge_bit(tables.edge_flags@[flag_index as int], (e as int) as usize) == crossed(field, sf, p, e as int));
        }
        let mut evi: [u16; 12] = [0; 12];
        if edge_flags == 0 {
            proof {
                assert forall|e: int| 0 <= e < 12 implies !#[trigger] crossed(field, sf, p, e) by {
                    lemma_zero_has_no_bits(e as usize);
                    assert(edge_bit(edge_flags, e as usize) == crossed(field, sf, p, (e as usize) as int));
                }
                assert(v0.subrange(0, v0.len() as int) =~= v0);
                lemma_made_none(field, sf, pos, 12);
                assert(v0 + made_upto(field, sf, pos, 12) =~= v0);
                lemma_cube_caches(v0, v0, field, sf, n, xb0, zb0, xt0, zt0, yb0, yn0, xt0, zt0, yb0, yn0, evi, p.0, p.1, p.2);
                assert(self.vertices@.subrange(0, v0.len() as int) =~= v0);
                assert(self.indices@.subrange(0, i0.len() as int) =~= i0);
            }
            return;
        }
        assert(self.vertices@.subrange(0, v0.len() as int) =~= v0);
        let ghost bufs = (xb0, zb0, xt0, zt0, yb0, yn0);
        proof {
            reveal(vertices_on_crossings);
            assert(v0 + made_upto(field, sf, pos, 0) =~= v0);
        }
        self.edges_bottom(pos, edge_flags, &mut evi, Ghost(field), Ghost(v0), Ghost(bufs));
        self.edges_top(pos, edge_flags, &mut evi, Ghost(field), Ghost(v0), Ghost(bufs));
        self.edges_vertical(pos, edge_flags, &mut evi, Ghost(field), Ghost(v0), Ghost(bufs));
        proof {
            lemma_cube_caches(v0, self.vertices@, field, sf, n, xb0, zb0, xt0, zt0, yb0, yn0, self.xbuf_top@, self.zbuf_top@, self.ybuf@, self.ybuf_next@, evi, p.0, p.1, p.2);
        }
        let ghost v1 = self.vertices@;
        let row = tables.triangles[flag_index];
        proof {
            assert forall|i: int| 0 <= i < 5 && #[trigger] row[3 * i] != 12 implies {
                &&& row[3 * i] < 12 && row[3 * i + 1] < 12 && row[3 * i + 2] < 12
                &&& edge_bit(edge_flags, row[3 * i]) && edge_bit(edge_flags, row[3 * i + 1]) && edge_bit(edge_flags, row[3 * i + 2])
            } by {
                assert(tables.triangles@[flag_index as int][3 * i] != 12);
                assert(edge_bit(tables.edge_flags@[flag_index as int], tables.triangles@[flag_index as int][3 * i + 0]));
                assert(edge_bit(tables.edge_flags@[flag_index as int], tables.triangles@[flag_index as int][3 * i + 1]));
                assert(edge_bit(tables.edge_flags@[flag_index as int], tables.triangles@[flag_index as int][3 * i + 2]));
            }
        }
        self.emit(row, tables.winding, &evi, Ghost(field), Ghost(p), Ghost(pos), Ghost(edge_flags));
        proof {
            assert(row_edges(row, tables.winding, 5) == cube_edges(*tables, field, sf, p));
            if forall|e: int| 0 <= e < 12 ==> !#[trigger] crossed(field, sf, p, e) {
                lemma_made_none(field, sf, pos, 12);
                assert(self.vertices@ =~= v0);
                lemma_cube_edges_crossed(*tables, field, sf, p);
                let ce = cube_edges(*tables, field, sf, p);
                if ce.len() > 0 {
                    assert(crossed(field, sf, p, ce[0] as int));
                }
                assert(self.indices@ =~= i0);
                assert(self.xbuf@ =~= xb0);
                assert(self.zbuf@ =~= zb0);
                assert(self.xbuf_top@ =~= xt0);
                assert(self.zbuf_top@ =~= zt0);
                assert(self.ybuf@ =~= yb0);
                assert(self.ybuf_next@ =~= yn0);
            }
        }
    }

    /// Adds a vertex on the edge from corner `a` to corner `b` of the cube
    /// at `pos`; returns its index (modulo 2^16).
    fn create_vertex(&mut self, pos: [i32; 3], a: u8, b: u8) -> (r: u16)
        ensures
            final(self).vertices@ == old(self).vertices@.push(EdgeVertex { pos, a, b }),
            r as int == old(self).vertices@.len() % 0x10000,
            final(self).indices@ == old(self).indices@,
            final(self).size == old(self).size,
            final(self).ybuf@ == old(self).ybuf@,
            final(self).xbuf@ == old(self).xbuf@,
            final(self).zbuf@ == old(self).zbuf@,
            final(self).ybuf_next@ == old(self).ybuf_next@,
            final(self).xbuf_top@ == old(self).xbuf_top@,
            final(self).zbuf_top@ == old(self).zbuf_top@,
    {
        let index = self.vertices.len();
        self.vertices.push(EdgeVertex { pos, a, b });
        (index % 0x10000) as u16
    }
}

/// The triangle list `idx` names, index by index, vertices of `vs` on the
/// lattice edges `keys`.
pub open spec fn indices_name(vs: Seq<EdgeVertex>, idx: Seq<u16>, keys: Seq<((int, int, int), (int, int, int))>) -> bool {
    &&& idx.len() == keys.len()
    &&& forall|m: int| 0 <= m < idx.len() ==> names(vs, #[trigger] idx[m], keys[m])
}

/// Appending a cube's indices keeps the triangle list naming its edges.
proof fn lemma_indices_step(
    vs0: Seq<EdgeVertex>,
    vs1: Seq<EdgeVertex>,
    i0: Seq<u16>,
    i1: Seq<u16>,
    pre: Seq<((int, int, int), (int, int, int))>,
    add: Seq<((int, int, int), (int, int, int))>,
)
    requires
        indices_name(vs0, i0, pre),
        vs0.len() <= vs1.len(),
        vs1.subrange(0, vs0.len() as int) == vs0,
        i1.len() == i0.len() + add.len(),
        i1.subrange(0, i0.len() as int) == i0,
        forall|m: int| 0 <= m < add.len() ==> names(vs1, #[trigger] i1[i0.len() + m], add[m]),
    ensures
        indices_name(vs1, i1, pre + add),
{
    let o = i0.len() as int;
    assert forall|m: int| 0 <= m < i1.len() implies names(vs1, #[trigger] i1[m], (pre + add)[m]) by {
        if m < o {
            lemma_prefix_index(i1, i0, m);
            lemma_names_grow(vs0, vs1, i0[m], pre[m]);
        } else {
            assert(i1[o + (m - o)] == i1[m]);
        }
    }
}

/// The vertices that the triangle corners of the cube visited at
/// `(y, z, x)` would take if the cube made each of them itself. The cubes of
/// the bottom layer do so for the corners on their bottom edges.
pub open spec fn cube_own_fn(t: CubeTables, field: Seq<bool>, s: int) -> spec_fn(int, int, int) -> Seq<EdgeVertex> {
    |y: int, z: int, x: int|
        cube_edges(t, field, s, (x, y, z)).map_values(|e: usize| edge_vertex([x as i32, y as i32, z as i32], e as int))
}

/// Each index of `idx` whose lattice edge (`keys`) lies on the bottom plane
/// is the index of the vertex `owns` gives for it.
pub open spec fn indices_own(
    vs: Seq<EdgeVertex>,
    idx: Seq<u16>,
    keys: Seq<((int, int, int), (int, int, int))>,
    owns: Seq<EdgeVertex>,
) -> bool {
    &&& owns.len() == idx.len()
    &&& forall|m: int| 0 <= m < idx.len() && on_bottom(keys[m]) ==> names_vertex(vs, #[trigger] idx[m], owns[m])
}

proof fn lemma_own_indices_step(
    vs0: Seq<EdgeVertex>,
    vs1: Seq<EdgeVertex>,
    i0: Seq<u16>,
    i1: Seq<u16>,
    keys: Seq<((int, int, int), (int, int, int))>,
    keys_add: Seq<((int, int, int), (int, int, int))>,
    owns: Seq<EdgeVertex>,
    owns_add: Seq<EdgeVertex>,
)
    requires
        indices_own(vs0, i0, keys, owns),
        keys.len() == i0.len(),
        vs0.len() <= vs1.len(),
        vs1.subrange(0, vs0.len() as int) == vs0,
        i1.len() == i0.len() + keys_add.len(),
        owns_add.len() == keys_add.len(),
        i1.subrange(0, i0.len() as int) == i0,
        forall|m: int|
            0 <= m < keys_add.len() && on_bottom(keys_add[m]) ==> names_vertex(vs1, #[trigger] i1[i0.len() + m], owns_add[m]),
    ensures
        indices_own(vs1, i1, keys + keys_add, owns + owns_add),
{
    let o = i0.len() as int;
    assert forall|m: int| 0 <= m < i1.len() && on_bottom((keys + keys_add)[m]) implies names_vertex(
        vs1,
        #[trigger] i1[m],
        (owns + owns_add)[m],
    ) by {
        if m < o {
            lemma_prefix_index(i1, i0, m);
            lemma_names_vertex_grow(vs0, vs1, i0[m], owns[m]);
        } else {
            assert(i1[o + (m - o)] == i1[m]);
        }
    }
}

/// Whether the voxel at `(x, y, z)` is inside, in a field of side `s`.
pub(crate) fn inside(field: &Vec<bool>, s: usize, x: usize, y: usize, z: usize) -> (r: bool)
    requires
        x < s,
        y < s,
        z < s,
        field@.len() == s * s * s,
    ensures
        r == inside_at(field@, s as int, (x as int, y as int, z as int)),
{
    let len = field.len();
    proof {
        crate::lattice::lemma_slot_bounds(s as int, x as int, y as int, z as int);
        assert(y * s <= s * s * s) by (nonlinear_arith)
            requires
                y < s,
        ;
        assert(z * s <= s * s * s) by (nonlinear_arith)
            requires
                z < s,
        ;
        assert(z * s * s <= s * s * s) by (nonlinear_arith)
            requires
                z < s,
        ;
        assert(x + y * s <= x + y * s + z * s * s) by (nonlinear_arith);
    }
    field[x + y * s + z * s * s]
}

impl Builder {
    /// Marches every cube of `[0, size)^3` in layers of `y`, rows of `z`
    /// and steps of `x`, over a field of side `size + 5` telling which
    /// voxels are inside. Each crossed lattice edge gets a vertex; the
    /// triangle list names, in order, a vertex on each lattice edge that the
    /// tables give the cubes.
    pub fn mesh(&mut self, field: &Vec<bool>, tables: &CubeTables)
        requires
            old(self).side() >= -1,
            old(self).vertex_list() == Seq::<EdgeVertex>::empty(),
            old(self).triangles() == Seq::<u16>::empty(),
            tables_wf(*tables),
            tables_consistent(*tables),
            field@.len() == (old(self).side() + 5) * (old(self).side() + 5) * (old(self).side() + 5),
        ensures
            final(self).side() == old(self).side(),
            vertices_on_crossings(final(self).vertex_list(), field@, old(self).side() + 5),
            final(self).vertex_list() == sweep(cube_vertices_fn(field@, old(self).side() + 5), cube_span(old(self).side())),
            indices_own(
                final(self).vertex_list(),
                final(self).triangles(),
                sweep(cube_corners_fn(*tables, field@, old(self).side() + 5), cube_span(old(self).side())),
                sweep(cube_own_fn(*tables, field@, old(self).side() + 5), cube_span(old(self).side())),
            ),
            indices_name(
                final(self).vertex_list(),
                final(self).triangles(),
                sweep(cube_corners_fn(*tables, field@, old(self).side() + 5), cube_span(old(self).side())),
            ),
    {
        let ghost sf = self.size + 5;
        let ghost f = cube_corners_fn(*tables, field@, sf);
        let ghost vf = cube_vertices_fn(field@, sf);
        let ghost of = cube_own_fn(*tables, field@, sf);
        proof {
            reveal(vertices_on_crossings);
        }
        if self.size <= 0 {
            assert(sweep(f, 0) =~= Seq::empty());
            assert(sweep(vf, 0) =~= Seq::empty());
            assert(sweep(of, 0) =~= Seq::empty());
            return;
        }
        let n: i32 = self.size;
        let ghost nn = n as nat;
        let line_size: usize = n as usize + 1;
        let s: usize = n as usize + 5;
        let flen = field.len();
        proof {
            assert(line_size * line_size <= s * s * s) by (nonlinear_arith)
                requires
                    line_size + 4 == s,
                    line_size >= 1,
            ;
        }
        assert((n + 1) * (n + 1) <= usize::MAX);
        let plane_size: usize = line_size * line_size;
        self.ybuf = vec![0; line_size];
        self.xbuf = vec![0; plane_size];
        self.zbuf = vec![0; plane_size];
        self.ybuf_next = vec![0; line_size];
        self.xbuf_top = vec![0; plane_size];
        self.zbuf_top = vec![0; plane_size];
        proof {
            reveal(caches_ok);
            lemma_prefix_start(f, nn);
            lemma_prefix_start(vf, nn);
            lemma_prefix_start(of, nn);
        }
        let mut y: i32 = 0;
        while y < n
            invariant
                0 <= y <= n,
                n == self.size,
                nn == n,
                sf == n + 5,
                s == n + 5,
                line_size == n + 1,
                (n + 1) * (n + 1) <= usize::MAX,
                f == cube_corners_fn(*tables, field@, sf),
                tables_wf(*tables),
                tables_consistent(*tables),
                field@.len() == sf * sf * sf,
                vertices_on_crossings(self.vertices@, field@, sf),
                caches_ok(self.vertices@, field@, sf, n as int, self.xbuf_top@, self.zbuf_top@, self.xbuf@, self.zbuf@, self.ybuf_next@, self.ybuf@, y as int, 0, 0),
                indices_name(self.vertices@, self.indices@, prefix(f, nn, y as nat, 0, 0)),
                vf == cube_vertices_fn(field@, sf),
                self.vertices@ == prefix(vf, nn, y as nat, 0, 0),
                of == cube_own_fn(*tables, field@, sf),
                indices_own(self.vertices@, self.indices@, prefix(f, nn, y as nat, 0, 0), prefix(of, nn, y as nat, 0, 0)),
            decreases n - y,
        {
            std::mem::swap(&mut self.xbuf, &mut self.xbuf_top);
            std::mem::swap(&mut self.zbuf, &mut self.zbuf_top);
            let mut z: i32 = 0;
            while z < n
                invariant
                    0 <= y < n,
                    0 <= z <= n,
                    n == self.size,
                    nn == n,
                    sf == n + 5,
                    s == n + 5,
                    line_size == n + 1,
                    (n + 1) * (n + 1) <= usize::MAX,
                    f == cube_corners_fn(*tables, field@, sf),
                    tables_wf(*tables),
                    tables_consistent(*tables),
                    field@.len() == sf * sf * sf,
                    vertices_on_crossings(self.vertices@, field@, sf),
                    caches_ok(self.vertices@, field@, sf, n as int, self.xbuf@, self.zbuf@, self.xbuf_top@, self.zbuf_top@, self.ybuf_next@, self.ybuf@, y as int, 0, z as int),
                    indices_name(self.vertices@, self.indices@, prefix(f, nn, y as nat, z as nat, 0)),
                    vf == cube_vertices_fn(field@, sf),
                    self.vertices@ == prefix(vf, nn, y as nat, z as nat, 0),
                    of == cube_own_fn(*tables, field@, sf),
                    indices_own(self.vertices@, self.indices@, prefix(f, nn, y as nat, z as nat, 0), prefix(of, nn, y as nat, z as nat, 0)),
                decreases n - z,
            {
                std::mem::swap(&mut self.ybuf, &mut self.ybuf_next);
                let mut x: i32 = 0;
                while x < n
                    invariant
                        0 <= y < n,
                        0 <= z < n,
                        0 <= x <= n,
                        n == self.size,
                        nn == n,
                        sf == n + 5,
                        s == n + 5,
                        line_size == n + 1,
                        (n + 1) * (n + 1) <= usize::MAX,
                        f == cube_corners_fn(*tables, field@, sf),
                        tables_wf(*tables),
                        tables_consistent(*tables),
                        field@.len() == sf * sf * sf,
                        self.ready(field@, y as int, x as int, z as int),
                        indices_name(self.vertices@, self.indices@, prefix(f, nn, y as nat, z as nat, x as nat)),
                        vf == cube_vertices_fn(field@, sf),
                        self.vertices@ == prefix(vf, nn, y as nat, z as nat, x as nat),
                        of == cube_own_fn(*tables, field@, sf),
                        indices_own(self.vertices@, self.indices@, prefix(f, nn, y as nat, z as nat, x as nat), prefix(of, nn, y as nat, z as nat, x as nat)),
                    decreases n - x,
                {
                    let xu = x as usize;
                    let yu = y as usize;
                    let zu = z as usize;
                    let corners: [bool; 8] = [
                        inside(field, s, xu, yu, zu),
                        inside(field, s, xu + 1, yu, zu),
                        inside(field, s, xu + 1, yu, zu + 1),
                        inside(field, s, xu, yu, zu + 1),
                        inside(field, s, xu, yu + 1, zu),
                        inside(field, s, xu + 1, yu + 1, zu),
                        inside(field, s, xu + 1, yu + 1, zu + 1),
                        inside(field, s, xu, yu + 1, zu + 1),
                    ];
                    let ghost p = (x as int, y as int, z as int);
                    assert forall|i: int| 0 <= i < 8 implies #[trigger] corners[i] == inside_at(field@, sf, add3(p, corner(i))) by {
                        if i == 0 {} else if i == 1 {} else if i == 2 {} else if i == 3 {}
                        else if i == 4 {} else if i == 5 {} else if i == 6 {} else {}
                    }
                    let ghost v0 = self.vertices@;
                    let ghost i0 = self.indices@;
                    self.cube([x, y, z], corners, tables, Ghost(field@));
                    proof {
                        lemma_prefix_step(vf, nn, y as nat, z as nat, x as nat);
                        assert([x, y, z] =~= [(x as int) as i32, (y as int) as i32, (z as int) as i32]);
                        lemma_prefix_step(f, nn, y as nat, z as nat, x as nat);
                        lemma_prefix_step(of, nn, y as nat, z as nat, x as nat);
                        let ce = cube_edges(*tables, field@, sf, p);
                        let add = f(y as int, z as int, x as int);
                        assert(add == ce.map_values(|e: usize| edge_key(p, e as int)));
                        lemma_indices_step(v0, self.vertices@, i0, self.indices@, prefix(f, nn, y as nat, z as nat, x as nat), add);
                        let oadd = of(y as int, z as int, x as int);
                        assert(oadd == ce.map_values(|e: usize| edge_vertex([x, y, z], e as int)));
                        lemma_cube_edges_crossed(*tables, field@, sf, p);
                        assert forall|m: int| 0 <= m < add.len() && on_bottom(add[m]) implies names_vertex(
                            self.vertices@,
                            #[trigger] self.indices@[i0.len() + m],
                            oadd[m],
                        ) by {
                            assert(add[m] == edge_key(p, ce[m] as int));
                            lemma_bottom_edge(p, ce[m] as int);
                        }
                        lemma_own_indices_step(v0, self.vertices@, i0, self.indices@, prefix(f, nn, y as nat, z as nat, x as nat), add, prefix(of, nn, y as nat, z as nat, x as nat), oadd);
                    }
                    x += 1;
                }
                proof {
                    reveal(caches_ok);
                    assert(self.ready(field@, y as int, n as int, z as int));
                    lemma_row_end(self.vertices@, field@, sf, n as int, self.xbuf@, self.zbuf@, self.xbuf_top@, self.zbuf_top@, self.ybuf@, self.ybuf_next@, y as int, z as int);
                    lemma_prefix_row_end(f, nn, y as nat, z as nat);
                    lemma_prefix_row_end(vf, nn, y as nat, z as nat);
                    lemma_prefix_row_end(of, nn, y as nat, z as nat);
                }
                z += 1;
            }
            proof {
                lemma_layer_end(self.vertices@, field@, sf, n as int, self.xbuf@, self.zbuf@, self.xbuf_top@, self.zbuf_top@, self.ybuf_next@, self.ybuf@, y as int);
                lemma_prefix_plane_end(f, nn, y as nat);
                lemma_prefix_plane_end(vf, nn, y as nat);
                lemma_prefix_plane_end(of, nn, y as nat);
            }
            y += 1;
        }
        proof {
            lemma_prefix_end(f, nn);
            lemma_prefix_end(vf, nn);
            lemma_prefix_end(of, nn);
        }
    }
}

/// How many cubes lie along each axis of a mesher of side `n`.
pub open spec fn cube_span(n: int) -> nat {
    if n > 0 {
        n as nat
    } else {
        0
    }
}

} // verus!
