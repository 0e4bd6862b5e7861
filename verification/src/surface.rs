//! The surface-net topology shared by `SurfNet` and the voxel `Chunk`:
//! one vertex per lattice cell whose eight corners are neither all solid nor
//! all empty, and a quad (two triangles) across every lattice edge whose two
//! ends differ, between the four cells around that edge.
use vstd::prelude::*;
use crate::lattice::{
    cross, lemma_cross_translate, unit, in_cube, lemma_prefix_plane_end, lemma_prefix_row_end, lemma_prefix_end, lemma_prefix_start, lemma_prefix_step,
    lemma_slot_bounds, lemma_slot_injective, lex_lt, prefix, slot, sweep, all_cells, lemma_sweep_all,
};
use crate::voxel_source::VoxelSource;

verus! {

/// `1` for `true`, `0` for `false`.
pub open spec fn b2i(b: bool) -> int {
    if b { 1 } else { 0 }
}

/// How many of the eight voxels around the lattice point `(x, y, z)` to
/// `(x + 1, y + 1, z + 1)` are solid.
pub open spec fn corner_count<S: VoxelSource>(src: S, x: int, y: int, z: int) -> int {
    b2i(src.solid(x, y, z)) + b2i(src.solid(x, y, z + 1)) + b2i(src.solid(x, y + 1, z))
        + b2i(src.solid(x, y + 1, z + 1)) + b2i(src.solid(x + 1, y, z)) + b2i(
        src.solid(x + 1, y, z + 1),
    ) + b2i(src.solid(x + 1, y + 1, z)) + b2i(src.solid(x + 1, y + 1, z + 1))
}

/// A vertex sits in the cell at `(x, y, z)` when its corners are mixed.
pub open spec fn is_vertex_cell<S: VoxelSource>(src: S, x: int, y: int, z: int) -> bool {
    0 < corner_count(src, x, y, z) < 8
}

/// The vertex (if any) contributed by one cell.
pub open spec fn vertex_cells<S: VoxelSource>(src: S) -> spec_fn(int, int, int) -> Seq<(i32, i32, i32)> {
    |x: int, y: int, z: int|
        if is_vertex_cell(src, x, y, z) {
            seq![(x as i32, y as i32, z as i32)]
        } else {
            Seq::empty()
        }
}

/// The number of vertices that come before the cell `(x, y, z)`.
pub open spec fn vertex_rank<S: VoxelSource>(src: S, n: int, x: int, y: int, z: int) -> int {
    prefix(vertex_cells(src), n as nat, x as nat, y as nat, z as nat).len() as int
}

/// The source answers `get` on every point of `[lo, hi]^3`.
pub open spec fn covers<S: VoxelSource>(src: S, lo: int, hi: int) -> bool {
    forall|x: int, y: int, z: int|
        lo <= x <= hi && lo <= y <= hi && lo <= z <= hi ==> #[trigger] src.defined_at(x, y, z)
}

/// A cube of side `n` whose slots all fit in an `i32`.
pub open spec fn cube_fits(n: int) -> bool {
    0 <= n && n * n * n <= 0x8000_0000
}

/// The vertex index stored for cell `(x, y, z)`, or `-1` outside the cube.
pub open spec fn index_at(map: Seq<i32>, n: int, x: int, y: int, z: int) -> int {
    if in_cube(n, x, y, z) {
        map[slot(n, x, y, z)] as int
    } else {
        -1
    }
}

/// The entry that building the vertices writes for cell `(a, b, c)`.
pub open spec fn map_entry<S: VoxelSource>(
    src: S,
    n: int,
    map0: Seq<i32>,
    base: int,
    a: int,
    b: int,
    c: int,
) -> i32 {
    if is_vertex_cell(src, a, b, c) {
        (base + vertex_rank(src, n, a, b, c)) as i32
    } else {
        map0[slot(n, a, b, c)]
    }
}

/// The state after the vertices of every cell before `(x, y, z)` were made.
#[verifier::opaque]
pub open spec fn built_upto<S: VoxelSource>(
    src: S,
    n: int,
    pos0: Seq<(i32, i32, i32)>,
    map0: Seq<i32>,
    positions: Seq<(i32, i32, i32)>,
    map: Seq<i32>,
    x: int,
    y: int,
    z: int,
) -> bool {
    &&& map.len() == map0.len() == n * n * n
    &&& positions == pos0 + prefix(vertex_cells(src), n as nat, x as nat, y as nat, z as nat)
    &&& forall|a: int, b: int, c: int|
        #![trigger slot(n, a, b, c)]
        in_cube(n, a, b, c) ==> map[slot(n, a, b, c)] == (if lex_lt(a, b, c, x, y, z) {
            map_entry(src, n, map0, pos0.len() as int, a, b, c)
        } else {
            map0[slot(n, a, b, c)]
        })
    &&& forall|a: int, b: int, c: int|
        #![trigger vertex_rank(src, n, a, b, c)]
        in_cube(n, a, b, c) && lex_lt(a, b, c, x, y, z) && is_vertex_cell(src, a, b, c) ==> {
            &&& pos0.len() + vertex_rank(src, n, a, b, c) < positions.len()
            &&& positions[pos0.len() + vertex_rank(src, n, a, b, c)] == (a as i32, b as i32, c as i32)
        }
    &&& forall|k: int|
        #![trigger positions[k]]
        pos0.len() <= k < positions.len() ==> {
            let p = positions[k];
            &&& in_cube(n, p.0 as int, p.1 as int, p.2 as int)
            &&& is_vertex_cell(src, p.0 as int, p.1 as int, p.2 as int)
            &&& lex_lt(p.0 as int, p.1 as int, p.2 as int, x, y, z)
            &&& vertex_rank(src, n, p.0 as int, p.1 as int, p.2 as int) == k - pos0.len()
        }
}

proof fn lemma_built_start<S: VoxelSource>(
    src: S,
    n: int,
    pos0: Seq<(i32, i32, i32)>,
    map0: Seq<i32>,
)
    requires
        0 <= n,
        map0.len() == n * n * n,
    ensures
        built_upto(src, n, pos0, map0, pos0, map0, 0, 0, 0),
{
    reveal(built_upto);
    lemma_prefix_start(vertex_cells(src), n as nat);
    assert(pos0 + prefix(vertex_cells(src), n as nat, 0, 0, 0) =~= pos0);
}

proof fn lemma_built_row_end<S: VoxelSource>(
    src: S,
    n: int,
    pos0: Seq<(i32, i32, i32)>,
    map0: Seq<i32>,
    positions: Seq<(i32, i32, i32)>,
    map: Seq<i32>,
    x: int,
    y: int,
)
    requires
        0 <= x,
        0 <= y,
        0 <= n,
        built_upto(src, n, pos0, map0, positions, map, x, y, n),
    ensures
        built_upto(src, n, pos0, map0, positions, map, x, y + 1, 0),
{
    reveal(built_upto);
    lemma_prefix_row_end(vertex_cells(src), n as nat, x as nat, y as nat);
    assert(((y + 1) as nat) == (y as nat) + 1);
}

proof fn lemma_built_plane_end<S: VoxelSource>(
    src: S,
    n: int,
    pos0: Seq<(i32, i32, i32)>,
    map0: Seq<i32>,
    positions: Seq<(i32, i32, i32)>,
    map: Seq<i32>,
    x: int,
)
    requires
        0 <= x,
        0 <= n,
        built_upto(src, n, pos0, map0, positions, map, x, n, 0),
    ensures
        built_upto(src, n, pos0, map0, positions, map, x + 1, 0, 0),
{
    reveal(built_upto);
    lemma_prefix_plane_end(vertex_cells(src), n as nat, x as nat);
    assert(((x + 1) as nat) == (x as nat) + 1);
}

proof fn lemma_built_step<S: VoxelSource>(
    src: S,
    n: int,
    pos0: Seq<(i32, i32, i32)>,
    map0: Seq<i32>,
    positions: Seq<(i32, i32, i32)>,
    map: Seq<i32>,
    positions2: Seq<(i32, i32, i32)>,
    map2: Seq<i32>,
    x: int,
    y: int,
    z: int,
)
    requires
        in_cube(n, x, y, z),
        n <= i32::MAX,
        built_upto(src, n, pos0, map0, positions, map, x, y, z),
        positions2 == positions + vertex_cells(src)(x, y, z),
        map2 == (if is_vertex_cell(src, x, y, z) {
            map.update(slot(n, x, y, z), positions.len() as i32)
        } else {
            map
        }),
    ensures
        built_upto(src, n, pos0, map0, positions2, map2, x, y, z + 1),
{
    reveal(built_upto);
    let f = vertex_cells(src);
    lemma_prefix_step(f, n as nat, x as nat, y as nat, z as nat);
    assert(((z + 1) as nat) == (z as nat) + 1);
    let base = pos0.len() as int;
    assert(positions2 == pos0 + prefix(f, n as nat, x as nat, y as nat, (z + 1) as nat)) by {
        assert(pos0 + (prefix(f, n as nat, x as nat, y as nat, z as nat) + f(x, y, z))
            =~= pos0 + prefix(f, n as nat, x as nat, y as nat, z as nat) + f(x, y, z));
    }
    assert(vertex_rank(src, n, x, y, z) == positions.len() - base);
    lemma_slot_bounds(n, x, y, z);
    assert forall|a: int, b: int, c: int|
        #![trigger slot(n, a, b, c)]
        in_cube(n, a, b, c) implies map2[slot(n, a, b, c)] == (if lex_lt(a, b, c, x, y, z + 1) {
            map_entry(src, n, map0, base, a, b, c)
        } else {
            map0[slot(n, a, b, c)]
        }) by {
        lemma_slot_bounds(n, a, b, c);
        if a == x && b == y && c == z {
        } else {
            if slot(n, a, b, c) == slot(n, x, y, z) {
                lemma_slot_injective(n, x, y, z, a, b, c);
            }
        }
    }
    assert forall|a: int, b: int, c: int|
        #![trigger vertex_rank(src, n, a, b, c)]
        in_cube(n, a, b, c) && lex_lt(a, b, c, x, y, z + 1) && is_vertex_cell(src, a, b, c) implies {
            &&& base + vertex_rank(src, n, a, b, c) < positions2.len()
            &&& positions2[base + vertex_rank(src, n, a, b, c)] == (a as i32, b as i32, c as i32)
        } by {
        if a == x && b == y && c == z {
        } else {
            assert(lex_lt(a, b, c, x, y, z));
        }
    }
    assert forall|k: int|
        #![trigger positions2[k]]
        base <= k < positions2.len() implies {
            let p = positions2[k];
            &&& in_cube(n, p.0 as int, p.1 as int, p.2 as int)
            &&& is_vertex_cell(src, p.0 as int, p.1 as int, p.2 as int)
            &&& lex_lt(p.0 as int, p.1 as int, p.2 as int, x, y, z + 1)
            &&& vertex_rank(src, n, p.0 as int, p.1 as int, p.2 as int) == k - base
        } by {
        if k < positions.len() {
            assert(positions2[k] == positions[k]);
        } else {
            assert(positions2[k] == (x as i32, y as i32, z as i32));
        }
    }
}

/// The storage slot of a cell, computed in `i32`.
pub fn slot_of(n: i32, x: i32, y: i32, z: i32) -> (s: i32)
    requires
        in_cube(n as int, x as int, y as int, z as int),
        cube_fits(n as int),
    ensures
        s as int == slot(n as int, x as int, y as int, z as int),
        0 <= s < n * n * n,
{
    proof {
        lemma_slot_bounds(n as int, x as int, y as int, z as int);
        assert(0 <= y * n <= x + y * n + z * n * n) by (nonlinear_arith)
            requires
                0 <= x,
                0 <= y,
                0 <= z,
                0 < n,
        ;
        assert(0 <= z * n <= z * n * n <= x + y * n + z * n * n) by (nonlinear_arith)
            requires
                0 <= x,
                0 <= y,
                0 <= z,
                0 < n,
        ;
    }
    x + y * n + z * n * n
}

/// Looks up the vertex index stored for `(x, y, z)`; `-1` outside the cube.
pub fn lookup(map: &Vec<i32>, n: i32, x: i32, y: i32, z: i32) -> (r: i32)
    requires
        cube_fits(n as int),
        map@.len() == n * n * n,
    ensures
        r as int == index_at(map@, n as int, x as int, y as int, z as int),
{
    if x >= 0 && y >= 0 && z >= 0 && x < n && y < n && z < n {
        let i = slot_of(n, x, y, z);
        map[i as usize]
    } else {
        -1
    }
}

/// The vertex map of a lattice of side `n` and the vertex cells agree:
/// the entry of a cell is `i >= 0` exactly when vertex `i` sits in that cell,
/// and `-1` exactly when no vertex does (so also outside the lattice).
pub open spec fn map_matches(cells: Seq<(i32, i32, i32)>, map: Seq<i32>, n: int) -> bool {
    &&& map.len() == n * n * n
    &&& forall|i: int|
        #![trigger cells[i]]
        0 <= i < cells.len() ==> {
            &&& in_cube(n, cells[i].0 as int, cells[i].1 as int, cells[i].2 as int)
            &&& index_at(map, n, cells[i].0 as int, cells[i].1 as int, cells[i].2 as int) == i
        }
    &&& forall|x: int, y: int, z: int|
        #![trigger index_at(map, n, x, y, z)]
        in_cube(n, x, y, z) ==> {
            ||| index_at(map, n, x, y, z) == -1
            ||| {
                &&& 0 <= index_at(map, n, x, y, z) < cells.len()
                &&& cells[index_at(map, n, x, y, z)] == (x as i32, y as i32, z as i32)
            }
        }
}

/// What agreeing map and cells give: the entry at `(x, y, z)` is `i >= 0`
/// exactly when vertex `i` sits there, and `-1` exactly when no vertex does.
pub proof fn lemma_map_matches_index(cells: Seq<(i32, i32, i32)>, map: Seq<i32>, n: int, x: int, y: int, z: int, i: int)
    requires
        map_matches(cells, map, n),
        cube_fits(n),
        0 <= i < cells.len(),
    ensures
        (index_at(map, n, x, y, z) == i) <==> (cells[i] == (x as i32, y as i32, z as i32) && in_cube(n, x, y, z)),
        (index_at(map, n, x, y, z) == -1) <==> (forall|j: int|
            0 <= j < cells.len() ==> !(#[trigger] cells[j] == (x as i32, y as i32, z as i32) && in_cube(n, x, y, z))),
{
    let c = cells[i];
    assert(in_cube(n, c.0 as int, c.1 as int, c.2 as int));
    if in_cube(n, x, y, z) {
        assert(n <= 0x8000_0000) by (nonlinear_arith)
            requires
                0 <= n,
                n * n * n <= 0x8000_0000,
        ;
        let e = index_at(map, n, x, y, z);
        if e != -1 {
            assert(0 <= e < cells.len() && cells[e] == (x as i32, y as i32, z as i32));
        }
        assert forall|j: int| 0 <= j < cells.len() && #[trigger] cells[j] == (x as i32, y as i32, z as i32) implies e == j by {
            let d = cells[j];
            assert(in_cube(n, d.0 as int, d.1 as int, d.2 as int));
            assert(d.0 as int == x && d.1 as int == y && d.2 as int == z);
        }
        if cells[i] == (x as i32, y as i32, z as i32) {
            assert(e == i);
        }
    } else {
        assert forall|j: int| 0 <= j < cells.len() implies !(#[trigger] cells[j] == (x as i32, y as i32, z as i32) && in_cube(n, x, y, z)) by {}
    }
}

/// Agreeing with a map of a lattice that fits in an `i32`, the cells are
/// fewer than 2^31: they are distinct cells of the lattice, and no cube
/// side gives exactly 2^31 cells.
pub proof fn lemma_map_matches_len(cells: Seq<(i32, i32, i32)>, map: Seq<i32>, n: int)
    requires
        map_matches(cells, map, n),
        cube_fits(n),
    ensures
        cells.len() <= n * n * n,
        cells.len() < 0x8000_0000,
{
    let l = cells.len() as int;
    let f = |i: int| slot(n, cells[i].0 as int, cells[i].1 as int, cells[i].2 as int);
    let dom = vstd::set_lib::set_int_range(0, l);
    let img = dom.map(f);
    vstd::set_lib::lemma_int_range(0, l);
    assert(n * n * n >= 0) by (nonlinear_arith)
        requires
            0 <= n,
    ;
    vstd::set_lib::lemma_int_range(0, n * n * n);
    assert forall|i1: int, i2: int| dom.contains(i1) && dom.contains(i2) && #[trigger] f(i1) == #[trigger] f(i2) implies i1 == i2 by {
        let c1 = cells[i1];
        let c2 = cells[i2];
        assert(index_at(map, n, c1.0 as int, c1.1 as int, c1.2 as int) == i1);
        assert(index_at(map, n, c2.0 as int, c2.1 as int, c2.2 as int) == i2);
    }
    vstd::set_lib::lemma_map_size(dom, img, f);
    assert forall|k: int| img.contains(k) implies vstd::set_lib::set_int_range(0, n * n * n).contains(k) by {
        let i = choose|i: int| dom.contains(i) && k == f(i);
        let c = cells[i];
        lemma_slot_bounds(n, c.0 as int, c.1 as int, c.2 as int);
    }
    vstd::set_lib::lemma_len_subset(img, vstd::set_lib::set_int_range(0, n * n * n));
    if n <= 1290 {
        assert(n * n * n <= 1290 * 1290 * 1290) by (nonlinear_arith)
            requires
                0 <= n <= 1290,
        ;
    } else {
        assert(n * n * n >= 1291 * 1291 * 1291) by (nonlinear_arith)
            requires
                n >= 1291,
        ;
    }
}

/// A blank map agrees with no cells.
pub proof fn law_blank_map_matches(n: int)
    requires
        0 <= n,
    ensures
        map_matches(Seq::empty(), blank_map(n), n),
{
    assert(n * n * n >= 0) by (nonlinear_arith)
        requires
            0 <= n,
    ;
    assert forall|x: int, y: int, z: int| in_cube(n, x, y, z) implies #[trigger] index_at(blank_map(n), n, x, y, z) == -1 by {
        lemma_slot_bounds(n, x, y, z);
    }
}

/// Making the vertex of a cell not made before keeps the vertex map and the
/// cells in agreement, whatever the order in which the cells are taken: the
/// step of `create_vertex` appends the cell if it has a vertex and records
/// its index in the map.
pub proof fn law_vertex_step_keeps_map<S: VoxelSource>(
    src: S,
    n: int,
    cells: Seq<(i32, i32, i32)>,
    map: Seq<i32>,
    x: int,
    y: int,
    z: int,
)
    requires
        map_matches(cells, map, n),
        cube_fits(n),
        in_cube(n, x, y, z),
        index_at(map, n, x, y, z) == -1,
    ensures
        map_matches(
            cells + vertex_cells(src)(x, y, z),
            if is_vertex_cell(src, x, y, z) {
                map.update(slot(n, x, y, z), cells.len() as i32)
            } else {
                map
            },
            n,
        ),
{
    lemma_map_matches_len(cells, map, n);
    if is_vertex_cell(src, x, y, z) {
        let sp = slot(n, x, y, z);
        let l = cells.len() as int;
        let cells2 = cells + vertex_cells(src)(x, y, z);
        let map2 = map.update(sp, l as i32);
        lemma_slot_bounds(n, x, y, z);
        assert(cells2 == cells.push((x as i32, y as i32, z as i32)));
        assert(n <= 0x8000_0000) by (nonlinear_arith)
            requires
                0 < n,
                n * n * n <= 0x8000_0000,
        ;
        assert forall|i: int| #![trigger cells2[i]] 0 <= i < cells2.len() implies {
            &&& in_cube(n, cells2[i].0 as int, cells2[i].1 as int, cells2[i].2 as int)
            &&& index_at(map2, n, cells2[i].0 as int, cells2[i].1 as int, cells2[i].2 as int) == i
        } by {
            if i < l {
                let c = cells[i];
                assert(cells2[i] == c);
                assert(index_at(map, n, c.0 as int, c.1 as int, c.2 as int) == i);
                lemma_slot_bounds(n, c.0 as int, c.1 as int, c.2 as int);
                if slot(n, c.0 as int, c.1 as int, c.2 as int) == sp {
                    lemma_slot_injective(n, c.0 as int, c.1 as int, c.2 as int, x, y, z);
                }
            } else {
                assert(cells2[i] == (x as i32, y as i32, z as i32));
            }
        }
        assert forall|a: int, b: int, c: int| #![trigger index_at(map2, n, a, b, c)] in_cube(n, a, b, c) implies {
            ||| index_at(map2, n, a, b, c) == -1
            ||| {
                &&& 0 <= index_at(map2, n, a, b, c) < cells2.len()
                &&& cells2[index_at(map2, n, a, b, c)] == (a as i32, b as i32, c as i32)
            }
        } by {
            lemma_slot_bounds(n, a, b, c);
            if a == x && b == y && c == z {
            } else {
                if slot(n, a, b, c) == sp {
                    lemma_slot_injective(n, a, b, c, x, y, z);
                }
                assert(index_at(map2, n, a, b, c) == index_at(map, n, a, b, c));
                let e = index_at(map, n, a, b, c);
                if e != -1 {
                    assert(cells2[e] == cells[e]);
                }
            }
        }
    } else {
        assert(cells + vertex_cells(src)(x, y, z) =~= cells);
    }
}

/// Adds the vertex of cell `(x, y, z)`, if it has one.
fn create_vertex<S: VoxelSource>(
    src: &S,
    n: i32,
    x: i32,
    y: i32,
    z: i32,
    positions: &mut Vec<(i32, i32, i32)>,
    map: &mut Vec<i32>,
)
    requires
        in_cube(n as int, x as int, y as int, z as int),
        cube_fits(n as int),
        covers(*src, 0, n as int),
        old(map)@.len() == n * n * n,
    ensures
        final(positions)@ == old(positions)@ + vertex_cells(*src)(x as int, y as int, z as int),
        final(map)@ == (if is_vertex_cell(*src, x as int, y as int, z as int) {
            old(map)@.update(slot(n as int, x as int, y as int, z as int), old(positions)@.len() as i32)
        } else {
            old(map)@
        }),
        map_matches(old(positions)@, old(map)@, n as int) && index_at(old(map)@, n as int, x as int, y as int, z as int)
            == -1 ==> map_matches(final(positions)@, final(map)@, n as int),
{
    proof {
        if map_matches(old(positions)@, old(map)@, n as int) && index_at(old(map)@, n as int, x as int, y as int, z as int)
            == -1 {
            law_vertex_step_keeps_map(*src, n as int, old(positions)@, old(map)@, x as int, y as int, z as int);
        }
    }
    let mut count: u8 = 0;
    if src.get(x, y, z) {
        count += 1;
    }
    if src.get(x, y, z + 1) {
        count += 1;
    }
    if src.get(x, y + 1, z) {
        count += 1;
    }
    if src.get(x, y + 1, z + 1) {
        count += 1;
    }
    if src.get(x + 1, y, z) {
        count += 1;
    }
    if src.get(x + 1, y, z + 1) {
        count += 1;
    }
    if src.get(x + 1, y + 1, z) {
        count += 1;
    }
    if src.get(x + 1, y + 1, z + 1) {
        count += 1;
    }
    assert(count as int == corner_count(*src, x as int, y as int, z as int));
    if count > 0 && count < 8 {
        let ix = slot_of(n, x, y, z);
        let index = positions.len();
        map.set(ix as usize, index as i32);
        positions.push((x, y, z));
        assert(positions@ =~= old(positions)@ + vertex_cells(*src)(x as int, y as int, z as int));
    } else {
        assert(positions@ =~= old(positions)@ + vertex_cells(*src)(x as int, y as int, z as int));
    }
}

/// Makes the vertex of every cell of `[0, n)^3`, appending to `positions`
/// and recording in `map` the index of the vertex of each cell.
pub fn build_vertices<S: VoxelSource>(
    src: &S,
    n: i32,
    positions: &mut Vec<(i32, i32, i32)>,
    map: &mut Vec<i32>,
)
    requires
        cube_fits(n as int),
        covers(*src, 0, n as int),
        old(map)@.len() == n * n * n,
    ensures
        built_upto(*src, n as int, old(positions)@, old(map)@, final(positions)@, final(map)@, n as int, 0, 0),
        final(map)@.len() == old(map)@.len(),
        final(positions)@ == old(positions)@ + sweep(vertex_cells(*src), n as nat),
        old(positions)@.len() == 0 && (forall|i: int| 0 <= i < old(map)@.len() ==> #[trigger] old(map)@[i] == -1)
            ==> map_matches(final(positions)@, final(map)@, n as int),
        forall|a: int, b: int, c: int|
            in_cube(n as int, a, b, c) ==> #[trigger] final(map)@[slot(n as int, a, b, c)] == map_entry(
                *src,
                n as int,
                old(map)@,
                old(positions)@.len() as int,
                a,
                b,
                c,
            ),
{
    let ghost pos0 = positions@;
    let ghost map0 = map@;
    let ghost blank0 = pos0.len() == 0 && (forall|i: int| 0 <= i < map0.len() ==> #[trigger] map0[i] == -1);
    proof {
        lemma_built_start(*src, n as int, pos0, map0);
        if blank0 {
            assert(0 <= n);
            law_blank_map_matches(n as int);
            assert(map0 =~= blank_map(n as int));
            assert(pos0 =~= Seq::<(i32, i32, i32)>::empty());
        }
    }
    let mut x: i32 = 0;
    while x < n
        invariant
            0 <= x <= n,
            cube_fits(n as int),
            covers(*src, 0, n as int),
            built_upto(*src, n as int, pos0, map0, positions@, map@, x as int, 0, 0),
            map@.len() == n * n * n,
            blank0 == (pos0.len() == 0 && (forall|i: int| 0 <= i < map0.len() ==> #[trigger] map0[i] == -1)),
            blank0 ==> map_matches(positions@, map@, n as int),
        decreases n - x,
    {
        let mut y: i32 = 0;
        while y < n
            invariant
                0 <= x < n,
                0 <= y <= n,
                cube_fits(n as int),
                covers(*src, 0, n as int),
                built_upto(*src, n as int, pos0, map0, positions@, map@, x as int, y as int, 0),
                map@.len() == n * n * n,
                blank0 == (pos0.len() == 0 && (forall|i: int| 0 <= i < map0.len() ==> #[trigger] map0[i] == -1)),
                blank0 ==> map_matches(positions@, map@, n as int),
            decreases n - y,
        {
            let mut z: i32 = 0;
            while z < n
                invariant
                    0 <= x < n,
                    0 <= y < n,
                    0 <= z <= n,
                    cube_fits(n as int),
                    covers(*src, 0, n as int),
                    built_upto(*src, n as int, pos0, map0, positions@, map@, x as int, y as int, z as int),
                    map@.len() == n * n * n,
                    blank0 == (pos0.len() == 0 && (forall|i: int| 0 <= i < map0.len() ==> #[trigger] map0[i] == -1)),
                    blank0 ==> map_matches(positions@, map@, n as int),
                decreases n - z,
            {
                let ghost p1 = positions@;
                let ghost m1 = map@;
                proof {
                    if blank0 {
                        lemma_slot_bounds(n as int, x as int, y as int, z as int);
                        assert(index_at(m1, n as int, x as int, y as int, z as int) == -1) by {
                            reveal(built_upto);
                            assert(!lex_lt(x as int, y as int, z as int, x as int, y as int, z as int));
                            assert(m1[slot(n as int, x as int, y as int, z as int)] == map0[slot(n as int, x as int, y as int, z as int)]);
                        }
                    }
                }
                create_vertex(src, n, x, y, z, positions, map);
                proof {
                    lemma_slot_bounds(n as int, x as int, y as int, z as int);
                    lemma_built_step(*src, n as int, pos0, map0, p1, m1, positions@, map@, x as int, y as int, z as int);
                }
                z = z + 1;
            }
            proof {
                lemma_built_row_end(*src, n as int, pos0, map0, positions@, map@, x as int, y as int);
            }
            y = y + 1;
        }
        proof {
            lemma_built_plane_end(*src, n as int, pos0, map0, positions@, map@, x as int);
        }
        x = x + 1;
    }
    proof {
        reveal(built_upto);
        lemma_prefix_end(vertex_cells(*src), n as nat);
        assert forall|a: int, b: int, c: int|
            in_cube(n as int, a, b, c) implies #[trigger] map@[slot(n as int, a, b, c)] == map_entry(
                *src,
                n as int,
                map0,
                pos0.len() as int,
                a,
                b,
                c,
            ) by {
            assert(lex_lt(a, b, c, n as int, 0, 0));
        }
    }
}

/// The four corner offsets of a quad, as integers.
pub open spec fn offsets_of(offs: [[i32; 3]; 4]) -> Seq<(int, int, int)> {
    Seq::new(4, |j: int| (offs[j][0] as int, offs[j][1] as int, offs[j][2] as int))
}

/// The quads that can be made around a lattice edge: across the x, y and z
/// axis edges from `(x + 1, y + 1, z + 1)`.
pub open spec fn orientation(k: int) -> Seq<(int, int, int)> {
    if k == 0 {
        seq![(0, 0, 0), (0, 1, 0), (0, 0, 1), (0, 1, 1)]
    } else if k == 1 {
        seq![(0, 0, 0), (0, 0, 1), (1, 0, 0), (1, 0, 1)]
    } else {
        seq![(0, 0, 0), (1, 0, 0), (0, 1, 0), (1, 1, 0)]
    }
}

/// Which quad corners make the two triangles, by the sign of the far voxel.
pub open spec fn winding(neg: bool) -> Seq<int> {
    if neg {
        seq![0, 1, 2, 2, 1, 3]
    } else {
        seq![2, 1, 0, 3, 1, 2]
    }
}

/// The vertex index at corner `j` of quad `q` around `(x, y, z)`.
pub open spec fn quad_corner(
    map: Seq<i32>,
    n: int,
    x: int,
    y: int,
    z: int,
    q: Seq<(int, int, int)>,
    j: int,
) -> int {
    index_at(map, n, x + q[j].0, y + q[j].1, z + q[j].2)
}

/// The six indices that quad `q` around `(x, y, z)` adds: none unless the
/// four cells all have vertices and the two ends of the edge differ.
pub open spec fn quad_faces<S: VoxelSource>(
    src: S,
    map: Seq<i32>,
    n: int,
    x: int,
    y: int,
    z: int,
    q: Seq<(int, int, int)>,
) -> Seq<u16> {
    if quad_corner(map, n, x, y, z, q, 0) > -1 && quad_corner(map, n, x, y, z, q, 1) > -1
        && quad_corner(map, n, x, y, z, q, 2) > -1 && quad_corner(map, n, x, y, z, q, 3) > -1 {
        let pos = src.solid(x + 1, y + 1, z + 1);
        let neg = src.solid(x + q[3].0, y + q[3].1, z + q[3].2);
        if pos != neg {
            Seq::new(6, |k: int| quad_corner(map, n, x, y, z, q, winding(neg)[k]) as u16)
        } else {
            Seq::empty()
        }
    } else {
        Seq::empty()
    }
}

/// The triangles of one cell: the three quads in order.
pub open spec fn cell_faces<S: VoxelSource>(src: S, map: Seq<i32>, n: int) -> spec_fn(int, int, int) -> Seq<u16> {
    |x: int, y: int, z: int|
        quad_faces(src, map, n, x, y, z, orientation(0)) + quad_faces(src, map, n, x, y, z, orientation(1))
            + quad_faces(src, map, n, x, y, z, orientation(2))
}

/// The side of the cube of cells that `connect_faces` visits.
pub open spec fn face_side(n: int) -> nat {
    if n > 0 { (n - 1) as nat } else { 0 }
}

/// Appends the triangles of quad `offs` around `(x, y, z)`.
fn connect_faces<S: VoxelSource>(
    src: &S,
    map: &Vec<i32>,
    n: i32,
    x: i32,
    y: i32,
    z: i32,
    offs: [[i32; 3]; 4],
    indices: &mut Vec<u16>,
)
    requires
        cube_fits(n as int),
        map@.len() == n * n * n,
        covers(*src, 0, n as int),
        in_cube(n - 1, x as int, y as int, z as int),
        forall|j: int, d: int| 0 <= j < 4 && 0 <= d < 3 ==> 0 <= #[trigger] offs[j][d] <= 1,
    ensures
        final(indices)@ == old(indices)@ + quad_faces(*src, map@, n as int, x as int, y as int, z as int, offsets_of(offs)),
{
    let ghost q = offsets_of(offs);
    let mut vertices: u8 = 0;
    let mut j: usize = 0;
    while j < 4
        invariant
            0 <= j <= 4,
            q == offsets_of(offs),
            cube_fits(n as int),
            map@.len() == n * n * n,
            in_cube(n - 1, x as int, y as int, z as int),
            forall|j: int, d: int| 0 <= j < 4 && 0 <= d < 3 ==> 0 <= #[trigger] offs[j][d] <= 1,
            vertices <= j,
            (vertices == j) == (forall|i: int| 0 <= i < j ==> #[trigger] quad_corner(map@, n as int, x as int, y as int, z as int, q, i) > -1),
        decreases 4 - j,
    {
        let off = offs[j];
        assert(0 <= off[0] <= 1 && 0 <= off[1] <= 1 && 0 <= off[2] <= 1);
        let v = lookup(map, n, x + off[0], y + off[1], z + off[2]);
        assert(v as int == quad_corner(map@, n as int, x as int, y as int, z as int, q, j as int));
        if v > -1 {
            vertices += 1;
        }
        j += 1;
    }
    let ghost all = quad_corner(map@, n as int, x as int, y as int, z as int, q, 0) > -1
        && quad_corner(map@, n as int, x as int, y as int, z as int, q, 1) > -1
        && quad_corner(map@, n as int, x as int, y as int, z as int, q, 2) > -1
        && quad_corner(map@, n as int, x as int, y as int, z as int, q, 3) > -1;
    assert((vertices == 4) == all);
    if vertices == 4 {
        let pos = src.get(x + 1, y + 1, z + 1);
        let p = offs[3];
        assert(0 <= p[0] <= 1 && 0 <= p[1] <= 1 && 0 <= p[2] <= 1);
        let neg = src.get(x + p[0], y + p[1], z + p[2]);
        if pos != neg {
            let o: [usize; 6] = if neg { [0, 1, 2, 2, 1, 3] } else { [2, 1, 0, 3, 1, 2] };
            assert(o@ =~= winding(neg).map_values(|v: int| v as usize));
            let ghost start = indices@;
            let mut i: usize = 0;
            while i < 6
                invariant
                    0 <= i <= 6,
                    q == offsets_of(offs),
                    cube_fits(n as int),
                    map@.len() == n * n * n,
                    in_cube(n - 1, x as int, y as int, z as int),
                    forall|j: int, d: int| 0 <= j < 4 && 0 <= d < 3 ==> 0 <= #[trigger] offs[j][d] <= 1,
                    o@ =~= winding(neg).map_values(|v: int| v as usize),
                    indices@ == start + Seq::new(i as nat, |k: int| quad_corner(map@, n as int, x as int, y as int, z as int, q, winding(neg)[k]) as u16),
                decreases 6 - i,
            {
                let ii = o[i];
                let off = offs[ii];
                assert(0 <= off[0] <= 1 && 0 <= off[1] <= 1 && 0 <= off[2] <= 1);
                let v = lookup(map, n, x + off[0], y + off[1], z + off[2]);
                indices.push(v as u16);
                assert(indices@ =~= start + Seq::new((i + 1) as nat, |k: int| quad_corner(map@, n as int, x as int, y as int, z as int, q, winding(neg)[k]) as u16));
                i += 1;
            }
        } else {
            assert(indices@ =~= old(indices)@ + quad_faces(*src, map@, n as int, x as int, y as int, z as int, q));
        }
    } else {
        assert(indices@ =~= old(indices)@ + quad_faces(*src, map@, n as int, x as int, y as int, z as int, q));
    }
}

/// Appends the triangles of the three quads of cell `(x, y, z)`.
fn connect_cell<S: VoxelSource>(
    src: &S,
    map: &Vec<i32>,
    n: i32,
    x: i32,
    y: i32,
    z: i32,
    o0: [[i32; 3]; 4],
    o1: [[i32; 3]; 4],
    o2: [[i32; 3]; 4],
    indices: &mut Vec<u16>,
)
    requires
        cube_fits(n as int),
        map@.len() == n * n * n,
        covers(*src, 0, n as int),
        in_cube(n - 1, x as int, y as int, z as int),
        offsets_of(o0) == orientation(0),
        offsets_of(o1) == orientation(1),
        offsets_of(o2) == orientation(2),
        o0 == [[0i32, 0, 0], [0, 1, 0], [0, 0, 1], [0, 1, 1]],
        o1 == [[0i32, 0, 0], [0, 0, 1], [1, 0, 0], [1, 0, 1]],
        o2 == [[0i32, 0, 0], [1, 0, 0], [0, 1, 0], [1, 1, 0]],
    ensures
        final(indices)@ == old(indices)@ + cell_faces(*src, map@, n as int)(x as int, y as int, z as int),
{
    connect_faces(src, map, n, x, y, z, o0, indices);
    connect_faces(src, map, n, x, y, z, o1, indices);
    connect_faces(src, map, n, x, y, z, o2, indices);
    assert(final(indices)@ =~= old(indices)@ + cell_faces(*src, map@, n as int)(x as int, y as int, z as int));
}

/// Makes the triangles of every cell of `[0, n - 1)^3`, appending them to
/// `indices`.
pub fn build_faces<S: VoxelSource>(src: &S, map: &Vec<i32>, n: i32, indices: &mut Vec<u16>)
    requires
        cube_fits(n as int),
        map@.len() == n * n * n,
        covers(*src, 0, n as int),
    ensures
        final(indices)@ == old(indices)@ + sweep(cell_faces(*src, map@, n as int), face_side(n as int)),
{
    let ghost f = cell_faces(*src, map@, n as int);
    let ghost m = face_side(n as int);
    let ghost idx0 = indices@;
    let o0: [[i32; 3]; 4] = [[0, 0, 0], [0, 1, 0], [0, 0, 1], [0, 1, 1]];
    let o1: [[i32; 3]; 4] = [[0, 0, 0], [0, 0, 1], [1, 0, 0], [1, 0, 1]];
    let o2: [[i32; 3]; 4] = [[0, 0, 0], [1, 0, 0], [0, 1, 0], [1, 1, 0]];
    assert(offsets_of(o0) =~= orientation(0));
    assert(offsets_of(o1) =~= orientation(1));
    assert(offsets_of(o2) =~= orientation(2));
    proof {
        lemma_prefix_start(f, m);
        assert(indices@ =~= idx0 + prefix(f, m, 0, 0, 0));
    }
    let last = if n > 0 { n - 1 } else { 0 };
    let mut x: i32 = 0;
    while x < last
        invariant
            0 <= x <= last,
            last as int == m,
            last == (if n > 0 { n - 1 } else { 0 }),
            f == cell_faces(*src, map@, n as int),
            cube_fits(n as int),
            map@.len() == n * n * n,
            covers(*src, 0, n as int),
            offsets_of(o0) == orientation(0),
            offsets_of(o1) == orientation(1),
            offsets_of(o2) == orientation(2),
            o0 == [[0i32, 0, 0], [0, 1, 0], [0, 0, 1], [0, 1, 1]],
            o1 == [[0i32, 0, 0], [0, 0, 1], [1, 0, 0], [1, 0, 1]],
            o2 == [[0i32, 0, 0], [1, 0, 0], [0, 1, 0], [1, 1, 0]],
            indices@ == idx0 + prefix(f, m, x as nat, 0, 0),
        decreases last - x,
    {
        let mut y: i32 = 0;
        while y < last
            invariant
                0 <= x < last,
                0 <= y <= last,
                last as int == m,
                last == (if n > 0 { n - 1 } else { 0 }),
                f == cell_faces(*src, map@, n as int),
                cube_fits(n as int),
                map@.len() == n * n * n,
                covers(*src, 0, n as int),
                offsets_of(o0) == orientation(0),
                offsets_of(o1) == orientation(1),
                offsets_of(o2) == orientation(2),
                o0 == [[0i32, 0, 0], [0, 1, 0], [0, 0, 1], [0, 1, 1]],
                o1 == [[0i32, 0, 0], [0, 0, 1], [1, 0, 0], [1, 0, 1]],
                o2 == [[0i32, 0, 0], [1, 0, 0], [0, 1, 0], [1, 1, 0]],
                indices@ == idx0 + prefix(f, m, x as nat, y as nat, 0),
            decreases last - y,
        {
            let mut z: i32 = 0;
            while z < last
                invariant
                    0 <= x < last,
                    0 <= y < last,
                    0 <= z <= last,
                    last as int == m,
                    last == (if n > 0 { n - 1 } else { 0 }),
                    f == cell_faces(*src, map@, n as int),
                    cube_fits(n as int),
                    map@.len() == n * n * n,
                    covers(*src, 0, n as int),
                    offsets_of(o0) == orientation(0),
                    offsets_of(o1) == orientation(1),
                    offsets_of(o2) == orientation(2),
                    o0 == [[0i32, 0, 0], [0, 1, 0], [0, 0, 1], [0, 1, 1]],
                    o1 == [[0i32, 0, 0], [0, 0, 1], [1, 0, 0], [1, 0, 1]],
                    o2 == [[0i32, 0, 0], [1, 0, 0], [0, 1, 0], [1, 1, 0]],
                    indices@ == idx0 + prefix(f, m, x as nat, y as nat, z as nat),
                decreases last - z,
            {
                connect_cell(src, map, n, x, y, z, o0, o1, o2, indices);
                proof {
                    lemma_prefix_step(f, m, x as nat, y as nat, z as nat);
                    assert(((z + 1) as nat) == (z as nat) + 1);
                    assert(indices@ =~= idx0 + prefix(f, m, x as nat, y as nat, (z + 1) as nat));
                }
                z = z + 1;
            }
            proof {
                lemma_prefix_row_end(f, m, x as nat, y as nat);
                assert(((y + 1) as nat) == (y as nat) + 1);
            }
            y = y + 1;
        }
        proof {
            lemma_prefix_plane_end(f, m, x as nat);
            assert(((x + 1) as nat) == (x as nat) + 1);
        }
        x = x + 1;
    }
    proof {
        lemma_prefix_end(f, m);
    }
}

/// The six axis neighbours that relaxation averages over.
pub open spec fn relax_offsets() -> Seq<(int, int, int)> {
    seq![(-1, 0, 0), (1, 0, 0), (0, -1, 0), (0, 1, 0), (0, 0, -1), (0, 0, 1)]
}

/// The vertex indices of the first `k` axis neighbours of `(x, y, z)` that
/// have a vertex, in offset order.
pub open spec fn relax_neighbors(map: Seq<i32>, n: int, x: int, y: int, z: int, k: nat) -> Seq<i32>
    decreases k,
{
    if k == 0 {
        Seq::empty()
    } else {
        let o = relax_offsets()[k - 1];
        let v = index_at(map, n, x + o.0, y + o.1, z + o.2);
        relax_neighbors(map, n, x, y, z, (k - 1) as nat) + (if v > -1 {
            seq![v as i32]
        } else {
            Seq::empty()
        })
    }
}

/// The vertex index at `(x, y, z)` and those of its neighbours with a
/// vertex: what relaxing the vertex at `(x, y, z)` averages.
pub fn relax_stencil(map: &Vec<i32>, n: i32, x: i32, y: i32, z: i32) -> (r: (i32, Vec<i32>))
    requires
        cube_fits(n as int),
        map@.len() == n * n * n,
        i32::MIN < x < i32::MAX,
        i32::MIN < y < i32::MAX,
        i32::MIN < z < i32::MAX,
    ensures
        r.0 as int == index_at(map@, n as int, x as int, y as int, z as int),
        r.1@ == relax_neighbors(map@, n as int, x as int, y as int, z as int, 6),
{
    let ix = lookup(map, n, x, y, z);
    let offs: [[i32; 3]; 6] = [[-1, 0, 0], [1, 0, 0], [0, -1, 0], [0, 1, 0], [0, 0, -1], [0, 0, 1]];
    assert(forall|k: int| 0 <= k < 6 ==> relax_offsets()[k] == (#[trigger] offs[k][0] as int, offs[k][1] as int, offs[k][2] as int));
    let mut out: Vec<i32> = Vec::new();
    let mut k: usize = 0;
    while k < 6
        invariant
            0 <= k <= 6,
            cube_fits(n as int),
            map@.len() == n * n * n,
            i32::MIN < x < i32::MAX,
            i32::MIN < y < i32::MAX,
            i32::MIN < z < i32::MAX,
            offs == [[-1i32, 0, 0], [1, 0, 0], [0, -1i32, 0], [0, 1, 0], [0, 0, -1i32], [0, 0, 1]],
            forall|k: int| 0 <= k < 6 ==> relax_offsets()[k] == (#[trigger] offs[k][0] as int, offs[k][1] as int, offs[k][2] as int),
            out@ == relax_neighbors(map@, n as int, x as int, y as int, z as int, k as nat),
        decreases 6 - k,
    {
        let off = offs[k];
        assert(-1 <= off[0] <= 1 && -1 <= off[1] <= 1 && -1 <= off[2] <= 1);
        let v = lookup(map, n, x + off[0], y + off[1], z + off[2]);
        assert(((k + 1) as nat) - 1 == k);
        if v > -1 {
            out.push(v);
            assert(out@ =~= relax_neighbors(map@, n as int, x as int, y as int, z as int, (k + 1) as nat));
        } else {
            assert(out@ =~= relax_neighbors(map@, n as int, x as int, y as int, z as int, (k + 1) as nat));
        }
        k += 1;
    }
    (ix, out)
}

/// A vertex map with no vertex recorded.
pub open spec fn blank_map(n: int) -> Seq<i32> {
    Seq::new((n * n * n) as nat, |i: int| -1i32)
}

/// `cells`, `map` and `tris` are what building `src` from scratch makes.
pub open spec fn fresh_net<S: VoxelSource>(
    src: S,
    n: int,
    cells: Seq<(i32, i32, i32)>,
    map: Seq<i32>,
    tris: Seq<u16>,
) -> bool {
    &&& cube_fits(n)
    &&& built_upto(src, n, Seq::empty(), blank_map(n), cells, map, n, 0, 0)
    &&& tris == sweep(cell_faces(src, map, n), face_side(n))
}

/// A build that starts with no vertices, no triangles and no marked cell
/// is a fresh net.
pub proof fn lemma_fresh_from_blank<S: VoxelSource>(
    src: S,
    n: int,
    pos0: Seq<(i32, i32, i32)>,
    map0: Seq<i32>,
    tri0: Seq<u16>,
    cells: Seq<(i32, i32, i32)>,
    map: Seq<i32>,
    tris: Seq<u16>,
)
    requires
        cube_fits(n),
        pos0.len() == 0,
        tri0.len() == 0,
        map0.len() == n * n * n,
        forall|i: int| 0 <= i < map0.len() ==> #[trigger] map0[i] == -1,
        built_upto(src, n, pos0, map0, cells, map, n, 0, 0),
        tris == tri0 + sweep(cell_faces(src, map, n), face_side(n)),
    ensures
        fresh_net(src, n, cells, map, tris),
{
    assert(map0 =~= blank_map(n));
    assert(pos0 =~= Seq::<(i32, i32, i32)>::empty());
    assert(tris =~= sweep(cell_faces(src, map, n), face_side(n)));
}

proof fn lemma_fresh_index<S: VoxelSource>(
    src: S,
    n: int,
    cells: Seq<(i32, i32, i32)>,
    map: Seq<i32>,
    tris: Seq<u16>,
    a: int,
    b: int,
    c: int,
)
    requires
        fresh_net(src, n, cells, map, tris),
        cells.len() <= 0x10000,
        in_cube(n, a, b, c),
    ensures
        index_at(map, n, a, b, c) > -1 <==> is_vertex_cell(src, a, b, c),
        is_vertex_cell(src, a, b, c) ==> index_at(map, n, a, b, c) == vertex_rank(src, n, a, b, c),
        is_vertex_cell(src, a, b, c) ==> 0 <= vertex_rank(src, n, a, b, c) < cells.len(),
{
    reveal(built_upto);
    lemma_slot_bounds(n, a, b, c);
    assert(lex_lt(a, b, c, n, 0, 0));
    if is_vertex_cell(src, a, b, c) {
        assert(0 <= vertex_rank(src, n, a, b, c));
        assert(vertex_rank(src, n, a, b, c) < cells.len());
    }
}

/// In a net built from scratch with at most 2^16 vertices, every triangle
/// index is the index of a vertex.
pub proof fn law_triangles_name_vertices<S: VoxelSource>(
    src: S,
    n: int,
    cells: Seq<(i32, i32, i32)>,
    map: Seq<i32>,
    tris: Seq<u16>,
)
    requires
        fresh_net(src, n, cells, map, tris),
        cells.len() <= 0x10000,
    ensures
        forall|k: int| 0 <= k < tris.len() ==> (#[trigger] tris[k] as int) < cells.len(),
{
    let f = cell_faces(src, map, n);
    let m = face_side(n);
    let p = |v: u16| (v as int) < cells.len();
    assert forall|x: int, y: int, z: int, j: int|
        in_cube(m as int, x, y, z) && 0 <= j < f(x, y, z).len() implies p(#[trigger] f(x, y, z)[j]) by {
        assert forall|o: int, i: int| 0 <= o < 3 && 0 <= i < quad_faces(src, map, n, x, y, z, orientation(o)).len()
            implies p(#[trigger] quad_faces(src, map, n, x, y, z, orientation(o))[i]) by {
            let q = orientation(o);
            let neg = src.solid(x + q[3].0, y + q[3].1, z + q[3].2);
            let w = winding(neg)[i];
            assert(0 <= w < 4);
            let cx = x + q[w].0;
            let cy = y + q[w].1;
            let cz = z + q[w].2;
            assert(in_cube(n, cx, cy, cz));
            lemma_fresh_index(src, n, cells, map, tris, cx, cy, cz);
            assert(quad_faces(src, map, n, x, y, z, q)[i] == quad_corner(map, n, x, y, z, q, w) as u16);
        }
        let q0 = quad_faces(src, map, n, x, y, z, orientation(0));
        let q1 = quad_faces(src, map, n, x, y, z, orientation(1));
        let q2 = quad_faces(src, map, n, x, y, z, orientation(2));
        assert(f(x, y, z) == q0 + q1 + q2);
        if j < q0.len() {
            assert(f(x, y, z)[j] == q0[j]);
        } else if j < q0.len() + q1.len() {
            assert(f(x, y, z)[j] == q1[j - q0.len()]);
        } else {
            assert(f(x, y, z)[j] == q2[j - q0.len() - q1.len()]);
        }
    }
    lemma_sweep_all(f, m, p);
}

/// In a net built from scratch, the quad around each lattice edge is made
/// exactly when the voxels at the two ends of the edge differ.
pub proof fn law_quads_at_sign_changes<S: VoxelSource>(
    src: S,
    n: int,
    cells: Seq<(i32, i32, i32)>,
    map: Seq<i32>,
    tris: Seq<u16>,
    x: int,
    y: int,
    z: int,
    k: int,
)
    requires
        fresh_net(src, n, cells, map, tris),
        cells.len() <= 0x10000,
        in_cube(n - 1, x, y, z),
        0 <= k < 3,
    ensures
        quad_faces(src, map, n, x, y, z, orientation(k)).len() == (if src.solid(x + 1, y + 1, z + 1) != src.solid(
            x + orientation(k)[3].0,
            y + orientation(k)[3].1,
            z + orientation(k)[3].2,
        ) {
            6int
        } else {
            0int
        }),
{
    let q = orientation(k);
    if src.solid(x + 1, y + 1, z + 1) != src.solid(x + q[3].0, y + q[3].1, z + q[3].2) {
        assert forall|j: int| 0 <= j < 4 implies quad_corner(map, n, x, y, z, q, j) > -1 by {
            let cx = x + q[j].0;
            let cy = y + q[j].1;
            let cz = z + q[j].2;
            lemma_fresh_index(src, n, cells, map, tris, cx, cy, cz);
            assert(is_vertex_cell(src, cx, cy, cz));
        }
        assert(quad_corner(map, n, x, y, z, q, 0) > -1);
        assert(quad_corner(map, n, x, y, z, q, 1) > -1);
        assert(quad_corner(map, n, x, y, z, q, 2) > -1);
        assert(quad_corner(map, n, x, y, z, q, 3) > -1);
    }
}

/// The lattice position of vertex `v`: its cell.
pub open spec fn vertex_pos(cells: Seq<(i32, i32, i32)>, v: int) -> (int, int, int) {
    (cells[v].0 as int, cells[v].1 as int, cells[v].2 as int)
}

/// The winding normal of triangle `t` of the index list `idx`: the cross
/// product of the positions of its three vertices.
pub open spec fn tri_normal(cells: Seq<(i32, i32, i32)>, idx: Seq<u16>, t: int) -> (int, int, int) {
    cross(vertex_pos(cells, idx[3 * t] as int), vertex_pos(cells, idx[3 * t + 1] as int), vertex_pos(cells, idx[3 * t + 2] as int))
}

/// The dot product.
pub open spec fn dot(a: (int, int, int), b: (int, int, int)) -> int {
    a.0 * b.0 + a.1 * b.1 + a.2 * b.2
}

/// Cell `c` is one of the four cells around the lattice edge along `axis`
/// that ends at voxel `p`: one step back along the axis, and at most one
/// step back across it.
pub open spec fn around_edge(c: (int, int, int), p: (int, int, int), axis: int) -> bool {
    let u = unit(axis);
    &&& p.0 - 1 <= c.0 <= p.0 - u.0
    &&& p.1 - 1 <= c.1 <= p.1 - u.1
    &&& p.2 - 1 <= c.2 <= p.2 - u.2
}

/// In a fresh net, a vertex cell's map entry is the index of the vertex
/// whose cell it is.
proof fn lemma_fresh_cell<S: VoxelSource>(
    src: S,
    n: int,
    cells: Seq<(i32, i32, i32)>,
    map: Seq<i32>,
    tris: Seq<u16>,
    a: int,
    b: int,
    c: int,
)
    requires
        fresh_net(src, n, cells, map, tris),
        cells.len() <= 0x10000,
        in_cube(n, a, b, c),
        is_vertex_cell(src, a, b, c),
    ensures
        0 <= index_at(map, n, a, b, c) < cells.len(),
        cells[index_at(map, n, a, b, c)] == (a as i32, b as i32, c as i32),
{
    lemma_fresh_index(src, n, cells, map, tris, a, b, c);
    reveal(built_upto);
    assert(lex_lt(a, b, c, n, 0, 0));
    assert(vertex_rank(src, n, a, b, c) == vertex_rank(src, n, a, b, c));
}

/// The winding of the two triangles of each kind of quad, on its corner
/// offsets: from the solid end of the edge towards the empty one.
proof fn lemma_quad_winding(k: int, neg: bool, t: int)
    requires
        0 <= k < 3,
        0 <= t < 2,
    ensures
        ({
            let q = orientation(k);
            let w = winding(neg);
            let u = unit(k);
            let d = if neg { u } else { (-u.0, -u.1, -u.2) };
            dot(cross(q[w[3 * t]], q[w[3 * t + 1]], q[w[3 * t + 2]]), d) > 0
        }),
{
    let q = orientation(k);
    let w = winding(neg);
    if k == 0 && neg && t == 0 {
        assert(w[3 * t] == 0 && w[3 * t + 1] == 1 && w[3 * t + 2] == 2);
        assert(q[w[3 * t]] == (0int, 0int, 0int) && q[w[3 * t + 1]] == (0int, 1int, 0int) && q[w[3 * t + 2]] == (0int, 0int, 1int));
        assert(cross((0int, 0int, 0int), (0int, 1int, 0int), (0int, 0int, 1int)) == (1int, 0int, 0int)) by (nonlinear_arith);
        assert(unit(k) == (1int, 0int, 0int));
        assert(dot((1int, 0int, 0int), (1int, 0int, 0int)) > 0) by (nonlinear_arith);
    } else if k == 0 && neg && t == 1 {
        assert(w[3 * t] == 2 && w[3 * t + 1] == 1 && w[3 * t + 2] == 3);
        assert(q[w[3 * t]] == (0int, 0int, 1int) && q[w[3 * t + 1]] == (0int, 1int, 0int) && q[w[3 * t + 2]] == (0int, 1int, 1int));
        assert(cross((0int, 0int, 1int), (0int, 1int, 0int), (0int, 1int, 1int)) == (1int, 0int, 0int)) by (nonlinear_arith);
        assert(unit(k) == (1int, 0int, 0int));
        assert(dot((1int, 0int, 0int), (1int, 0int, 0int)) > 0) by (nonlinear_arith);
    } else if k == 0 && !neg && t == 0 {
        assert(w[3 * t] == 2 && w[3 * t + 1] == 1 && w[3 * t + 2] == 0);
        assert(q[w[3 * t]] == (0int, 0int, 1int) && q[w[3 * t + 1]] == (0int, 1int, 0int) && q[w[3 * t + 2]] == (0int, 0int, 0int));
        assert(cross((0int, 0int, 1int), (0int, 1int, 0int), (0int, 0int, 0int)) == (-1int, 0int, 0int)) by (nonlinear_arith);
        assert(unit(k) == (1int, 0int, 0int));
        assert(dot((-1int, 0int, 0int), (-1int, 0int, 0int)) > 0) by (nonlinear_arith);
    } else if k == 0 && !neg && t == 1 {
        assert(w[3 * t] == 3 && w[3 * t + 1] == 1 && w[3 * t + 2] == 2);
        assert(q[w[3 * t]] == (0int, 1int, 1int) && q[w[3 * t + 1]] == (0int, 1int, 0int) && q[w[3 * t + 2]] == (0int, 0int, 1int));
        assert(cross((0int, 1int, 1int), (0int, 1int, 0int), (0int, 0int, 1int)) == (-1int, 0int, 0int)) by (nonlinear_arith);
        assert(unit(k) == (1int, 0int, 0int));
        assert(dot((-1int, 0int, 0int), (-1int, 0int, 0int)) > 0) by (nonlinear_arith);
    } else if k == 1 && neg && t == 0 {
        assert(w[3 * t] == 0 && w[3 * t + 1] == 1 && w[3 * t + 2] == 2);
        assert(q[w[3 * t]] == (0int, 0int, 0int) && q[w[3 * t + 1]] == (0int, 0int, 1int) && q[w[3 * t + 2]] == (1int, 0int, 0int));
        assert(cross((0int, 0int, 0int), (0int, 0int, 1int), (1int, 0int, 0int)) == (0int, 1int, 0int)) by (nonlinear_arith);
        assert(unit(k) == (0int, 1int, 0int));
        assert(dot((0int, 1int, 0int), (0int, 1int, 0int)) > 0) by (nonlinear_arith);
    } else if k == 1 && neg && t == 1 {
        assert(w[3 * t] == 2 && w[3 * t + 1] == 1 && w[3 * t + 2] == 3);
        assert(q[w[3 * t]] == (1int, 0int, 0int) && q[w[3 * t + 1]] == (0int, 0int, 1int) && q[w[3 * t + 2]] == (1int, 0int, 1int));
        assert(cross((1int, 0int, 0int), (0int, 0int, 1int), (1int, 0int, 1int)) == (0int, 1int, 0int)) by (nonlinear_arith);
        assert(unit(k) == (0int, 1int, 0int));
        assert(dot((0int, 1int, 0int), (0int, 1int, 0int)) > 0) by (nonlinear_arith);
    } else if k == 1 && !neg && t == 0 {
        assert(w[3 * t] == 2 && w[3 * t + 1] == 1 && w[3 * t + 2] == 0);
        assert(q[w[3 * t]] == (1int, 0int, 0int) && q[w[3 * t + 1]] == (0int, 0int, 1int) && q[w[3 * t + 2]] == (0int, 0int, 0int));
        assert(cross((1int, 0int, 0int), (0int, 0int, 1int), (0int, 0int, 0int)) == (0int, -1int, 0int)) by (nonlinear_arith);
        assert(unit(k) == (0int, 1int, 0int));
        assert(dot((0int, -1int, 0int), (0int, -1int, 0int)) > 0) by (nonlinear_arith);
    } else if k == 1 && !neg && t == 1 {
        assert(w[3 * t] == 3 && w[3 * t + 1] == 1 && w[3 * t + 2] == 2);
        assert(q[w[3 * t]] == (1int, 0int, 1int) && q[w[3 * t + 1]] == (0int, 0int, 1int) && q[w[3 * t + 2]] == (1int, 0int, 0int));
        assert(cross((1int, 0int, 1int), (0int, 0int, 1int), (1int, 0int, 0int)) == (0int, -1int, 0int)) by (nonlinear_arith);
        assert(unit(k) == (0int, 1int, 0int));
        assert(dot((0int, -1int, 0int), (0int, -1int, 0int)) > 0) by (nonlinear_arith);
    } else if k == 2 && neg && t == 0 {
        assert(w[3 * t] == 0 && w[3 * t + 1] == 1 && w[3 * t + 2] == 2);
        assert(q[w[3 * t]] == (0int, 0int, 0int) && q[w[3 * t + 1]] == (1int, 0int, 0int) && q[w[3 * t + 2]] == (0int, 1int, 0int));
        assert(cross((0int, 0int, 0int), (1int, 0int, 0int), (0int, 1int, 0int)) == (0int, 0int, 1int)) by (nonlinear_arith);
        assert(unit(k) == (0int, 0int, 1int));
        assert(dot((0int, 0int, 1int), (0int, 0int, 1int)) > 0) by (nonlinear_arith);
    } else if k == 2 && neg && t == 1 {
        assert(w[3 * t] == 2 && w[3 * t + 1] == 1 && w[3 * t + 2] == 3);
        assert(q[w[3 * t]] == (0int, 1int, 0int) && q[w[3 * t + 1]] == (1int, 0int, 0int) && q[w[3 * t + 2]] == (1int, 1int, 0int));
        assert(cross((0int, 1int, 0int), (1int, 0int, 0int), (1int, 1int, 0int)) == (0int, 0int, 1int)) by (nonlinear_arith);
        assert(unit(k) == (0int, 0int, 1int));
        assert(dot((0int, 0int, 1int), (0int, 0int, 1int)) > 0) by (nonlinear_arith);
    } else if k == 2 && !neg && t == 0 {
        assert(w[3 * t] == 2 && w[3 * t + 1] == 1 && w[3 * t + 2] == 0);
        assert(q[w[3 * t]] == (0int, 1int, 0int) && q[w[3 * t + 1]] == (1int, 0int, 0int) && q[w[3 * t + 2]] == (0int, 0int, 0int));
        assert(cross((0int, 1int, 0int), (1int, 0int, 0int), (0int, 0int, 0int)) == (0int, 0int, -1int)) by (nonlinear_arith);
        assert(unit(k) == (0int, 0int, 1int));
        assert(dot((0int, 0int, -1int), (0int, 0int, -1int)) > 0) by (nonlinear_arith);
    } else if k == 2 && !neg && t == 1 {
        assert(w[3 * t] == 3 && w[3 * t + 1] == 1 && w[3 * t + 2] == 2);
        assert(q[w[3 * t]] == (1int, 1int, 0int) && q[w[3 * t + 1]] == (1int, 0int, 0int) && q[w[3 * t + 2]] == (0int, 1int, 0int));
        assert(cross((1int, 1int, 0int), (1int, 0int, 0int), (0int, 1int, 0int)) == (0int, 0int, -1int)) by (nonlinear_arith);
        assert(unit(k) == (0int, 0int, 1int));
        assert(dot((0int, 0int, -1int), (0int, 0int, -1int)) > 0) by (nonlinear_arith);
    }
}

/// The quad across a lattice edge whose two voxels differ is wound to face
/// the empty voxel. The edge runs along axis `k` from voxel `p - u` to voxel
/// `p = (x + 1, y + 1, z + 1)`, `u` the unit vector along `k`. Its quad has
/// two triangles exactly when the two voxels differ; each index names a
/// vertex of one of the four cells around the edge, and for each triangle
/// the cross product of its corners (the cells of the vertices named)
/// points from the solid voxel to the empty one.
pub proof fn law_quads_face_empty<S: VoxelSource>(
    src: S,
    n: int,
    cells: Seq<(i32, i32, i32)>,
    map: Seq<i32>,
    tris: Seq<u16>,
    x: int,
    y: int,
    z: int,
    k: int,
)
    requires
        fresh_net(src, n, cells, map, tris),
        cells.len() <= 0x10000,
        in_cube(n - 1, x, y, z),
        0 <= k < 3,
    ensures
        ({
            let p = (x + 1, y + 1, z + 1);
            let u = unit(k);
            let ps = src.solid(p.0, p.1, p.2);
            let qs = src.solid(p.0 - u.0, p.1 - u.1, p.2 - u.2);
            let qf = quad_faces(src, map, n, x, y, z, orientation(k));
            let d = if ps { (-u.0, -u.1, -u.2) } else { u };
            &&& qf.len() == (if ps != qs { 6int } else { 0int })
            &&& forall|i: int|
                0 <= i < qf.len() ==> (#[trigger] qf[i] as int) < cells.len() && around_edge(vertex_pos(cells, qf[i] as int), p, k)
            &&& forall|t: int| 0 <= t < 2 && ps != qs ==> dot(#[trigger] tri_normal(cells, qf, t), d) > 0
        }),
{
    let p = (x + 1, y + 1, z + 1);
    let u = unit(k);
    let q = orientation(k);
    let ps = src.solid(p.0, p.1, p.2);
    let qs = src.solid(p.0 - u.0, p.1 - u.1, p.2 - u.2);
    let qf = quad_faces(src, map, n, x, y, z, q);
    assert(q[3] == (1 - u.0, 1 - u.1, 1 - u.2));
    law_quads_at_sign_changes(src, n, cells, map, tris, x, y, z, k);
    if ps != qs {
        let neg = qs;
        let w = winding(neg);
        assert forall|j: int| 0 <= j < 4 implies {
            &&& 0 <= #[trigger] quad_corner(map, n, x, y, z, q, j) < cells.len()
            &&& cells[quad_corner(map, n, x, y, z, q, j)] == ((x + q[j].0) as i32, (y + q[j].1) as i32, (z + q[j].2) as i32)
            &&& 0 <= q[j].0 <= 1 && 0 <= q[j].1 <= 1 && 0 <= q[j].2 <= 1
            &&& around_edge((x + q[j].0, y + q[j].1, z + q[j].2), p, k)
        } by {
            let cx = x + q[j].0;
            let cy = y + q[j].1;
            let cz = z + q[j].2;
            lemma_fresh_index(src, n, cells, map, tris, cx, cy, cz);
            assert(is_vertex_cell(src, cx, cy, cz));
            lemma_fresh_cell(src, n, cells, map, tris, cx, cy, cz);
        }
        assert(n <= 0x8000_0000) by (nonlinear_arith)
            requires
                0 < n,
                n * n * n <= 0x8000_0000,
        ;
        assert forall|i: int| 0 <= i < 6 implies {
            &&& (#[trigger] qf[i] as int) < cells.len()
            &&& vertex_pos(cells, qf[i] as int) == (x + q[w[i]].0, y + q[w[i]].1, z + q[w[i]].2)
        } by {
            assert(0 <= w[i] < 4);
            assert(qf[i] == quad_corner(map, n, x, y, z, q, w[i]) as u16);
            assert(0 <= quad_corner(map, n, x, y, z, q, w[i]) < cells.len());
        }
        assert forall|t: int| 0 <= t < 2 implies dot(#[trigger] tri_normal(cells, qf, t), if ps { (-u.0, -u.1, -u.2) } else { u }) > 0 by {
            lemma_quad_winding(k, neg, t);
            lemma_cross_translate(q[w[3 * t]], q[w[3 * t + 1]], q[w[3 * t + 2]], (x, y, z));
            assert(vertex_pos(cells, qf[3 * t] as int) == (q[w[3 * t]].0 + x, q[w[3 * t]].1 + y, q[w[3 * t]].2 + z));
            assert(vertex_pos(cells, qf[3 * t + 1] as int) == (q[w[3 * t + 1]].0 + x, q[w[3 * t + 1]].1 + y, q[w[3 * t + 1]].2 + z));
            assert(vertex_pos(cells, qf[3 * t + 2] as int) == (q[w[3 * t + 2]].0 + x, q[w[3 * t + 2]].1 + y, q[w[3 * t + 2]].2 + z));
        }
    }
}

/// A lattice cell gets a vertex exactly when the eight voxels at its
/// corners, `(x, y, z)` to `(x + 1, y + 1, z + 1)`, are neither all solid
/// nor all empty.
pub proof fn law_vertex_iff_mixed<S: VoxelSource>(src: S, x: int, y: int, z: int)
    ensures
        is_vertex_cell(src, x, y, z) <==> !({
            &&& src.solid(x, y, z) && src.solid(x + 1, y, z) && src.solid(x, y + 1, z) && src.solid(x + 1, y + 1, z)
            &&& src.solid(x, y, z + 1) && src.solid(x + 1, y, z + 1) && src.solid(x, y + 1, z + 1) && src.solid(x + 1, y + 1, z + 1)
        }) && !({
            &&& !src.solid(x, y, z) && !src.solid(x + 1, y, z) && !src.solid(x, y + 1, z) && !src.solid(x + 1, y + 1, z)
            &&& !src.solid(x, y, z + 1) && !src.solid(x + 1, y, z + 1) && !src.solid(x, y + 1, z + 1) && !src.solid(x + 1, y + 1, z + 1)
        }),
{
}

} // verus!
