use vstd::prelude::*;

verus! {

/// The cells of a cubic lattice, visited with `x` outermost and `z` innermost,
/// each mapped by `f` to a sequence; these functions concatenate the results.
///
/// `row(f, x, y, k)` covers the cells `(x, y, 0..k)`.
pub open spec fn row<A>(f: spec_fn(int, int, int) -> Seq<A>, x: int, y: int, k: nat) -> Seq<A>
    decreases k,
{
    if k == 0 {
        Seq::empty()
    } else {
        row(f, x, y, (k - 1) as nat) + f(x, y, k - 1)
    }
}

/// The cells `(x, 0..j, 0..n)`.
pub open spec fn plane<A>(f: spec_fn(int, int, int) -> Seq<A>, n: nat, x: int, j: nat) -> Seq<A>
    decreases j,
{
    if j == 0 {
        Seq::empty()
    } else {
        plane(f, n, x, (j - 1) as nat) + row(f, x, j - 1, n)
    }
}

/// The cells `(0..i, 0..n, 0..n)`.
pub open spec fn block<A>(f: spec_fn(int, int, int) -> Seq<A>, n: nat, i: nat) -> Seq<A>
    decreases i,
{
    if i == 0 {
        Seq::empty()
    } else {
        block(f, n, (i - 1) as nat) + plane(f, n, i - 1, n)
    }
}

/// Every cell of `[0, n)^3`, in visiting order.
pub open spec fn sweep<A>(f: spec_fn(int, int, int) -> Seq<A>, n: nat) -> Seq<A> {
    block(f, n, n)
}

/// The cells visited strictly before `(x, y, z)`.
pub open spec fn prefix<A>(f: spec_fn(int, int, int) -> Seq<A>, n: nat, x: nat, y: nat, z: nat) -> Seq<A> {
    block(f, n, x) + plane(f, n, x as int, y) + row(f, x as int, y as int, z)
}

/// `(a, b, c)` comes strictly before `(x, y, z)` in visiting order.
pub open spec fn lex_lt(a: int, b: int, c: int, x: int, y: int, z: int) -> bool {
    a < x || (a == x && (b < y || (b == y && c < z)))
}

/// Whether `(x, y, z)` lies in `[0, n)^3`.
pub open spec fn in_cube(n: int, x: int, y: int, z: int) -> bool {
    0 <= x < n && 0 <= y < n && 0 <= z < n
}

/// Where cell `(x, y, z)` of a cube of side `n` is stored, with `x` varying fastest.
pub open spec fn slot(n: int, x: int, y: int, z: int) -> int {
    x + y * n + z * n * n
}

/// Visiting a cell appends what it makes.
pub proof fn lemma_prefix_step<A>(f: spec_fn(int, int, int) -> Seq<A>, n: nat, x: nat, y: nat, z: nat)
    ensures
        prefix(f, n, x, y, z + 1) == prefix(f, n, x, y, z) + f(x as int, y as int, z as int),
{
    let a = block(f, n, x);
    let b = plane(f, n, x as int, y);
    let r = row(f, x as int, y as int, z);
    assert(row(f, x as int, y as int, z + 1) == r + f(x as int, y as int, z as int));
    assert(a + b + (r + f(x as int, y as int, z as int)) =~= (a + b + r) + f(x as int, y as int, z as int));
}

/// The end of a row is the start of the next.
pub proof fn lemma_prefix_row_end<A>(f: spec_fn(int, int, int) -> Seq<A>, n: nat, x: nat, y: nat)
    ensures
        prefix(f, n, x, y, n) == prefix(f, n, x, y + 1, 0),
{
    let a = block(f, n, x);
    let b = plane(f, n, x as int, y);
    let r = row(f, x as int, y as int, n);
    assert(row(f, x as int, (y + 1) as int, 0) =~= Seq::<A>::empty());
    assert(plane(f, n, x as int, y + 1) == b + r);
    assert(a + (b + r) + Seq::<A>::empty() =~= a + b + r);
}

/// The end of a plane is the start of the next.
pub proof fn lemma_prefix_plane_end<A>(f: spec_fn(int, int, int) -> Seq<A>, n: nat, x: nat)
    ensures
        prefix(f, n, x, n, 0) == prefix(f, n, x + 1, 0, 0),
{
    let a = block(f, n, x);
    let b = plane(f, n, x as int, n);
    assert(block(f, n, x + 1) == a + b);
    assert(plane(f, n, (x + 1) as int, 0) =~= Seq::<A>::empty());
    assert(row(f, x as int, n as int, 0) =~= Seq::<A>::empty());
    assert(row(f, (x + 1) as int, 0, 0) =~= Seq::<A>::empty());
    assert(a + b + Seq::<A>::empty() + Seq::<A>::empty() =~= a + Seq::<A>::empty() + Seq::<A>::empty() + b);
}

/// Nothing comes before the first cell.
pub proof fn lemma_prefix_start<A>(f: spec_fn(int, int, int) -> Seq<A>, n: nat)
    ensures
        prefix(f, n, 0, 0, 0) =~= Seq::<A>::empty(),
{
}

/// After the last plane comes the whole sweep.
pub proof fn lemma_prefix_end<A>(f: spec_fn(int, int, int) -> Seq<A>, n: nat)
    ensures
        prefix(f, n, n, 0, 0) =~= sweep(f, n),
{
}

/// The slot of a cell of the cube lies in `[0, n^3)`.
pub proof fn lemma_slot_bounds(n: int, x: int, y: int, z: int)
    requires
        in_cube(n, x, y, z),
    ensures
        0 <= slot(n, x, y, z) < n * n * n,
{
    assert(0 <= z * n * n) by (nonlinear_arith)
        requires
            0 <= z,
            0 < n,
    ;
    assert(0 <= y * n) by (nonlinear_arith)
        requires
            0 <= y,
            0 < n,
    ;
    assert(x + y * n + z * n * n <= (n - 1) + (n - 1) * n + (n - 1) * n * n) by (nonlinear_arith)
        requires
            0 <= x < n,
            0 <= y < n,
            0 <= z < n,
    ;
    assert((n - 1) + (n - 1) * n + (n - 1) * n * n == n * n * n - 1) by (nonlinear_arith);
}

/// Distinct cells of the cube have distinct slots.
pub proof fn lemma_slot_injective(n: int, x: int, y: int, z: int, a: int, b: int, c: int)
    requires
        in_cube(n, x, y, z),
        in_cube(n, a, b, c),
        slot(n, x, y, z) == slot(n, a, b, c),
    ensures
        x == a && y == b && z == c,
{
    let s = slot(n, x, y, z);
    assert(s == (y + z * n) * n + x) by (nonlinear_arith)
        requires
            s == x + y * n + z * n * n,
    ;
    assert(s == (b + c * n) * n + a) by (nonlinear_arith)
        requires
            s == a + b * n + c * n * n,
    ;
    vstd::arithmetic::div_mod::lemma_fundamental_div_mod_converse(s, n, y + z * n, x);
    vstd::arithmetic::div_mod::lemma_fundamental_div_mod_converse(s, n, b + c * n, a);
    let t = y + z * n;
    assert(t == z * n + y);
    assert(b + c * n == c * n + b);
    vstd::arithmetic::div_mod::lemma_fundamental_div_mod_converse(t, n, z, y);
    vstd::arithmetic::div_mod::lemma_fundamental_div_mod_converse(t, n, c, b);
}

/// Every element of `f(x, y, z)`, for every cell of `[0, n)^3`, satisfies `p`.
pub open spec fn all_cells<A>(f: spec_fn(int, int, int) -> Seq<A>, n: nat, p: spec_fn(A) -> bool) -> bool {
    forall|x: int, y: int, z: int, j: int|
        in_cube(n as int, x, y, z) && 0 <= j < f(x, y, z).len() ==> p(#[trigger] f(x, y, z)[j])
}

proof fn lemma_concat_all<A>(a: Seq<A>, b: Seq<A>, p: spec_fn(A) -> bool)
    requires
        forall|k: int| 0 <= k < a.len() ==> p(#[trigger] a[k]),
        forall|k: int| 0 <= k < b.len() ==> p(#[trigger] b[k]),
    ensures
        forall|k: int| 0 <= k < (a + b).len() ==> p(#[trigger] (a + b)[k]),
{
    assert forall|k: int| 0 <= k < (a + b).len() implies p(#[trigger] (a + b)[k]) by {
        if k < a.len() {
            assert((a + b)[k] == a[k]);
        } else {
            assert((a + b)[k] == b[k - a.len()]);
        }
    }
}

proof fn lemma_row_all<A>(f: spec_fn(int, int, int) -> Seq<A>, n: nat, p: spec_fn(A) -> bool, x: int, y: int, k: nat)
    requires
        all_cells(f, n, p),
        0 <= x < n,
        0 <= y < n,
        k <= n,
    ensures
        forall|i: int| 0 <= i < row(f, x, y, k).len() ==> p(#[trigger] row(f, x, y, k)[i]),
    decreases k,
{
    if k > 0 {
        lemma_row_all(f, n, p, x, y, (k - 1) as nat);
        let c = f(x, y, k - 1);
        assert forall|j: int| 0 <= j < c.len() implies p(#[trigger] c[j]) by {
            assert(in_cube(n as int, x, y, k - 1));
        }
        lemma_concat_all(row(f, x, y, (k - 1) as nat), c, p);
    }
}

proof fn lemma_plane_all<A>(f: spec_fn(int, int, int) -> Seq<A>, n: nat, p: spec_fn(A) -> bool, x: int, j: nat)
    requires
        all_cells(f, n, p),
        0 <= x < n,
        j <= n,
    ensures
        forall|i: int| 0 <= i < plane(f, n, x, j).len() ==> p(#[trigger] plane(f, n, x, j)[i]),
    decreases j,
{
    if j > 0 {
        lemma_plane_all(f, n, p, x, (j - 1) as nat);
        lemma_row_all(f, n, p, x, j - 1, n);
        lemma_concat_all(plane(f, n, x, (j - 1) as nat), row(f, x, j - 1, n), p);
    }
}

proof fn lemma_block_all<A>(f: spec_fn(int, int, int) -> Seq<A>, n: nat, p: spec_fn(A) -> bool, i: nat)
    requires
        all_cells(f, n, p),
        i <= n,
    ensures
        forall|k: int| 0 <= k < block(f, n, i).len() ==> p(#[trigger] block(f, n, i)[k]),
    decreases i,
{
    if i > 0 {
        lemma_block_all(f, n, p, (i - 1) as nat);
        lemma_plane_all(f, n, p, i - 1, n);
        lemma_concat_all(block(f, n, (i - 1) as nat), plane(f, n, i - 1, n), p);
    }
}

/// What holds of every element made by every cell holds of every element
/// of the sweep.
pub proof fn lemma_sweep_all<A>(f: spec_fn(int, int, int) -> Seq<A>, n: nat, p: spec_fn(A) -> bool)
    requires
        all_cells(f, n, p),
    ensures
        forall|k: int| 0 <= k < sweep(f, n).len() ==> p(#[trigger] sweep(f, n)[k]),
{
    lemma_block_all(f, n, p, n);
}

/// Every element that `f` makes for a cell of `[0, n)^3` carries that
/// cell as its tag.
pub open spec fn tagged<A>(f: spec_fn(int, int, int) -> Seq<A>, n: nat, tag: spec_fn(A) -> (int, int, int)) -> bool {
    forall|x: int, y: int, z: int, j: int|
        in_cube(n as int, x, y, z) && 0 <= j < f(x, y, z).len() ==> tag(#[trigger] f(x, y, z)[j]) == (x, y, z)
}

proof fn lemma_concat_tags<A>(a: Seq<A>, b: Seq<A>, tag: spec_fn(A) -> (int, int, int), lo: spec_fn((int, int, int)) -> bool, hi: spec_fn((int, int, int)) -> bool)
    requires
        a.no_duplicates(),
        b.no_duplicates(),
        forall|k: int| 0 <= k < a.len() ==> lo(tag(#[trigger] a[k])),
        forall|k: int| 0 <= k < b.len() ==> hi(tag(#[trigger] b[k])),
        forall|t: (int, int, int)| !(#[trigger] lo(t) && hi(t)),
    ensures
        (a + b).no_duplicates(),
{
    assert forall|i: int, j: int| 0 <= i < a.len() && 0 <= j < b.len() implies a[i] != b[j] by {
        if a[i] == b[j] {
            assert(lo(tag(a[i])) && hi(tag(b[j])));
        }
    }
    vstd::seq_lib::lemma_no_dup_in_concat(a, b);
}

proof fn lemma_row_distinct<A>(f: spec_fn(int, int, int) -> Seq<A>, n: nat, tag: spec_fn(A) -> (int, int, int), x: int, y: int, k: nat)
    requires
        tagged(f, n, tag),
        forall|a: int, b: int, c: int| in_cube(n as int, a, b, c) ==> (#[trigger] f(a, b, c)).no_duplicates(),
        0 <= x < n,
        0 <= y < n,
        k <= n,
    ensures
        row(f, x, y, k).no_duplicates(),
        forall|m: int|
            0 <= m < row(f, x, y, k).len() ==> {
                let t = tag(#[trigger] row(f, x, y, k)[m]);
                t.0 == x && t.1 == y && 0 <= t.2 < k
            },
    decreases k,
{
    if k > 0 {
        let k1 = (k - 1) as nat;
        lemma_row_distinct(f, n, tag, x, y, k1);
        let prev = row(f, x, y, k1);
        let c = f(x, y, k1 as int);
        assert(in_cube(n as int, x, y, k1 as int));
        assert forall|j: int| 0 <= j < c.len() implies tag(#[trigger] c[j]) == (x, y, k1 as int) by {}
        let lo = |t: (int, int, int)| t.0 == x && t.1 == y && 0 <= t.2 < k1;
        let hi = |t: (int, int, int)| t == (x, y, k1 as int);
        lemma_concat_tags(prev, c, tag, lo, hi);
        let cur = row(f, x, y, k);
        assert forall|m: int| 0 <= m < cur.len() implies {
            let t = tag(#[trigger] cur[m]);
            t.0 == x && t.1 == y && 0 <= t.2 < k
        } by {
            if m < prev.len() {
                assert(cur[m] == prev[m]);
            } else {
                assert(cur[m] == c[m - prev.len()]);
            }
        }
    }
}

proof fn lemma_plane_distinct<A>(f: spec_fn(int, int, int) -> Seq<A>, n: nat, tag: spec_fn(A) -> (int, int, int), x: int, j: nat)
    requires
        tagged(f, n, tag),
        forall|a: int, b: int, c: int| in_cube(n as int, a, b, c) ==> (#[trigger] f(a, b, c)).no_duplicates(),
        0 <= x < n,
        j <= n,
    ensures
        plane(f, n, x, j).no_duplicates(),
        forall|m: int|
            0 <= m < plane(f, n, x, j).len() ==> {
                let t = tag(#[trigger] plane(f, n, x, j)[m]);
                t.0 == x && 0 <= t.1 < j && 0 <= t.2 < n
            },
    decreases j,
{
    if j > 0 {
        let j1 = (j - 1) as nat;
        lemma_plane_distinct(f, n, tag, x, j1);
        lemma_row_distinct(f, n, tag, x, j1 as int, n);
        let prev = plane(f, n, x, j1);
        let r = row(f, x, j1 as int, n);
        let lo = |t: (int, int, int)| t.0 == x && 0 <= t.1 < j1 && 0 <= t.2 < n;
        let hi = |t: (int, int, int)| t.0 == x && t.1 == j1 && 0 <= t.2 < n;
        lemma_concat_tags(prev, r, tag, lo, hi);
        let cur = plane(f, n, x, j);
        assert forall|m: int| 0 <= m < cur.len() implies {
            let t = tag(#[trigger] cur[m]);
            t.0 == x && 0 <= t.1 < j && 0 <= t.2 < n
        } by {
            if m < prev.len() {
                assert(cur[m] == prev[m]);
            } else {
                assert(cur[m] == r[m - prev.len()]);
            }
        }
    }
}

proof fn lemma_block_distinct<A>(f: spec_fn(int, int, int) -> Seq<A>, n: nat, tag: spec_fn(A) -> (int, int, int), i: nat)
    requires
        tagged(f, n, tag),
        forall|a: int, b: int, c: int| in_cube(n as int, a, b, c) ==> (#[trigger] f(a, b, c)).no_duplicates(),
        i <= n,
    ensures
        block(f, n, i).no_duplicates(),
        forall|m: int|
            0 <= m < block(f, n, i).len() ==> {
                let t = tag(#[trigger] block(f, n, i)[m]);
                0 <= t.0 < i && 0 <= t.1 < n && 0 <= t.2 < n
            },
    decreases i,
{
    if i > 0 {
        let i1 = (i - 1) as nat;
        lemma_block_distinct(f, n, tag, i1);
        lemma_plane_distinct(f, n, tag, i1 as int, n);
        let prev = block(f, n, i1);
        let pl = plane(f, n, i1 as int, n);
        let lo = |t: (int, int, int)| 0 <= t.0 < i1 && 0 <= t.1 < n && 0 <= t.2 < n;
        let hi = |t: (int, int, int)| t.0 == i1 && 0 <= t.1 < n && 0 <= t.2 < n;
        lemma_concat_tags(prev, pl, tag, lo, hi);
        let cur = block(f, n, i);
        assert forall|m: int| 0 <= m < cur.len() implies {
            let t = tag(#[trigger] cur[m]);
            0 <= t.0 < i && 0 <= t.1 < n && 0 <= t.2 < n
        } by {
            if m < prev.len() {
                assert(cur[m] == prev[m]);
            } else {
                assert(cur[m] == pl[m - prev.len()]);
            }
        }
    }
}

/// When each cell's elements are distinct and carry the cell as their tag,
/// the sweep has no element twice.
pub proof fn lemma_sweep_distinct<A>(f: spec_fn(int, int, int) -> Seq<A>, n: nat, tag: spec_fn(A) -> (int, int, int))
    requires
        tagged(f, n, tag),
        forall|a: int, b: int, c: int| in_cube(n as int, a, b, c) ==> (#[trigger] f(a, b, c)).no_duplicates(),
    ensures
        sweep(f, n).no_duplicates(),
{
    lemma_block_distinct(f, n, tag, n);
}

proof fn lemma_concat_has<A>(a: Seq<A>, b: Seq<A>, v: A)
    requires
        a.contains(v) || b.contains(v),
    ensures
        (a + b).contains(v),
{
    if a.contains(v) {
        let m = choose|m: int| 0 <= m < a.len() && a[m] == v;
        assert((a + b)[m] == v);
    } else {
        let m = choose|m: int| 0 <= m < b.len() && b[m] == v;
        assert((a + b)[a.len() + m] == v);
    }
}

proof fn lemma_row_has<A>(f: spec_fn(int, int, int) -> Seq<A>, x: int, y: int, k: nat, c: int, j: int)
    requires
        0 <= c < k,
        0 <= j < f(x, y, c).len(),
    ensures
        row(f, x, y, k).contains(f(x, y, c)[j]),
    decreases k,
{
    let k1 = (k - 1) as nat;
    let v = f(x, y, c)[j];
    if c < k1 {
        lemma_row_has(f, x, y, k1, c, j);
    } else {
        assert(f(x, y, k1 as int)[j] == v);
    }
    lemma_concat_has(row(f, x, y, k1), f(x, y, k1 as int), v);
}

proof fn lemma_plane_has<A>(f: spec_fn(int, int, int) -> Seq<A>, n: nat, x: int, i: nat, b: int, c: int, j: int)
    requires
        0 <= b < i,
        0 <= c < n,
        0 <= j < f(x, b, c).len(),
    ensures
        plane(f, n, x, i).contains(f(x, b, c)[j]),
    decreases i,
{
    let i1 = (i - 1) as nat;
    let v = f(x, b, c)[j];
    if b < i1 {
        lemma_plane_has(f, n, x, i1, b, c, j);
    } else {
        lemma_row_has(f, x, i1 as int, n, c, j);
    }
    lemma_concat_has(plane(f, n, x, i1), row(f, x, i1 as int, n), v);
}

proof fn lemma_block_has<A>(f: spec_fn(int, int, int) -> Seq<A>, n: nat, i: nat, a: int, b: int, c: int, j: int)
    requires
        0 <= a < i,
        0 <= b < n,
        0 <= c < n,
        0 <= j < f(a, b, c).len(),
    ensures
        block(f, n, i).contains(f(a, b, c)[j]),
    decreases i,
{
    let i1 = (i - 1) as nat;
    let v = f(a, b, c)[j];
    if a < i1 {
        lemma_block_has(f, n, i1, a, b, c, j);
    } else {
        lemma_plane_has(f, n, i1 as int, n, b, c, j);
    }
    lemma_concat_has(block(f, n, i1), plane(f, n, i1 as int, n), v);
}

/// Whatever a cell of `[0, n)^3` makes is in the sweep.
pub proof fn lemma_sweep_has<A>(f: spec_fn(int, int, int) -> Seq<A>, n: nat, x: int, y: int, z: int, j: int)
    requires
        in_cube(n as int, x, y, z),
        0 <= j < f(x, y, z).len(),
    ensures
        sweep(f, n).contains(f(x, y, z)[j]),
{
    lemma_block_has(f, n, n, x, y, z, j);
}

/// `(b - a) x (c - a)`.
pub open spec fn cross(a: (int, int, int), b: (int, int, int), c: (int, int, int)) -> (int, int, int) {
    (
        (b.1 - a.1) * (c.2 - a.2) - (b.2 - a.2) * (c.1 - a.1),
        (b.2 - a.2) * (c.0 - a.0) - (b.0 - a.0) * (c.2 - a.2),
        (b.0 - a.0) * (c.1 - a.1) - (b.1 - a.1) * (c.0 - a.0),
    )
}

/// The unit vector along `axis`.
pub open spec fn unit(axis: int) -> (int, int, int) {
    if axis == 0 {
        (1, 0, 0)
    } else if axis == 1 {
        (0, 1, 0)
    } else {
        (0, 0, 1)
    }
}

/// The winding normal of a triangle does not change when it is moved.
pub proof fn lemma_cross_translate(a: (int, int, int), b: (int, int, int), c: (int, int, int), t: (int, int, int))
    ensures
        cross((a.0 + t.0, a.1 + t.1, a.2 + t.2), (b.0 + t.0, b.1 + t.1, b.2 + t.2), (c.0 + t.0, c.1 + t.1, c.2 + t.2))
            == cross(a, b, c),
{
    let u = (b.0 - a.0, b.1 - a.1, b.2 - a.2);
    let v = (c.0 - a.0, c.1 - a.1, c.2 - a.2);
    assert((b.0 + t.0) - (a.0 + t.0) == u.0);
    assert((b.1 + t.1) - (a.1 + t.1) == u.1);
    assert((b.2 + t.2) - (a.2 + t.2) == u.2);
    assert((c.0 + t.0) - (a.0 + t.0) == v.0);
    assert((c.1 + t.1) - (a.1 + t.1) == v.1);
    assert((c.2 + t.2) - (a.2 + t.2) == v.2);
}

} // verus!
