use vstd::prelude::*;
use crate::matrix::{FeatureMatrix, FEATURE_ONE, MAX_FEATURE_LEN, entries_bounded};

verus! {

/// Sum of `x[s] * y[s]` over the first `t` positions.
pub open spec fn dot_upto(x: Seq<u32>, y: Seq<u32>, t: int) -> int
    decreases t,
{
    if t <= 0 {
        0
    } else {
        dot_upto(x, y, t - 1) + (x[t - 1] as int) * (y[t - 1] as int)
    }
}

/// Inner product of two vectors of the same length.
pub open spec fn inner(x: Seq<u32>, y: Seq<u32>) -> int {
    dot_upto(x, y, x.len() as int)
}

/// Numerator of the squared cosine similarity of `x` and `y`.
/// A vector of norm zero has similarity zero to every vector.
pub open spec fn sim_num(x: Seq<u32>, y: Seq<u32>) -> int {
    if inner(x, x) == 0 || inner(y, y) == 0 {
        0
    } else {
        inner(x, y) * inner(x, y)
    }
}

/// Denominator of the squared cosine similarity of `x` and `y`: the product of the squared norms.
pub open spec fn sim_den(x: Seq<u32>, y: Seq<u32>) -> int {
    if inner(x, x) == 0 || inner(y, y) == 0 {
        1
    } else {
        inner(x, x) * inner(y, y)
    }
}

/// `cos(x, a) >= cos(x, b)`. Nonnegative vectors have nonnegative cosines,
/// which compare as their squares do.
pub open spec fn sim_ge(x: Seq<u32>, a: Seq<u32>, b: Seq<u32>) -> bool {
    sim_num(x, a) * sim_den(x, b) >= sim_num(x, b) * sim_den(x, a)
}

/// Row `a` ranks before row `b` as a neighbor of row `i`: it is strictly more
/// similar to row `i`, or equally similar with a smaller index.
pub open spec fn precedes(rows: Seq<Seq<u32>>, i: int, a: int, b: int) -> bool {
    !sim_ge(rows[i], rows[b], rows[a]) || (sim_ge(rows[i], rows[a], rows[b]) && a < b)
}

/// `l` is the neighbor list of row `i`: the `min(k, n - 1)` other rows that rank
/// first, in ranking order.
pub open spec fn is_top_k(rows: Seq<Seq<u32>>, i: int, k: int, l: Seq<usize>) -> bool {
    &&& l.len() == vstd::math::min(k, rows.len() - 1)
    &&& forall|p: int| 0 <= p < l.len() ==> #[trigger] l[p] < rows.len() && l[p] != i
    &&& forall|p: int, q: int|
        0 <= p < q < l.len() ==> precedes(rows, i, #[trigger] l[p] as int, #[trigger] l[q] as int)
    &&& forall|p: int, j: int|
        0 <= p < l.len() && 0 <= j < rows.len() && j != i && !l.contains(j as usize)
            ==> #[trigger] precedes(rows, i, l[p] as int, j)
}

/// All rows have length `d` and entries in `[0, FEATURE_ONE]`.
pub open spec fn rows_wf(rows: Seq<Seq<u32>>, d: int) -> bool {
    &&& d <= MAX_FEATURE_LEN
    &&& forall|r: int| 0 <= r < rows.len() ==> (#[trigger] rows[r]).len() == d && entries_bounded(rows[r])
}

proof fn lemma_dot_nonneg(x: Seq<u32>, y: Seq<u32>, t: int)
    ensures
        dot_upto(x, y, t) >= 0,
    decreases t,
{
    if t > 0 {
        lemma_dot_nonneg(x, y, t - 1);
        let a = x[t - 1] as int;
        let b = y[t - 1] as int;
        assert(a * b >= 0) by (nonlinear_arith)
            requires
                a >= 0,
                b >= 0,
        ;
    }
}

proof fn lemma_dot_sym(x: Seq<u32>, y: Seq<u32>, t: int)
    ensures
        dot_upto(x, y, t) == dot_upto(y, x, t),
    decreases t,
{
    if t > 0 {
        lemma_dot_sym(x, y, t - 1);
        let a = x[t - 1] as int;
        let b = y[t - 1] as int;
        assert(a * b == b * a) by (nonlinear_arith);
    }
}

/// A vector of norm zero is orthogonal to every vector.
proof fn lemma_zero_norm(x: Seq<u32>, y: Seq<u32>, t: int)
    requires
        dot_upto(x, x, t) == 0,
    ensures
        dot_upto(x, y, t) == 0,
    decreases t,
{
    if t > 0 {
        lemma_dot_nonneg(x, x, t - 1);
        let a = x[t - 1] as int;
        let b = y[t - 1] as int;
        assert(a * a >= 0) by (nonlinear_arith);
        assert(a == 0) by (nonlinear_arith)
            requires
                a >= 0,
                a * a == 0,
        ;
        assert(a * b == 0) by (nonlinear_arith)
            requires
                a == 0,
        ;
        lemma_zero_norm(x, y, t - 1);
    }
}

proof fn lemma_sim_den_pos(x: Seq<u32>, y: Seq<u32>)
    ensures
        sim_den(x, y) > 0,
        sim_num(x, y) >= 0,
{
    lemma_dot_nonneg(x, x, x.len() as int);
    lemma_dot_nonneg(y, y, y.len() as int);
    let nx = inner(x, x);
    let ny = inner(y, y);
    let d = inner(x, y);
    assert(nx > 0 && ny > 0 ==> nx * ny > 0) by (nonlinear_arith);
    assert(d * d >= 0) by (nonlinear_arith);
}

/// Squared norm of `y`, or one when it is zero.
pub open spec fn reduced_den(y: Seq<u32>) -> int {
    if inner(y, y) == 0 {
        1
    } else {
        inner(y, y)
    }
}

/// Against a fixed row `x`, similarities compare as `inner(x, a)^2 / |a|^2` do.
proof fn lemma_reduced_ge(x: Seq<u32>, a: Seq<u32>, b: Seq<u32>)
    requires
        x.len() == a.len(),
        x.len() == b.len(),
    ensures
        sim_ge(x, a, b) == (inner(x, a) * inner(x, a) * reduced_den(b) >= inner(x, b) * inner(x, b)
            * reduced_den(a)),
{
    let len = x.len() as int;
    lemma_dot_nonneg(x, x, len);
    lemma_dot_nonneg(a, a, len);
    lemma_dot_nonneg(b, b, len);
    let nx = inner(x, x);
    let na = inner(a, a);
    let nb = inner(b, b);
    let da = inner(x, a);
    let db = inner(x, b);
    if nx == 0 {
        lemma_zero_norm(x, a, len);
        lemma_zero_norm(x, b, len);
        assert(da * da * reduced_den(b) == 0 && db * db * reduced_den(a) == 0) by (nonlinear_arith)
            requires
                da == 0,
                db == 0,
        ;
    } else {
        if na == 0 {
            lemma_zero_norm(a, x, len);
            lemma_dot_sym(a, x, len);
        }
        if nb == 0 {
            lemma_zero_norm(b, x, len);
            lemma_dot_sym(b, x, len);
        }
        let ra = reduced_den(a);
        let rb = reduced_den(b);
        let sa = sim_num(x, a);
        let sb = sim_num(x, b);
        assert(sa == da * da);
        assert(sb == db * db);
        if na > 0 && nb > 0 {
            assert(sim_den(x, a) == nx * ra);
            assert(sim_den(x, b) == nx * rb);
            assert((sa * (nx * rb) >= sb * (nx * ra)) == (sa * rb >= sb * ra)) by (nonlinear_arith)
                requires
                    nx > 0,
            ;
        } else if na == 0 {
            assert(sa * sim_den(x, b) == 0 && sa * rb == 0) by (nonlinear_arith)
                requires
                    sa == 0,
            ;
        } else {
            assert(sb * sim_den(x, a) == 0 && sb * ra == 0) by (nonlinear_arith)
                requires
                    sb == 0,
            ;
        }
        assert(da * da * rb == sa * rb);
        assert(db * db * ra == sb * ra);
    }
}

proof fn lemma_cross_trans(p: int, q: int, r: int, s: int, u: int, v: int)
    requires
        q > 0,
        s > 0,
        v > 0,
        p * s >= r * q,
        r * v >= u * s,
    ensures
        p * v >= u * q,
{
    assert(p * s * v >= r * q * v) by (nonlinear_arith)
        requires
            p * s >= r * q,
            v > 0,
    ;
    assert(r * v * q >= u * s * q) by (nonlinear_arith)
        requires
            r * v >= u * s,
            q > 0,
    ;
    assert(p * v * s >= u * q * s) by (nonlinear_arith)
        requires
            p * s * v >= r * q * v,
            r * v * q >= u * s * q,
    ;
    assert(p * v >= u * q) by (nonlinear_arith)
        requires
            p * v * s >= u * q * s,
            s > 0,
    ;
}

proof fn lemma_sim_ge_trans(x: Seq<u32>, a: Seq<u32>, b: Seq<u32>, c: Seq<u32>)
    requires
        sim_ge(x, a, b),
        sim_ge(x, b, c),
    ensures
        sim_ge(x, a, c),
{
    lemma_sim_den_pos(x, a);
    lemma_sim_den_pos(x, b);
    lemma_sim_den_pos(x, c);
    lemma_cross_trans(
        sim_num(x, a),
        sim_den(x, a),
        sim_num(x, b),
        sim_den(x, b),
        sim_num(x, c),
        sim_den(x, c),
    );
}

proof fn lemma_precedes_trans(rows: Seq<Seq<u32>>, i: int, a: int, b: int, c: int)
    requires
        precedes(rows, i, a, b),
        precedes(rows, i, b, c),
    ensures
        precedes(rows, i, a, c),
{
    let x = rows[i];
    let ra = rows[a];
    let rb = rows[b];
    let rc = rows[c];
    if sim_ge(x, rc, ra) && sim_ge(x, ra, rb) {
        lemma_sim_ge_trans(x, rc, ra, rb);
    }
    if sim_ge(x, ra, rb) && sim_ge(x, rb, rc) {
        lemma_sim_ge_trans(x, ra, rb, rc);
    }
    if sim_ge(x, rb, rc) && sim_ge(x, rc, ra) {
        lemma_sim_ge_trans(x, rb, rc, ra);
    }
}

/// Cosine similarity is symmetric: the similarity of row `i` to row `j` equals
/// that of row `j` to row `i`.
pub proof fn lemma_similarity_symmetric(x: Seq<u32>, y: Seq<u32>)
    requires
        x.len() == y.len(),
    ensures
        sim_num(x, y) == sim_num(y, x),
        sim_den(x, y) == sim_den(y, x),
{
    lemma_dot_sym(x, y, x.len() as int);
    let nx = inner(x, x);
    let ny = inner(y, y);
    assert(nx * ny == ny * nx) by (nonlinear_arith);
}

proof fn lemma_top_k_prefix(rows: Seq<Seq<u32>>, i: int, k: int, l1: Seq<usize>, l2: Seq<usize>, p: int)
    requires
        0 <= i < rows.len(),
        is_top_k(rows, i, k, l1),
        is_top_k(rows, i, k, l2),
        0 <= p <= l1.len(),
    ensures
        forall|q: int| 0 <= q < p ==> l1[q] == l2[q],
    decreases p,
{
    if p > 0 {
        lemma_top_k_prefix(rows, i, k, l1, l2, p - 1);
        let q = p - 1;
        let a = l1[q];
        let b = l2[q];
        if a != b {
            // each of a and b would have to rank before the other
            if l1.contains(b) {
                let r = choose|r: int| 0 <= r < l1.len() && l1[r] == b;
                if r < q {
                    assert(l2[r] == b);
                    assert(precedes(rows, i, l2[r] as int, l2[q] as int));
                } else {
                    assert(precedes(rows, i, l1[q] as int, l1[r] as int));
                }
            } else {
                assert(l2[q] < rows.len() && l2[q] != i);
                assert(precedes(rows, i, l1[q] as int, b as int));
            }
            if l2.contains(a) {
                let r = choose|r: int| 0 <= r < l2.len() && l2[r] == a;
                if r < q {
                    assert(l1[r] == a);
                    assert(precedes(rows, i, l1[r] as int, l1[q] as int));
                } else {
                    assert(precedes(rows, i, l2[q] as int, l2[r] as int));
                }
            } else {
                assert(l1[q] < rows.len() && l1[q] != i);
                assert(precedes(rows, i, l2[q] as int, a as int));
            }
        }
    }
}

/// A neighbor list is determined by the rows and `k`: two lists that both meet
/// `is_top_k` are equal, so repeated builds from the same matrix give the same graph.
pub proof fn lemma_top_k_unique(rows: Seq<Seq<u32>>, i: int, k: int, l1: Seq<usize>, l2: Seq<usize>)
    requires
        0 <= i < rows.len(),
        is_top_k(rows, i, k, l1),
        is_top_k(rows, i, k, l2),
    ensures
        l1 == l2,
{
    lemma_top_k_prefix(rows, i, k, l1, l2, l1.len() as int);
    assert(l1 =~= l2);
}

/// The graph is determined by the rows and `k`: two adjacency structures that give
/// every row its `is_top_k` list are equal.
pub proof fn lemma_graph_unique(rows: Seq<Seq<u32>>, k: int, g1: Seq<Seq<usize>>, g2: Seq<Seq<usize>>)
    requires
        g1.len() == rows.len(),
        g2.len() == rows.len(),
        forall|i: int| 0 <= i < rows.len() ==> is_top_k(rows, i, k, #[trigger] g1[i]),
        forall|i: int| 0 <= i < rows.len() ==> is_top_k(rows, i, k, #[trigger] g2[i]),
    ensures
        g1 == g2,
{
    assert forall|i: int| 0 <= i < g1.len() implies #[trigger] g1[i] == g2[i] by {
        lemma_top_k_unique(rows, i, k, g1[i], g2[i]);
    }
    assert(g1 =~= g2);
}

/// The largest inner product of two rows of a well-formed matrix is below this bound.
pub open spec fn inner_bound() -> int {
    1099511627776
}

fn inner_product(x: &Vec<u32>, y: &Vec<u32>) -> (r: u64)
    requires
        x@.len() == y@.len(),
        x@.len() <= MAX_FEATURE_LEN,
        entries_bounded(x@),
        entries_bounded(y@),
    ensures
        r as int == inner(x@, y@),
        r < inner_bound(),
{
    let mut acc: u64 = 0;
    let mut t: usize = 0;
    while t < x.len()
        invariant
            t <= x@.len(),
            x@.len() == y@.len(),
            x@.len() <= MAX_FEATURE_LEN,
            entries_bounded(x@),
            entries_bounded(y@),
            acc as int == dot_upto(x@, y@, t as int),
            acc <= t * 1000000,
        decreases x@.len() - t,
    {
        let a = x[t];
        let b = y[t];
        assert(a <= FEATURE_ONE && b <= FEATURE_ONE);
        assert((a as int) * (b as int) <= 1000000) by (nonlinear_arith)
            requires
                a <= 1000,
                b <= 1000,
        ;
        acc = acc + (a as u64) * (b as u64);
        t = t + 1;
    }
    acc
}

/// Ranking keys of every row against row `i`: `inner(x_i, x_j)^2` over `reduced_den(x_j)`.
fn ranking_keys(rows: &Vec<Vec<u32>>, i: usize, norms: &Vec<u64>, d: Ghost<int>) -> (r: (Vec<u128>, Vec<u128>))
    requires
        i < rows@.len(),
        norms@.len() == rows@.len(),
        rows_wf(rows@.map_values(|v: Vec<u32>| v@), d@),
        forall|j: int|
            0 <= j < rows@.len() ==> #[trigger] norms@[j] as int == inner(rows@[j]@, rows@[j]@)
                && norms@[j] < inner_bound(),
    ensures
        r.0@.len() == rows@.len(),
        r.1@.len() == rows@.len(),
        forall|j: int| 0 <= j < rows@.len() ==> {
            &&& #[trigger] r.0@[j] as int == inner(rows@[i as int]@, rows@[j]@) * inner(rows@[i as int]@, rows@[j]@)
            &&& r.1@[j] as int == reduced_den(rows@[j]@)
            &&& r.0@[j] < 1208925819614629174706176
            &&& 0 < r.1@[j] < inner_bound()
        },
{
    let ghost view = rows@.map_values(|v: Vec<u32>| v@);
    let mut nums: Vec<u128> = Vec::new();
    let mut dens: Vec<u128> = Vec::new();
    let mut j: usize = 0;
    assert(view[i as int] == rows@[i as int]@);
    while j < rows.len()
        invariant
            j <= rows@.len(),
            i < rows@.len(),
            norms@.len() == rows@.len(),
            view == rows@.map_values(|v: Vec<u32>| v@),
            rows_wf(view, d@),
            forall|j: int|
            0 <= j < rows@.len() ==> #[trigger] norms@[j] as int == inner(rows@[j]@, rows@[j]@)
                && norms@[j] < inner_bound(),
            nums@.len() == j,
            dens@.len() == j,
            forall|q: int| 0 <= q < j ==> {
                &&& #[trigger] nums@[q] as int == inner(rows@[i as int]@, rows@[q]@) * inner(rows@[i as int]@, rows@[q]@)
                &&& dens@[q] as int == reduced_den(rows@[q]@)
                &&& nums@[q] < 1208925819614629174706176
                &&& 0 < dens@[q] < inner_bound()
            },
        decreases rows@.len() - j,
    {
        assert(view[j as int] == rows@[j as int]@);
        assert(view[i as int] == rows@[i as int]@);
        assert(view[i as int].len() == d@ && entries_bounded(view[i as int]));
        assert(view[j as int].len() == d@ && entries_bounded(view[j as int]));
        let a = inner_product(&rows[i], &rows[j]);
        assert((a as int) * (a as int) < 1208925819614629174706176) by (nonlinear_arith)
            requires
                a < 1099511627776,
        ;
        let num: u128 = (a as u128) * (a as u128);
        let n = norms[j];
        proof {
            lemma_dot_nonneg(rows@[j as int]@, rows@[j as int]@, rows@[j as int]@.len() as int);
        }
        let den: u128 = if n == 0 { 1 } else { n as u128 };
        nums.push(num);
        dens.push(den);
        assert(nums@[j as int] as int == inner(rows@[i as int]@, rows@[j as int]@) * inner(rows@[i as int]@, rows@[j as int]@));
        assert(dens@[j as int] as int == reduced_den(rows@[j as int]@));
        assert(nums@[j as int] < 1208925819614629174706176);
        assert(0 < dens@[j as int] < inner_bound());
        j = j + 1;
    }
    (nums, dens)
}

/// Keys of all rows against row `i`, as `ranking_keys` gives them.
pub open spec fn keys_for(rows: Seq<Seq<u32>>, i: int, nums: Seq<u128>, dens: Seq<u128>) -> bool {
    &&& nums.len() == rows.len()
    &&& dens.len() == rows.len()
    &&& forall|j: int|
        0 <= j < rows.len() ==> {
            &&& #[trigger] nums[j] as int == inner(rows[i], rows[j]) * inner(rows[i], rows[j])
            &&& dens[j] as int == reduced_den(rows[j])
            &&& nums[j] < 1208925819614629174706176
            &&& 0 < dens[j] < inner_bound()
        }
}

/// Whether row `c` ranks strictly above row `b` against row `i`, from their keys.
fn ranks_above(
    rows: Ghost<Seq<Seq<u32>>>,
    i: Ghost<int>,
    d: Ghost<int>,
    nums: &Vec<u128>,
    dens: &Vec<u128>,
    c: usize,
    b: usize,
) -> (r: bool)
    requires
        0 <= i@ < rows@.len(),
        c < rows@.len(),
        b < rows@.len(),
        rows_wf(rows@, d@),
        keys_for(rows@, i@, nums@, dens@),
    ensures
        r == !sim_ge(rows@[i@], rows@[b as int], rows@[c as int]),
{
    let nc = nums[c];
    let nb = nums[b];
    let dc = dens[c];
    let db = dens[b];
    assert((nc as int) * (db as int) < 1329227995784915872903807060280344576) by (nonlinear_arith)
        requires
            nc < 1208925819614629174706176,
            db < 1099511627776,
    ;
    assert((nb as int) * (dc as int) < 1329227995784915872903807060280344576) by (nonlinear_arith)
        requires
            nb < 1208925819614629174706176,
            dc < 1099511627776,
    ;
    proof {
        assert(rows@[i@].len() == d@ && rows@[b as int].len() == d@ && rows@[c as int].len() == d@);
        lemma_reduced_ge(rows@[i@], rows@[b as int], rows@[c as int]);
    }
    nc * db > nb * dc
}

/// The `min(k, n - 1)` rows that rank first against row `i`, in ranking order.
fn top_k_of_row(
    rows: Ghost<Seq<Seq<u32>>>,
    d: Ghost<int>,
    n: usize,
    i: usize,
    k: usize,
    nums: &Vec<u128>,
    dens: &Vec<u128>,
) -> (l: Vec<usize>)
    requires
        n == rows@.len(),
        i < n,
        rows_wf(rows@, d@),
        keys_for(rows@, i as int, nums@, dens@),
    ensures
        is_top_k(rows@, i as int, k as int, l@),
{
    // every other row, in ascending order
    let mut remaining: Vec<usize> = Vec::new();
    let mut j: usize = 0;
    while j < n
        invariant
            j <= n,
            i < n,
            remaining@.len() == (if j <= i { j as int } else { j - 1 }),
            forall|q: int|
                0 <= q < remaining@.len() ==> #[trigger] remaining@[q] == (if q < i { q } else { q + 1 }),
        decreases n - j,
    {
        if j != i {
            remaining.push(j);
        }
        j = j + 1;
    }
    let m: usize = if k < n - 1 { k } else { n - 1 };
    let mut list: Vec<usize> = Vec::new();
    proof {
        assert forall|c: int| 0 <= c < n && c != i implies #[trigger] remaining@.contains(c as usize) by {
            let q = if c < i { c } else { c - 1 };
            assert(remaining@[q] == c);
        }
    }
    while list.len() < m
        invariant
            n == rows@.len(),
            i < n,
            m <= n - 1,
            m == vstd::math::min(k as int, n - 1),
            rows_wf(rows@, d@),
            keys_for(rows@, i as int, nums@, dens@),
            list@.len() + remaining@.len() == n - 1,
            list@.len() <= m,
            forall|q: int| 0 <= q < remaining@.len() ==> #[trigger] remaining@[q] < n && remaining@[q] != i,
            forall|p: int| 0 <= p < list@.len() ==> #[trigger] list@[p] < n && list@[p] != i,
            forall|q1: int, q2: int| 0 <= q1 < q2 < remaining@.len() ==> #[trigger] remaining@[q1] < #[trigger] remaining@[q2],
            forall|c: int|
                0 <= c < n && c != i ==> #[trigger] remaining@.contains(c as usize) || list@.contains(c as usize),
            forall|p: int, q: int|
                0 <= p < q < list@.len() ==> precedes(rows@, i as int, #[trigger] list@[p] as int, #[trigger] list@[q] as int),
            forall|p: int, q: int|
                0 <= p < list@.len() && 0 <= q < remaining@.len()
                    ==> precedes(rows@, i as int, #[trigger] list@[p] as int, #[trigger] remaining@[q] as int),
        decreases m - list@.len(),
    {
        let mut best_pos: usize = 0;
        let mut t: usize = 1;
        while t < remaining.len()
            invariant
                n == rows@.len(),
                i < n,
                rows_wf(rows@, d@),
                keys_for(rows@, i as int, nums@, dens@),
                forall|q: int| 0 <= q < remaining@.len() ==> #[trigger] remaining@[q] < n && remaining@[q] != i,
                forall|q1: int, q2: int| 0 <= q1 < q2 < remaining@.len() ==> #[trigger] remaining@[q1] < #[trigger] remaining@[q2],
                best_pos < t <= remaining@.len(),
                forall|q: int|
                    0 <= q < t && q != best_pos ==> precedes(rows@, i as int, remaining@[best_pos as int] as int, #[trigger] remaining@[q] as int),
            decreases remaining@.len() - t,
        {
            let c = remaining[t];
            let b = remaining[best_pos];
            if ranks_above(rows, Ghost(i as int), d, nums, dens, c, b) {
                proof {
                    assert forall|q: int| 0 <= q < t + 1 && q != t implies precedes(rows@, i as int, c as int, #[trigger] remaining@[q] as int) by {
                        if q != best_pos {
                            lemma_precedes_trans(rows@, i as int, c as int, b as int, remaining@[q] as int);
                        }
                    }
                }
                best_pos = t;
            } else {
                proof {
                    assert(remaining@[best_pos as int] < remaining@[t as int]);
                }
            }
            t = t + 1;
        }
        let ghost old_rem = remaining@;
        let ghost old_list = list@;
        let best = remaining.remove(best_pos);
        list.push(best);
        proof {
            assert(remaining@ == old_rem.remove(best_pos as int));
            assert forall|q: int| 0 <= q < remaining@.len() implies #[trigger] remaining@[q] == old_rem[if q < best_pos { q } else { q + 1 }] by {}
            assert forall|c: int| 0 <= c < n && c != i implies #[trigger] remaining@.contains(c as usize) || list@.contains(c as usize) by {
                if old_list.contains(c as usize) {
                    let p = choose|p: int| 0 <= p < old_list.len() && old_list[p] == c as usize;
                    assert(list@[p] == c as usize);
                } else {
                    assert(old_rem.contains(c as usize));
                    let q = choose|q: int| 0 <= q < old_rem.len() && old_rem[q] == c as usize;
                    if q == best_pos {
                        assert(list@[old_list.len() as int] == c as usize);
                    } else if q < best_pos {
                        assert(remaining@[q] == c as usize);
                    } else {
                        assert(remaining@[q - 1] == c as usize);
                    }
                }
            }
            assert forall|p: int, q: int| 0 <= p < q < list@.len() implies precedes(rows@, i as int, #[trigger] list@[p] as int, #[trigger] list@[q] as int) by {
                if q == old_list.len() {
                    assert(old_rem[best_pos as int] == best);
                    assert(precedes(rows@, i as int, old_list[p] as int, old_rem[best_pos as int] as int));
                } else {
                    assert(list@[p] == old_list[p] && list@[q] == old_list[q]);
                }
            }
            assert forall|p: int, q: int|
                0 <= p < list@.len() && 0 <= q < remaining@.len()
                    implies precedes(rows@, i as int, #[trigger] list@[p] as int, #[trigger] remaining@[q] as int) by {
                let q0 = if q < best_pos { q } else { q + 1 };
                assert(remaining@[q] == old_rem[q0]);
                if p == old_list.len() {
                    assert(list@[p] == old_rem[best_pos as int]);
                    assert(q0 != best_pos);
                    assert(precedes(rows@, i as int, old_rem[best_pos as int] as int, old_rem[q0] as int));
                } else {
                    assert(list@[p] == old_list[p]);
                    assert(precedes(rows@, i as int, old_list[p] as int, old_rem[q0] as int));
                }
            }
            assert forall|q1: int, q2: int| 0 <= q1 < q2 < remaining@.len() implies #[trigger] remaining@[q1] < #[trigger] remaining@[q2] by {
                let a1 = if q1 < best_pos { q1 } else { q1 + 1 };
                let a2 = if q2 < best_pos { q2 } else { q2 + 1 };
                assert(old_rem[a1] < old_rem[a2]);
            }
        }
    }
    proof {
        assert forall|p: int, j: int|
            0 <= p < list@.len() && 0 <= j < rows@.len() && j != i && !list@.contains(j as usize)
                implies #[trigger] precedes(rows@, i as int, list@[p] as int, j) by {
            assert(remaining@.contains(j as usize));
            let q = choose|q: int| 0 <= q < remaining@.len() && remaining@[q] == j as usize;
            assert(precedes(rows@, i as int, list@[p] as int, remaining@[q] as int));
        }
    }
    list
}

/// For every row, the `min(k, n - 1)` other rows most cosine-similar to it, most
/// similar first, ties broken by ascending row index.
pub fn build_graph_from_features(features: &FeatureMatrix, k: usize) -> (g: Vec<Vec<usize>>)
    requires
        features.wf(),
    ensures
        g@.len() == features.rows@.len(),
        forall|i: int| 0 <= i < g@.len() ==> is_top_k(features.rows_view(), i, k as int, #[trigger] g@[i]@),
{
    let rows = &features.rows;
    let ghost view = features.rows_view();
    let ghost d = features.ncols as int;
    let n = rows.len();
    assert(rows_wf(view, d)) by {
        assert forall|r: int| 0 <= r < view.len() implies (#[trigger] view[r]).len() == d && entries_bounded(view[r]) by {
            assert(view[r] == features.rows@[r]@);
        }
    }
    let mut norms: Vec<u64> = Vec::new();
    let mut j: usize = 0;
    while j < n
        invariant
            j <= n,
            n == rows@.len(),
            view == rows@.map_values(|v: Vec<u32>| v@),
            rows_wf(view, d),
            norms@.len() == j,
            forall|q: int|
                0 <= q < j ==> #[trigger] norms@[q] as int == inner(rows@[q]@, rows@[q]@)
                    && norms@[q] < inner_bound(),
        decreases n - j,
    {
        assert(view[j as int] == rows@[j as int]@);
        let v = inner_product(&rows[j], &rows[j]);
        norms.push(v);
        j = j + 1;
    }
    let mut graph: Vec<Vec<usize>> = Vec::new();
    let mut i: usize = 0;
    while i < n
        invariant
            i <= n,
            n == rows@.len(),
            view == rows@.map_values(|v: Vec<u32>| v@),
            rows_wf(view, d),
            norms@.len() == n,
            forall|q: int|
                0 <= q < n ==> #[trigger] norms@[q] as int == inner(rows@[q]@, rows@[q]@)
                    && norms@[q] < inner_bound(),
            graph@.len() == i,
            forall|q: int| 0 <= q < i ==> is_top_k(view, q, k as int, #[trigger] graph@[q]@),
        decreases n - i,
    {
        let (nums, dens) = ranking_keys(rows, i, &norms, Ghost(d));
        proof {
            assert forall|q: int| 0 <= q < n implies #[trigger] view[q] == rows@[q]@ by {}
        }
        let l = top_k_of_row(Ghost(view), Ghost(d), n, i, k, &nums, &dens);
        graph.push(l);
        i = i + 1;
    }
    graph
}

} // verus!
