use vstd::prelude::*;
use crate::matrix::{FeatureMatrix, FEATURE_ONE, MAX_FEATURE_LEN, entries_bounded};
use crate::vocab::{
    is_vocabulary, lemma_sorted_distinct, lemma_vocabulary_len, lemma_vocabulary_unique, vocabulary,
};

verus! {

/// Why a feature matrix could not be built.
#[derive(Debug, Clone, Copy, PartialEq, Eq, Structural)]
pub enum FeatureError {
    /// The numeric column at this position does not have one value per row.
    NumericColumnLength(usize),
    /// The categorical column at this position does not have one value per row.
    CategoricalColumnLength(usize),
    /// The feature vectors would be longer than `MAX_FEATURE_LEN`.
    TooManyFeatures,
}

/// The numeric columns as sequences.
pub open spec fn columns_view(numeric: Seq<Vec<i64>>) -> Seq<Seq<i64>> {
    numeric.map_values(|col: Vec<i64>| col@)
}

/// Smallest value of a column (zero for an empty one).
pub open spec fn seq_min(s: Seq<i64>) -> int
    decreases s.len(),
{
    if s.len() == 0 {
        0
    } else if s.len() == 1 {
        s[0] as int
    } else {
        vstd::math::min(seq_min(s.drop_last()), s.last() as int)
    }
}

/// Largest value of a column (zero for an empty one).
pub open spec fn seq_max(s: Seq<i64>) -> int
    decreases s.len(),
{
    if s.len() == 0 {
        0
    } else if s.len() == 1 {
        s[0] as int
    } else {
        vstd::math::max(seq_max(s.drop_last()), s.last() as int)
    }
}

/// Min-max normalization of `v` to fixed point, rounded down; a constant column scales to zero.
pub open spec fn scaled(v: int, lo: int, hi: int) -> int {
    if hi <= lo {
        0
    } else {
        (v - lo) * (FEATURE_ONE as int) / (hi - lo)
    }
}

/// Number of distinct values in a column.
pub open spec fn distinct_count(col: Seq<Seq<char>>) -> int {
    col.to_set().len() as int
}

/// Where the one-hot block of categorical column `c` starts, after the numeric columns.
pub open spec fn block_offset(cats: Seq<Seq<Seq<char>>>, c: int) -> int
    decreases c,
{
    if c <= 0 {
        0
    } else {
        block_offset(cats, c - 1) + distinct_count(cats[c - 1])
    }
}

/// Length of a feature vector: one per numeric column, one per distinct category value.
pub open spec fn feature_len(nnum: int, cats: Seq<Seq<Seq<char>>>) -> int {
    nnum + block_offset(cats, cats.len() as int)
}

/// The value in one-hot position `t` of a block with vocabulary `v`, for the value `x`.
pub open spec fn one_hot(v: Seq<Seq<char>>, t: int, x: Seq<char>) -> u32 {
    if v[t] == x {
        FEATURE_ONE
    } else {
        0
    }
}

/// Every column has `nrows` values.
pub open spec fn columns_fit(nrows: int, numeric: Seq<Seq<i64>>, cats: Seq<Seq<Seq<char>>>) -> bool {
    &&& forall|c: int| 0 <= c < numeric.len() ==> (#[trigger] numeric[c]).len() == nrows
    &&& forall|c: int| 0 <= c < cats.len() ==> (#[trigger] cats[c]).len() == nrows
}

/// `m` is the feature matrix of the given columns.
pub open spec fn encodes(m: FeatureMatrix, nrows: int, numeric: Seq<Seq<i64>>, cats: Seq<Seq<Seq<char>>>) -> bool {
    let rows = m.rows_view();
    let voc = m.vocabularies.deep_view();
    &&& m.wf()
    &&& rows.len() == nrows
    &&& m.ncols == feature_len(numeric.len() as int, cats)
    &&& voc.len() == cats.len()
    &&& forall|c: int| 0 <= c < cats.len() ==> is_vocabulary(#[trigger] voc[c], cats[c])
    &&& forall|r: int, c: int|
        0 <= r < nrows && 0 <= c < numeric.len() ==> #[trigger] rows[r][c] as int == scaled(
            numeric[c][r] as int,
            seq_min(numeric[c]),
            seq_max(numeric[c]),
        )
    &&& forall|r: int, c: int, t: int|
        0 <= r < nrows && 0 <= c < cats.len() && 0 <= t < voc[c].len() ==> #[trigger] rows[r][numeric.len()
            + block_offset(cats, c) + t] == one_hot(voc[c], t, #[trigger] cats[c][r])
}

proof fn lemma_min_max(s: Seq<i64>, r: int)
    requires
        0 <= r < s.len(),
    ensures
        seq_min(s) <= s[r] <= seq_max(s),
    decreases s.len(),
{
    if s.len() > 1 && r < s.len() - 1 {
        lemma_min_max(s.drop_last(), r);
    }
}

proof fn lemma_min_max_attained(s: Seq<i64>)
    requires
        s.len() > 0,
    ensures
        exists|r: int| 0 <= r < s.len() && s[r] as int == seq_min(s),
        exists|r: int| 0 <= r < s.len() && s[r] as int == seq_max(s),
    decreases s.len(),
{
    if s.len() > 1 {
        lemma_min_max_attained(s.drop_last());
        let a = choose|r: int| 0 <= r < s.len() - 1 && s.drop_last()[r] as int == seq_min(s.drop_last());
        let b = choose|r: int| 0 <= r < s.len() - 1 && s.drop_last()[r] as int == seq_max(s.drop_last());
        assert(s[a] == s.drop_last()[a]);
        assert(s[b] == s.drop_last()[b]);
    } else {
        assert(s[0] as int == seq_min(s));
    }
}

proof fn lemma_scaled_bounds(v: int, lo: int, hi: int)
    requires
        lo <= v <= hi,
    ensures
        0 <= scaled(v, lo, hi) <= FEATURE_ONE,
        v == lo ==> scaled(v, lo, hi) == 0,
        v == hi && lo < hi ==> scaled(v, lo, hi) == FEATURE_ONE,
{
    if lo < hi {
        let a = (v - lo) * 1000;
        let b = (hi - lo) * 1000;
        assert(0 <= a <= b) by (nonlinear_arith)
            requires
                lo <= v <= hi,
                a == (v - lo) * 1000,
                b == (hi - lo) * 1000,
        ;
        vstd::arithmetic::div_mod::lemma_div_is_ordered(a, b, hi - lo);
        vstd::arithmetic::div_mod::lemma_div_pos_is_pos(a, hi - lo);
        vstd::arithmetic::div_mod::lemma_div_by_multiple(1000, hi - lo);
        assert(b == 1000 * (hi - lo)) by (nonlinear_arith)
            requires
                b == (hi - lo) * 1000,
        ;
    }
}

/// Min-max normalization keeps every value of a numeric column within `[0, FEATURE_ONE]`;
/// when the column is not constant, a row holding its minimum scales to zero and a row
/// holding its maximum to `FEATURE_ONE`, and both rows exist.
pub proof fn lemma_normalization_bounds(col: Seq<i64>, r: int)
    requires
        0 <= r < col.len(),
    ensures
        0 <= scaled(col[r] as int, seq_min(col), seq_max(col)) <= FEATURE_ONE,
        col[r] as int == seq_min(col) ==> scaled(col[r] as int, seq_min(col), seq_max(col)) == 0,
        col[r] as int == seq_max(col) && seq_min(col) < seq_max(col) ==> scaled(
            col[r] as int,
            seq_min(col),
            seq_max(col),
        ) == FEATURE_ONE,
        exists|lo: int| 0 <= lo < col.len() && col[lo] as int == seq_min(col),
        exists|hi: int| 0 <= hi < col.len() && col[hi] as int == seq_max(col),
{
    lemma_min_max(col, r);
    lemma_scaled_bounds(col[r] as int, seq_min(col), seq_max(col));
    lemma_min_max_attained(col);
}

proof fn lemma_offset_mono(cats: Seq<Seq<Seq<char>>>, a: int, b: int)
    requires
        0 <= a <= b,
    ensures
        block_offset(cats, a) <= block_offset(cats, b),
    decreases b - a,
{
    if a < b {
        lemma_offset_mono(cats, a, b - 1);
    }
}

/// Row `r` of the feature matrix, of length `total`.
pub open spec fn row_encodes(
    row: Seq<u32>,
    r: int,
    num: Seq<Seq<i64>>,
    cats: Seq<Seq<Seq<char>>>,
    voc: Seq<Seq<Seq<char>>>,
    total: int,
) -> bool {
    &&& row.len() == total
    &&& entries_bounded(row)
    &&& forall|c: int| 0 <= c < num.len() ==> #[trigger] row[c] as int == scaled(
        num[c][r] as int,
        seq_min(num[c]),
        seq_max(num[c]),
    )
    &&& forall|c: int, t: int|
        0 <= c < cats.len() && 0 <= t < voc[c].len() ==> row[num.len() + block_offset(cats, c) + t]
            == one_hot(voc[c], t, #[trigger] cats[c][r]) && #[trigger] voc[c][t] == voc[c][t]
}

fn build_row(
    r: usize,
    numeric: &Vec<Vec<i64>>,
    categorical: &Vec<Vec<String>>,
    lows: &Vec<i64>,
    highs: &Vec<i64>,
    vocabularies: &Vec<Vec<String>>,
    total: Ghost<int>,
) -> (row: Vec<u32>)
    requires
        forall|c: int| 0 <= c < numeric@.len() ==> r < (#[trigger] numeric@[c])@.len(),
        forall|c: int| 0 <= c < categorical@.len() ==> r < (#[trigger] categorical@[c])@.len(),
        total@ == feature_len(numeric@.len() as int, categorical.deep_view()),
        total@ <= MAX_FEATURE_LEN,
        vocabularies@.len() == categorical@.len(),
        forall|d: int|
            0 <= d < categorical@.len() ==> is_vocabulary(
                #[trigger] vocabularies.deep_view()[d],
                categorical.deep_view()[d],
            ),
        lows@.len() == numeric@.len(),
        highs@.len() == numeric@.len(),
        forall|d: int|
            0 <= d < numeric@.len() ==> #[trigger] lows@[d] as int == seq_min(numeric@[d]@) && highs@[d] as int
                == seq_max(numeric@[d]@),
    ensures
        row_encodes(
            row@,
            r as int,
            columns_view(numeric@),
            categorical.deep_view(),
            vocabularies.deep_view(),
            total@,
        ),
{
    let ghost num = columns_view(numeric@);
    let ghost cats = categorical.deep_view();
    let ghost voc = vocabularies.deep_view();
    let nnum = numeric.len();
    let ncat = categorical.len();
    let mut row: Vec<u32> = Vec::new();
    let mut c: usize = 0;
    assert forall|c: int| 0 <= c < num.len() implies r < (#[trigger] num[c]).len() by {
        assert(num[c] == numeric@[c]@);
    }
    assert forall|c: int| 0 <= c < cats.len() implies r < (#[trigger] cats[c]).len() by {
        assert(cats[c] == categorical@[c].deep_view());
    }
    assert forall|d: int|
        0 <= d < num.len() implies #[trigger] lows@[d] as int == seq_min(num[d]) && highs@[d] as int == seq_max(num[d]) by {
        assert(num[d] == numeric@[d]@);
    }
    while c < nnum
        invariant
            c <= nnum,
            nnum == num.len(),
            num == columns_view(numeric@),
            forall|c: int| 0 <= c < num.len() ==> r < (#[trigger] num[c]).len(),
            lows@.len() == num.len(),
            highs@.len() == num.len(),
            forall|d: int|
                0 <= d < num.len() ==> #[trigger] lows@[d] as int == seq_min(num[d]) && highs@[d] as int
                    == seq_max(num[d]),
            row@.len() == c,
            entries_bounded(row@),
            forall|d: int| 0 <= d < c ==> #[trigger] row@[d] as int == scaled(
                num[d][r as int] as int,
                seq_min(num[d]),
                seq_max(num[d]),
            ),
        decreases nnum - c,
    {
        assert(num[c as int] == numeric@[c as int]@);
        let v = numeric[c][r];
        proof {
            lemma_min_max(num[c as int], r as int);
            lemma_scaled_bounds(v as int, lows@[c as int] as int, highs@[c as int] as int);
        }
        let x = scale(v, lows[c], highs[c]);
        row.push(x);
        c = c + 1;
    }
    let mut c: usize = 0;
    while c < ncat
        invariant
            c <= ncat,
            nnum == num.len(),
            ncat == cats.len(),
            cats == categorical.deep_view(),
            voc == vocabularies.deep_view(),
            voc.len() == cats.len(),
            forall|c: int| 0 <= c < cats.len() ==> r < (#[trigger] cats[c]).len(),
            forall|d: int| 0 <= d < cats.len() ==> is_vocabulary(#[trigger] voc[d], cats[d]),
            total@ == feature_len(num.len() as int, cats),
            total@ <= MAX_FEATURE_LEN,
            row@.len() == nnum + block_offset(cats, c as int),
            entries_bounded(row@),
            forall|d: int| 0 <= d < nnum ==> #[trigger] row@[d] as int == scaled(
                num[d][r as int] as int,
                seq_min(num[d]),
                seq_max(num[d]),
            ),
            forall|d: int, t: int|
                0 <= d < c && 0 <= t < voc[d].len() ==> row@[nnum + block_offset(cats, d) + t] == one_hot(
                    voc[d],
                    t,
                    #[trigger] cats[d][r as int],
                ) && #[trigger] voc[d][t] == voc[d][t],
        decreases ncat - c,
    {
        assert(cats[c as int] == categorical@[c as int].deep_view());
        let v = &vocabularies[c];
        let x = &categorical[c][r];
        assert(voc[c as int] == v.deep_view());
        assert(cats[c as int][r as int] == x@);
        proof {
            lemma_vocabulary_len(voc[c as int], cats[c as int]);
            lemma_offset_mono(cats, c + 1, ncat as int);
        }
        let ghost base = nnum + block_offset(cats, c as int);
        proof {
            lemma_offset_mono(cats, 0, c as int);
        }
        let mut t: usize = 0;
        while t < v.len()
            invariant
                t <= v@.len(),
                v@.len() == voc[c as int].len(),
                v.deep_view() == voc[c as int],
                c < ncat,
                nnum == num.len(),
                ncat == cats.len(),
                voc.len() == cats.len(),
                forall|d: int| 0 <= d < cats.len() ==> is_vocabulary(#[trigger] voc[d], cats[d]),
                base == nnum + block_offset(cats, c as int),
                base + v@.len() <= MAX_FEATURE_LEN,
                base >= nnum,
                row@.len() == base + t,
                entries_bounded(row@),
                forall|d: int| 0 <= d < nnum ==> #[trigger] row@[d] as int == scaled(
                    num[d][r as int] as int,
                    seq_min(num[d]),
                    seq_max(num[d]),
                ),
                forall|d: int, s: int|
                    0 <= d < c && 0 <= s < voc[d].len() ==> row@[nnum + block_offset(cats, d) + s] == one_hot(
                        voc[d],
                        s,
                        #[trigger] cats[d][r as int],
                    ) && #[trigger] voc[d][s] == voc[d][s],
                forall|s: int| 0 <= s < t ==> #[trigger] row@[base + s] == one_hot(voc[c as int], s, x@),
            decreases v@.len() - t,
        {
            let ghost before = row@;
            assert(v.deep_view()[t as int] == v@[t as int]@);
            let bit: u32 = if v[t] == *x {
                FEATURE_ONE
            } else {
                0
            };
            row.push(bit);
            proof {
                assert(row@ =~= before.push(bit));
                assert forall|d: int| 0 <= d < nnum implies #[trigger] row@[d] as int == scaled(
                    num[d][r as int] as int,
                    seq_min(num[d]),
                    seq_max(num[d]),
                ) by {
                    assert(row@[d] == before[d]);
                }
                assert forall|d: int, s: int|
                    0 <= d < c && 0 <= s < voc[d].len() implies row@[nnum + block_offset(cats, d) + s] == one_hot(
                        voc[d],
                        s,
                        #[trigger] cats[d][r as int],
                    ) && #[trigger] voc[d][s] == voc[d][s] by {
                    lemma_offset_mono(cats, d + 1, c as int);
                    lemma_offset_mono(cats, 0, d);
                    lemma_vocabulary_len(voc[d], cats[d]);
                    assert(block_offset(cats, d + 1) == block_offset(cats, d) + distinct_count(cats[d]));
                    assert(row@[nnum + block_offset(cats, d) + s] == before[nnum + block_offset(cats, d) + s]);
                    assert(before[nnum + block_offset(cats, d) + s] == one_hot(voc[d], s, cats[d][r as int]));
                }
            }
            t = t + 1;
        }
        proof {
            assert forall|d: int, s: int|
                0 <= d < c + 1 && 0 <= s < voc[d].len() implies row@[nnum + block_offset(cats, d) + s] == one_hot(
                    voc[d],
                    s,
                    #[trigger] cats[d][r as int],
                ) && #[trigger] voc[d][s] == voc[d][s] by {
                if d == c {
                    assert(row@[base + s] == one_hot(voc[c as int], s, x@));
                }
            }
        }
        c = c + 1;
    }
    row
}

/// What building the feature matrix of the given columns yields: the matrix when every
/// column has `nrows` values and the feature vectors fit in `MAX_FEATURE_LEN`; otherwise
/// the first column that is too long or too short, or `TooManyFeatures`.
pub open spec fn build_outcome(
    nrows: int,
    num: Seq<Seq<i64>>,
    cats: Seq<Seq<Seq<char>>>,
    r: Result<FeatureMatrix, FeatureError>,
) -> bool {
    match r {
        Ok(m) => columns_fit(nrows, num, cats) && feature_len(num.len() as int, cats) <= MAX_FEATURE_LEN
            && encodes(m, nrows, num, cats),
        Err(FeatureError::NumericColumnLength(c)) => c < num.len() && num[c as int].len() != nrows && forall|d: int|
            0 <= d < c ==> (#[trigger] num[d]).len() == nrows,
        Err(FeatureError::CategoricalColumnLength(c)) => (forall|d: int|
            0 <= d < num.len() ==> (#[trigger] num[d]).len() == nrows) && c < cats.len() && cats[c as int].len()
            != nrows && forall|d: int| 0 <= d < c ==> (#[trigger] cats[d]).len() == nrows,
        Err(FeatureError::TooManyFeatures) => columns_fit(nrows, num, cats) && feature_len(num.len() as int, cats)
            > MAX_FEATURE_LEN,
    }
}

proof fn lemma_block_cover(cats: Seq<Seq<Seq<char>>>, c: int, idx: int) -> (dt: (int, int))
    requires
        0 <= c,
        0 <= idx < block_offset(cats, c),
    ensures
        0 <= dt.0 < c,
        0 <= dt.1 < distinct_count(cats[dt.0]),
        idx == block_offset(cats, dt.0) + dt.1,
    decreases c,
{
    if idx < block_offset(cats, c - 1) {
        lemma_block_cover(cats, c - 1, idx)
    } else {
        (c - 1, idx - block_offset(cats, c - 1))
    }
}

/// The feature matrix of given columns is unique: two matrices that both encode them
/// have the same rows, width and vocabularies, so repeated builds give identical results.
pub proof fn lemma_encoding_unique(
    m1: FeatureMatrix,
    m2: FeatureMatrix,
    nrows: int,
    num: Seq<Seq<i64>>,
    cats: Seq<Seq<Seq<char>>>,
)
    requires
        encodes(m1, nrows, num, cats),
        encodes(m2, nrows, num, cats),
    ensures
        m1.rows_view() == m2.rows_view(),
        m1.ncols == m2.ncols,
        m1.vocabularies.deep_view() == m2.vocabularies.deep_view(),
{
    let v1 = m1.vocabularies.deep_view();
    let v2 = m2.vocabularies.deep_view();
    assert forall|c: int| 0 <= c < cats.len() implies #[trigger] v1[c] == v2[c] by {
        lemma_vocabulary_unique(v1[c], v2[c], cats[c]);
    }
    assert(v1 =~= v2);
    let r1 = m1.rows_view();
    let r2 = m2.rows_view();
    let nnum = num.len() as int;
    assert forall|r: int| 0 <= r < nrows implies #[trigger] r1[r] == r2[r] by {
        assert(r1[r] == m1.rows@[r]@);
        assert(r2[r] == m2.rows@[r]@);
        assert forall|j: int| 0 <= j < r1[r].len() implies r1[r][j] == r2[r][j] by {
            if j < nnum {
                assert(r1[r][j] as int == scaled(num[j][r] as int, seq_min(num[j]), seq_max(num[j])));
                assert(r2[r][j] as int == scaled(num[j][r] as int, seq_min(num[j]), seq_max(num[j])));
            } else {
                let (d, t) = lemma_block_cover(cats, cats.len() as int, j - nnum);
                lemma_vocabulary_len(v1[d], cats[d]);
                assert(r1[r][nnum + block_offset(cats, d) + t] == one_hot(v1[d], t, cats[d][r]));
                assert(r2[r][nnum + block_offset(cats, d) + t] == one_hot(v2[d], t, cats[d][r]));
            }
        }
        assert(r1[r] =~= r2[r]);
    }
    assert(r1 =~= r2);
}

/// In every row, each categorical column's block holds `FEATURE_ONE` at exactly one
/// position, `t`, and zero at all others.
pub proof fn lemma_one_hot_exactly_one(
    m: FeatureMatrix,
    nrows: int,
    num: Seq<Seq<i64>>,
    cats: Seq<Seq<Seq<char>>>,
    r: int,
    c: int,
) -> (t: int)
    requires
        columns_fit(nrows, num, cats),
        encodes(m, nrows, num, cats),
        0 <= r < nrows,
        0 <= c < cats.len(),
    ensures
        0 <= t < m.vocabularies.deep_view()[c].len(),
        m.rows_view()[r][num.len() + block_offset(cats, c) + t] == FEATURE_ONE,
        forall|s: int|
            0 <= s < m.vocabularies.deep_view()[c].len() && s != t ==> #[trigger] m.rows_view()[r][num.len()
                + block_offset(cats, c) + s] == 0,
{
    let row = m.rows_view()[r];
    let v = m.vocabularies.deep_view()[c];
    let base = num.len() + block_offset(cats, c);
    let x = cats[c][r];
    assert(is_vocabulary(v, cats[c]));
    assert(v.contains(x));
    let t = choose|t: int| 0 <= t < v.len() && v[t] == x;
    lemma_sorted_distinct(v);
    assert(row[base + t] == one_hot(v, t, x));
    assert forall|s: int| 0 <= s < v.len() && s != t implies #[trigger] row[base + s] == 0 by {
        assert(row[base + s] == one_hot(v, s, x));
        assert(v[s] != v[t]);
    }
    t
}

fn column_range(col: &Vec<i64>) -> (r: (i64, i64))
    ensures
        r.0 as int == seq_min(col@),
        r.1 as int == seq_max(col@),
{
    if col.len() == 0 {
        return (0, 0);
    }
    let mut lo = col[0];
    let mut hi = col[0];
    let mut t: usize = 1;
    assert(col@.take(1).len() == 1);
    while t < col.len()
        invariant
            1 <= t <= col@.len(),
            lo as int == seq_min(col@.take(t as int)),
            hi as int == seq_max(col@.take(t as int)),
        decreases col@.len() - t,
    {
        assert(col@.take(t + 1).drop_last() =~= col@.take(t as int));
        let v = col[t];
        if v < lo {
            lo = v;
        }
        if v > hi {
            hi = v;
        }
        t = t + 1;
    }
    assert(col@.take(t as int) =~= col@);
    (lo, hi)
}

fn scale(v: i64, lo: i64, hi: i64) -> (r: u32)
    requires
        lo <= v <= hi,
    ensures
        r as int == scaled(v as int, lo as int, hi as int),
{
    proof {
        lemma_scaled_bounds(v as int, lo as int, hi as int);
    }
    if hi == lo {
        0
    } else {
        let a: u128 = (v as i128 - lo as i128) as u128;
        let b: u128 = (hi as i128 - lo as i128) as u128;
        assert(a * 1000 <= 18446744073709551615000) by (nonlinear_arith)
            requires
                a <= 18446744073709551615,
        ;
        let q = (a * 1000) / b;
        q as u32
    }
}

/// The feature matrix of a catalog given column by column: `numeric[c][r]` and
/// `categorical[c][r]` are the values of row `r` in column `c`. Numeric columns come
/// first, min-max normalized; each categorical column follows as a one-hot block over
/// its sorted distinct values.
pub fn build_feature_matrix(nrows: usize, numeric: &Vec<Vec<i64>>, categorical: &Vec<Vec<String>>) -> (r:
    Result<FeatureMatrix, FeatureError>)
    ensures
        build_outcome(nrows as int, columns_view(numeric@), categorical.deep_view(), r),
{
    let ghost num = columns_view(numeric@);
    let ghost cats = categorical.deep_view();
    let nnum = numeric.len();
    let ncat = categorical.len();
    let mut c: usize = 0;
    while c < nnum
        invariant
            c <= nnum,
            nnum == num.len(),
            num == columns_view(numeric@),
            forall|d: int| 0 <= d < c ==> (#[trigger] num[d]).len() == nrows,
        decreases nnum - c,
    {
        assert(num[c as int] == numeric@[c as int]@);
        if numeric[c].len() != nrows {
            return Err(FeatureError::NumericColumnLength(c));
        }
        c = c + 1;
    }
    let mut c: usize = 0;
    while c < ncat
        invariant
            c <= ncat,
            ncat == cats.len(),
            cats == categorical.deep_view(),
            forall|d: int| 0 <= d < c ==> (#[trigger] cats[d]).len() == nrows,
            num == columns_view(numeric@),
            nnum == num.len(),
            forall|d: int| 0 <= d < nnum ==> (#[trigger] num[d]).len() == nrows,
        decreases ncat - c,
    {
        assert(cats[c as int] == categorical@[c as int].deep_view());
        if categorical[c].len() != nrows {
            assert(cats[c as int].len() != nrows);
            return Err(FeatureError::CategoricalColumnLength(c));
        }
        c = c + 1;
    }
    assert(columns_fit(nrows as int, num, cats));
    // statistics: range of each numeric column, vocabulary of each categorical one
    let mut lows: Vec<i64> = Vec::new();
    let mut highs: Vec<i64> = Vec::new();
    let mut c: usize = 0;
    while c < nnum
        invariant
            c <= nnum,
            nnum == num.len(),
            num == columns_view(numeric@),
            lows@.len() == c,
            highs@.len() == c,
            forall|d: int| 0 <= d < c ==> #[trigger] lows@[d] as int == seq_min(num[d]) && highs@[d] as int == seq_max(num[d]),
        decreases nnum - c,
    {
        assert(num[c as int] == numeric@[c as int]@);
        let (lo, hi) = column_range(&numeric[c]);
        lows.push(lo);
        highs.push(hi);
        c = c + 1;
    }
    let mut vocabularies: Vec<Vec<String>> = Vec::new();
    let mut total: usize = nnum;
    let mut c: usize = 0;
    assert(nnum <= MAX_FEATURE_LEN || feature_len(nnum as int, cats) > MAX_FEATURE_LEN) by {
        lemma_offset_mono(cats, 0, ncat as int);
    }
    if nnum > MAX_FEATURE_LEN {
        return Err(FeatureError::TooManyFeatures);
    }
    while c < ncat
        invariant
            c <= ncat,
            ncat == cats.len(),
            cats == categorical.deep_view(),
            total == nnum + block_offset(cats, c as int),
            total <= MAX_FEATURE_LEN,
            nnum == num.len(),
            num == columns_view(numeric@),
            columns_fit(nrows as int, num, cats),
            vocabularies@.len() == c,
            forall|d: int| 0 <= d < c ==> is_vocabulary(#[trigger] vocabularies.deep_view()[d], cats[d]),
        decreases ncat - c,
    {
        assert(cats[c as int] == categorical@[c as int].deep_view());
        let v = vocabulary(&categorical[c]);
        proof {
            lemma_vocabulary_len(v.deep_view(), cats[c as int]);
        }
        if v.len() > MAX_FEATURE_LEN - total {
            proof {
                assert(v.deep_view().len() == v@.len());
                assert(block_offset(cats, c + 1) == block_offset(cats, c as int) + distinct_count(cats[c as int]));
                lemma_offset_mono(cats, c + 1, ncat as int);
            }
            return Err(FeatureError::TooManyFeatures);
        }
        assert(v.deep_view().len() == v@.len());
        assert(block_offset(cats, c + 1) == block_offset(cats, c as int) + distinct_count(cats[c as int]));
        total = total + v.len();
        let ghost old_voc = vocabularies.deep_view();
        vocabularies.push(v);
        proof {
            assert(vocabularies.deep_view() =~= old_voc.push(v.deep_view()));
        }
        c = c + 1;
    }
    let ghost voc = vocabularies.deep_view();
    // population: one row at a time
    let mut rows: Vec<Vec<u32>> = Vec::new();
    let mut r: usize = 0;
    while r < nrows
        invariant
            r <= nrows,
            nnum == num.len(),
            ncat == cats.len(),
            num == columns_view(numeric@),
            cats == categorical.deep_view(),
            voc == vocabularies.deep_view(),
            columns_fit(nrows as int, num, cats),
            total == feature_len(nnum as int, cats),
            total <= MAX_FEATURE_LEN,
            voc.len() == ncat,
            forall|d: int| 0 <= d < ncat ==> is_vocabulary(#[trigger] voc[d], cats[d]),
            lows@.len() == nnum,
            highs@.len() == nnum,
            forall|d: int| 0 <= d < nnum ==> #[trigger] lows@[d] as int == seq_min(num[d]) && highs@[d] as int == seq_max(num[d]),
            rows@.len() == r,
            forall|q: int| 0 <= q < r ==> row_encodes(#[trigger] rows@[q]@, q, num, cats, voc, total as int),
        decreases nrows - r,
    {
        assert forall|d: int| 0 <= d < numeric@.len() implies r < (#[trigger] numeric@[d])@.len() by {
            assert(num[d] == numeric@[d]@);
        }
        assert forall|d: int| 0 <= d < categorical@.len() implies r < (#[trigger] categorical@[d])@.len() by {
            assert(cats[d] == categorical@[d].deep_view());
        }
        assert forall|d: int|
            0 <= d < numeric@.len() implies #[trigger] lows@[d] as int == seq_min(numeric@[d]@) && highs@[d] as int
                == seq_max(numeric@[d]@) by {
            assert(num[d] == numeric@[d]@);
        }
        let row = build_row(r, numeric, categorical, &lows, &highs, &vocabularies, Ghost(total as int));
        rows.push(row);
        r = r + 1;
    }
    let m = FeatureMatrix { rows, ncols: total, vocabularies };
    proof {
        let rv = m.rows_view();
        assert forall|q: int| 0 <= q < m.rows@.len() implies (#[trigger] m.rows@[q])@.len() == m.ncols && entries_bounded(m.rows@[q]@) by {
            assert(row_encodes(m.rows@[q]@, q, num, cats, voc, total as int));
        }
        assert forall|q: int, c: int| 0 <= q < nrows && 0 <= c < num.len() implies #[trigger] rv[q][c] as int == scaled(
            num[c][q] as int,
            seq_min(num[c]),
            seq_max(num[c]),
        ) by {
            assert(rv[q] == m.rows@[q]@);
            assert(row_encodes(m.rows@[q]@, q, num, cats, voc, total as int));
        }
        assert forall|q: int, c: int, t: int|
            0 <= q < nrows && 0 <= c < cats.len() && 0 <= t < voc[c].len() implies #[trigger] rv[q][num.len()
                + block_offset(cats, c) + t] == one_hot(voc[c], t, #[trigger] cats[c][q]) by {
            assert(rv[q] == m.rows@[q]@);
            assert(row_encodes(m.rows@[q]@, q, num, cats, voc, total as int));
        }
    }
    Ok(m)
}

/// Position of the first header equal to `name`, if any.
pub fn column_index(headers: &Vec<String>, name: &String) -> (r: Option<usize>)
    ensures
        match r {
            Some(i) => i < headers@.len() && headers@[i as int]@ == name@ && forall|j: int|
                0 <= j < i ==> (#[trigger] headers@[j])@ != name@,
            None => forall|j: int| 0 <= j < headers@.len() ==> (#[trigger] headers@[j])@ != name@,
        },
{
    let mut i: usize = 0;
    while i < headers.len()
        invariant
            i <= headers@.len(),
            forall|j: int| 0 <= j < i ==> (#[trigger] headers@[j])@ != name@,
        decreases headers@.len() - i,
    {
        if headers[i] == *name {
            return Some(i);
        }
        i = i + 1;
    }
    None
}

} // verus!
