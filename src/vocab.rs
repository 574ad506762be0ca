use vstd::prelude::*;
use vstd::string::*;

verus! {

/// `a` sorts strictly before `b`, comparing code points from position `t` on.
pub open spec fn lex_lt_from(a: Seq<char>, b: Seq<char>, t: int) -> bool
    decreases a.len() - t,
{
    if t < 0 || t >= a.len() {
        t < b.len()
    } else if t >= b.len() {
        false
    } else if a[t] != b[t] {
        (a[t] as u32) < (b[t] as u32)
    } else {
        lex_lt_from(a, b, t + 1)
    }
}

/// Lexicographic order on strings, the order in which `String` sorts.
pub open spec fn lex_lt(a: Seq<char>, b: Seq<char>) -> bool {
    lex_lt_from(a, b, 0)
}

/// `v` is strictly increasing.
pub open spec fn strictly_sorted(v: Seq<Seq<char>>) -> bool {
    forall|p: int, q: int| 0 <= p < q < v.len() ==> lex_lt(#[trigger] v[p], #[trigger] v[q])
}

/// `v` is the vocabulary of `col`: its distinct values, sorted.
pub open spec fn is_vocabulary(v: Seq<Seq<char>>, col: Seq<Seq<char>>) -> bool {
    &&& strictly_sorted(v)
    &&& forall|p: int| 0 <= p < v.len() ==> col.contains(#[trigger] v[p])
    &&& forall|r: int| 0 <= r < col.len() ==> v.contains(#[trigger] col[r])
}

proof fn lemma_lex_irrefl(a: Seq<char>, t: int)
    requires
        0 <= t,
    ensures
        !lex_lt_from(a, a, t),
    decreases a.len() - t,
{
    if t < a.len() {
        lemma_lex_irrefl(a, t + 1);
    }
}

proof fn lemma_lex_total(a: Seq<char>, b: Seq<char>, t: int)
    requires
        0 <= t <= a.len(),
        t <= b.len(),
        a.subrange(t, a.len() as int) != b.subrange(t, b.len() as int),
    ensures
        lex_lt_from(a, b, t) || lex_lt_from(b, a, t),
    decreases a.len() - t,
{
    if t < a.len() && t < b.len() && a[t] == b[t] {
        if a.subrange(t + 1, a.len() as int) == b.subrange(t + 1, b.len() as int) {
            assert(a.subrange(t, a.len() as int) =~= seq![a[t]] + a.subrange(t + 1, a.len() as int));
            assert(b.subrange(t, b.len() as int) =~= seq![b[t]] + b.subrange(t + 1, b.len() as int));
            assert(a.subrange(t, a.len() as int) == b.subrange(t, b.len() as int));
        } else {
            lemma_lex_total(a, b, t + 1);
        }
    } else if t < a.len() && t < b.len() {
        vstd::utf8::char_u32_cast(a[t], a[t] as u32);
        vstd::utf8::char_u32_cast(b[t], b[t] as u32);
    } else if t == a.len() && t == b.len() {
        assert(a.subrange(t, a.len() as int) =~= b.subrange(t, b.len() as int));
    }
}

proof fn lemma_lex_trans(a: Seq<char>, b: Seq<char>, c: Seq<char>, t: int)
    requires
        0 <= t,
        lex_lt_from(a, b, t),
        lex_lt_from(b, c, t),
    ensures
        lex_lt_from(a, c, t),
    decreases a.len() - t,
{
    if t < a.len() && t < b.len() && t < c.len() && a[t] == b[t] && b[t] == c[t] {
        lemma_lex_trans(a, b, c, t + 1);
    }
}

/// Whether `a` sorts strictly before `b`.
fn less_than(a: &String, b: &String) -> (r: bool)
    ensures
        r == lex_lt(a@, b@),
{
    let sa = a.as_str();
    let sb = b.as_str();
    let la = sa.unicode_len();
    let lb = sb.unicode_len();
    let mut t: usize = 0;
    while t < la && t < lb && sa.get_char(t) == sb.get_char(t)
        invariant
            t <= la,
            t <= lb,
            la == a@.len(),
            lb == b@.len(),
            sa@ == a@,
            sb@ == b@,
            lex_lt(a@, b@) == lex_lt_from(a@, b@, t as int),
        decreases la - t,
    {
        t = t + 1;
    }
    if t == la {
        t < lb
    } else if t == lb {
        false
    } else {
        (sa.get_char(t) as u32) < (sb.get_char(t) as u32)
    }
}

fn contains_string(v: &Vec<String>, x: &String) -> (r: bool)
    ensures
        r == v.deep_view().contains(x@),
{
    let mut p: usize = 0;
    while p < v.len()
        invariant
            p <= v@.len(),
            forall|q: int| 0 <= q < p ==> v.deep_view()[q] != x@,
        decreases v@.len() - p,
    {
        if v[p] == *x {
            assert(v.deep_view()[p as int] == x@);
            return true;
        }
        p = p + 1;
    }
    false
}

/// The distinct values of `col`, sorted.
pub fn vocabulary(col: &Vec<String>) -> (v: Vec<String>)
    ensures
        is_vocabulary(v.deep_view(), col.deep_view()),
{
    let mut v: Vec<String> = Vec::new();
    let mut r: usize = 0;
    while r < col.len()
        invariant
            r <= col@.len(),
            strictly_sorted(v.deep_view()),
            forall|p: int| 0 <= p < v@.len() ==> col.deep_view().contains(#[trigger] v.deep_view()[p]),
            forall|s: int| 0 <= s < r ==> v.deep_view().contains(#[trigger] col.deep_view()[s]),
        decreases col@.len() - r,
    {
        let x = &col[r];
        assert(col.deep_view()[r as int] == x@);
        if !contains_string(&v, x) {
            let mut p: usize = 0;
            while p < v.len() && less_than(&v[p], x)
                invariant
                    p <= v@.len(),
                    forall|q: int| 0 <= q < p ==> lex_lt(#[trigger] v.deep_view()[q], x@),
                decreases v@.len() - p,
            {
                p = p + 1;
            }
            let ghost old_v = v.deep_view();
            proof {
                if p < v@.len() {
                    assert(!lex_lt(old_v[p as int], x@));
                    assert(old_v[p as int] != x@);
                    assert(x@.subrange(0, x@.len() as int) =~= x@);
                    assert(old_v[p as int].subrange(0, old_v[p as int].len() as int) =~= old_v[p as int]);
                    lemma_lex_total(x@, old_v[p as int], 0);
                }
            }
            v.insert(p, x.clone());
            proof {
                let nv = v.deep_view();
                assert(nv =~= old_v.insert(p as int, x@));
                assert forall|a: int, b: int| 0 <= a < b < nv.len() implies lex_lt(#[trigger] nv[a], #[trigger] nv[b]) by {
                    if a < p && b < p {
                    } else if a < p && b == p {
                    } else if a < p {
                        assert(old_v[a] == nv[a] && old_v[b - 1] == nv[b]);
                    } else if a == p {
                        if b - 1 > p {
                            lemma_lex_trans(x@, old_v[p as int], old_v[b - 1], 0);
                        }
                    } else {
                    }
                }
                assert forall|q: int| 0 <= q < v@.len() implies col.deep_view().contains(#[trigger] v.deep_view()[q]) by {
                    if q < p {
                        assert(nv[q] == old_v[q]);
                    } else if q > p {
                        assert(nv[q] == old_v[q - 1]);
                    } else {
                        assert(col.deep_view()[r as int] == nv[q]);
                    }
                }
                assert forall|s: int| 0 <= s <= r implies v.deep_view().contains(#[trigger] col.deep_view()[s]) by {
                    if s == r {
                        assert(nv[p as int] == x@);
                    } else {
                        let q = choose|q: int| 0 <= q < old_v.len() && old_v[q] == col.deep_view()[s];
                        if q < p {
                            assert(nv[q] == old_v[q]);
                        } else {
                            assert(nv[q + 1] == old_v[q]);
                        }
                    }
                }
            }
        }
        r = r + 1;
    }
    v
}

/// A vocabulary has one entry per distinct value of its column.
pub proof fn lemma_vocabulary_len(v: Seq<Seq<char>>, col: Seq<Seq<char>>)
    requires
        is_vocabulary(v, col),
    ensures
        v.len() == col.to_set().len(),
{
    assert(v.no_duplicates()) by {
        assert forall|p: int, q: int| 0 <= p < v.len() && 0 <= q < v.len() && p != q implies v[p] != v[q] by {
            if p < q {
                assert(lex_lt(v[p], v[q]));
                lemma_lex_irrefl(v[p], 0);
            } else {
                assert(lex_lt(v[q], v[p]));
                lemma_lex_irrefl(v[q], 0);
            }
        }
    }
    v.unique_seq_to_set();
    assert(v.to_set() =~= col.to_set()) by {
        assert forall|x: Seq<char>| v.to_set().contains(x) implies col.to_set().contains(x) by {
            let p = choose|p: int| 0 <= p < v.len() && v[p] == x;
            assert(col.contains(v[p]));
        }
        assert forall|x: Seq<char>| col.to_set().contains(x) implies v.to_set().contains(x) by {
            let r = choose|r: int| 0 <= r < col.len() && col[r] == x;
            assert(v.contains(col[r]));
        }
    }
}

/// A strictly sorted sequence holds no value twice.
pub proof fn lemma_sorted_distinct(v: Seq<Seq<char>>)
    requires
        strictly_sorted(v),
    ensures
        v.no_duplicates(),
{
    assert forall|p: int, q: int| 0 <= p < v.len() && 0 <= q < v.len() && p != q implies v[p] != v[q] by {
        if p < q {
            assert(lex_lt(v[p], v[q]));
            lemma_lex_irrefl(v[p], 0);
        } else {
            assert(lex_lt(v[q], v[p]));
            lemma_lex_irrefl(v[q], 0);
        }
    }
}

proof fn lemma_sorted_unique(v1: Seq<Seq<char>>, v2: Seq<Seq<char>>)
    requires
        strictly_sorted(v1),
        strictly_sorted(v2),
        forall|x: Seq<char>| v1.contains(x) <==> v2.contains(x),
    ensures
        v1 == v2,
    decreases v1.len(),
{
    if v1.len() == 0 {
        if v2.len() > 0 {
            assert(v2.contains(v2[0]));
        }
        assert(v1 =~= v2);
    } else {
        assert(v1.contains(v1[0]));
        assert(v2.len() > 0);
        assert(v2.contains(v2[0]));
        let a = v1[0];
        let b = v2[0];
        if a != b {
            let q = choose|q: int| 0 <= q < v2.len() && v2[q] == a;
            let r = choose|r: int| 0 <= r < v1.len() && v1[r] == b;
            assert(lex_lt(v2[0], v2[q]));
            assert(lex_lt(v1[0], v1[r]));
            lemma_lex_trans(a, b, a, 0);
            lemma_lex_irrefl(a, 0);
        }
        lemma_sorted_distinct(v1);
        lemma_sorted_distinct(v2);
        let t1 = v1.drop_first();
        let t2 = v2.drop_first();
        assert forall|x: Seq<char>| t1.contains(x) <==> t2.contains(x) by {
            if t1.contains(x) {
                let p = choose|p: int| 0 <= p < t1.len() && t1[p] == x;
                assert(v1[p + 1] == x);
                assert(v2.contains(x));
                let q = choose|q: int| 0 <= q < v2.len() && v2[q] == x;
                assert(q != 0);
                assert(t2[q - 1] == x);
            }
            if t2.contains(x) {
                let p = choose|p: int| 0 <= p < t2.len() && t2[p] == x;
                assert(v2[p + 1] == x);
                assert(v1.contains(x));
                let q = choose|q: int| 0 <= q < v1.len() && v1[q] == x;
                assert(q != 0);
                assert(t1[q - 1] == x);
            }
        }
        lemma_sorted_unique(t1, t2);
        assert(v1 =~= seq![a] + t1);
        assert(v2 =~= seq![b] + t2);
    }
}

/// A column has exactly one vocabulary.
pub proof fn lemma_vocabulary_unique(v1: Seq<Seq<char>>, v2: Seq<Seq<char>>, col: Seq<Seq<char>>)
    requires
        is_vocabulary(v1, col),
        is_vocabulary(v2, col),
    ensures
        v1 == v2,
{
    assert forall|x: Seq<char>| v1.contains(x) <==> v2.contains(x) by {
        if v1.contains(x) {
            let p = choose|p: int| 0 <= p < v1.len() && v1[p] == x;
            assert(col.contains(v1[p]));
            let r = choose|r: int| 0 <= r < col.len() && col[r] == x;
            assert(v2.contains(col[r]));
        }
        if v2.contains(x) {
            let p = choose|p: int| 0 <= p < v2.len() && v2[p] == x;
            assert(col.contains(v2[p]));
            let r = choose|r: int| 0 <= r < col.len() && col[r] == x;
            assert(v1.contains(col[r]));
        }
    }
    lemma_sorted_unique(v1, v2);
}

} // verus!
