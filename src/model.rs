//! The mathematical model of an expression: a sequence of
//! (coefficient, exponent) pairs, read as the sum of its terms.
use vstd::prelude::*;

use crate::text::fits_i32;

verus! {

/// The coefficient of `x^e` in the sum of the terms of `s`.
pub open spec fn coef(s: Seq<(int, int)>, e: int) -> int
    decreases s.len(),
{
    if s.len() == 0 {
        0
    } else {
        (if s[0].1 == e {
            s[0].0
        } else {
            0
        }) + coef(s.drop_first(), e)
    }
}

/// Canonical form: no zero coefficient, exponents strictly decreasing (so
/// each exponent occurs once), and every number a machine `i32`.
pub open spec fn canonical(s: Seq<(int, int)>) -> bool {
    &&& forall|i: int| 0 <= i < s.len() ==> (#[trigger] s[i]).0 != 0
    &&& forall|i: int| 0 <= i < s.len() ==> fits_i32((#[trigger] s[i]).0) && fits_i32(s[i].1)
    &&& forall|i: int, j: int| 0 <= i < j < s.len() ==> (#[trigger] s[i]).1 > (#[trigger] s[j]).1
}

/// Two term sequences denote the same expression.
pub open spec fn same_coefs(s: Seq<(int, int)>, t: Seq<(int, int)>) -> bool {
    forall|e: int| #[trigger] coef(s, e) == coef(t, e)
}

/// Summing the terms left to right never leaves the `i32` range.
pub open spec fn sums_fit(s: Seq<(int, int)>) -> bool {
    forall|i: int| 0 <= i < s.len() ==> fits_i32(#[trigger] coef(s.take(i + 1), s[i].1))
}

/// The highest exponent; zero for the empty (zero) expression.
pub open spec fn degree(s: Seq<(int, int)>) -> int {
    if s.len() == 0 {
        0
    } else {
        s[0].1
    }
}

pub proof fn lemma_coef_concat(s: Seq<(int, int)>, t: Seq<(int, int)>, e: int)
    ensures
        coef(s + t, e) == coef(s, e) + coef(t, e),
    decreases s.len(),
{
    if s.len() > 0 {
        assert((s + t).drop_first() =~= s.drop_first() + t);
        lemma_coef_concat(s.drop_first(), t, e);
    } else {
        assert(s + t =~= t);
    }
}

pub proof fn lemma_coef_single(x: (int, int), e: int)
    ensures
        coef(seq![x], e) == if x.1 == e {
            x.0
        } else {
            0
        },
{
    assert(seq![x].drop_first() =~= Seq::<(int, int)>::empty());
    assert(coef(Seq::<(int, int)>::empty(), e) == 0);
    assert(seq![x][0] == x);
}

/// No term of `s` has exponent `e`, so its coefficient there is zero.
pub proof fn lemma_coef_absent(s: Seq<(int, int)>, e: int)
    requires
        forall|i: int| 0 <= i < s.len() ==> (#[trigger] s[i]).1 != e,
    ensures
        coef(s, e) == 0,
    decreases s.len(),
{
    if s.len() > 0 {
        assert forall|i: int| 0 <= i < s.drop_first().len() implies (
        #[trigger] s.drop_first()[i]).1 != e by {
            assert(s.drop_first()[i] == s[i + 1]);
        }
        lemma_coef_absent(s.drop_first(), e);
    }
}

/// In canonical form the coefficient at an exponent is that of its term.
pub proof fn lemma_coef_at(s: Seq<(int, int)>, i: int)
    requires
        canonical(s),
        0 <= i < s.len(),
    ensures
        coef(s, s[i].1) == s[i].0,
{
    let e = s[i].1;
    assert(s =~= s.take(i) + seq![s[i]] + s.skip(i + 1));
    lemma_coef_concat(s.take(i) + seq![s[i]], s.skip(i + 1), e);
    lemma_coef_concat(s.take(i), seq![s[i]], e);
    lemma_coef_single(s[i], e);
    assert forall|k: int| 0 <= k < s.take(i).len() implies (#[trigger] s.take(i)[k]).1 != e by {
        assert(s.take(i)[k] == s[k]);
    }
    lemma_coef_absent(s.take(i), e);
    assert forall|k: int| 0 <= k < s.skip(i + 1).len() implies (#[trigger] s.skip(
        i + 1,
    )[k]).1 != e by {
        assert(s.skip(i + 1)[k] == s[i + 1 + k]);
    }
    lemma_coef_absent(s.skip(i + 1), e);
}

/// A canonical sequence is determined by its coefficients.
pub proof fn lemma_canonical_unique(s: Seq<(int, int)>, t: Seq<(int, int)>)
    requires
        canonical(s),
        canonical(t),
        same_coefs(s, t),
    ensures
        s == t,
    decreases s.len() + t.len(),
{
    if s.len() == 0 && t.len() == 0 {
        assert(s =~= t);
    } else if s.len() == 0 {
        lemma_coef_at(t, 0);
        lemma_coef_absent(s, t[0].1);
        assert(coef(s, t[0].1) == coef(t, t[0].1));
    } else if t.len() == 0 {
        lemma_coef_at(s, 0);
        lemma_coef_absent(t, s[0].1);
        assert(coef(s, s[0].1) == coef(t, s[0].1));
    } else {
        if s[0].1 > t[0].1 {
            lemma_coef_at(s, 0);
            assert forall|k: int| 0 <= k < t.len() implies (#[trigger] t[k]).1 != s[0].1 by {
                if k > 0 {
                    assert(t[0].1 > t[k].1);
                }
            }
            lemma_coef_absent(t, s[0].1);
            assert(coef(s, s[0].1) == coef(t, s[0].1));
        } else if s[0].1 < t[0].1 {
            lemma_coef_at(t, 0);
            assert forall|k: int| 0 <= k < s.len() implies (#[trigger] s[k]).1 != t[0].1 by {
                if k > 0 {
                    assert(s[0].1 > s[k].1);
                }
            }
            lemma_coef_absent(s, t[0].1);
            assert(coef(s, t[0].1) == coef(t, t[0].1));
        } else {
            lemma_coef_at(s, 0);
            lemma_coef_at(t, 0);
            assert(coef(s, s[0].1) == coef(t, s[0].1));
            let s1 = s.drop_first();
            let t1 = t.drop_first();
            assert forall|e: int| #[trigger] coef(s1, e) == coef(t1, e) by {
                assert(coef(s, e) == coef(t, e));
            }
            lemma_canonical_drop(s);
            lemma_canonical_drop(t);
            lemma_canonical_unique(s1, t1);
            assert(s =~= seq![s[0]] + s1);
            assert(t =~= seq![t[0]] + t1);
        }
    }
}

pub proof fn lemma_canonical_drop(s: Seq<(int, int)>)
    requires
        canonical(s),
        s.len() > 0,
    ensures
        canonical(s.drop_first()),
{
    let d = s.drop_first();
    assert forall|i: int, j: int| 0 <= i < j < d.len() implies (#[trigger] d[i]).1 > (
    #[trigger] d[j]).1 by {
        assert(d[i] == s[i + 1] && d[j] == s[j + 1]);
    }
    assert forall|i: int| 0 <= i < d.len() implies (#[trigger] d[i]).0 != 0 && fits_i32(d[i].0)
        && fits_i32(d[i].1) by {
        assert(d[i] == s[i + 1]);
    }
}

/// A canonical sequence sums without leaving the `i32` range.
pub proof fn lemma_canonical_sums_fit(s: Seq<(int, int)>)
    requires
        canonical(s),
    ensures
        sums_fit(s),
{
    assert forall|i: int| 0 <= i < s.len() implies fits_i32(
        #[trigger] coef(s.take(i + 1), s[i].1),
    ) by {
        let p = s.take(i + 1);
        assert forall|a: int, b: int| 0 <= a < b < p.len() implies (#[trigger] p[a]).1 > (
        #[trigger] p[b]).1 by {
            assert(p[a] == s[a] && p[b] == s[b]);
        }
        assert forall|a: int| 0 <= a < p.len() implies (#[trigger] p[a]).0 != 0 && fits_i32(
            p[a].0,
        ) && fits_i32(p[a].1) by {
            assert(p[a] == s[a]);
        }
        lemma_coef_at(p, i);
    }
}

} // verus!
