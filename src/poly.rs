//! Expressions: sums of terms kept in canonical form.
use vstd::prelude::*;

use crate::model::{
    canonical, coef, degree, lemma_canonical_sums_fit, lemma_coef_absent, lemma_coef_at,
    lemma_coef_concat, lemma_coef_single, same_coefs, sums_fit,
};
use crate::mono::{clean, cleaned, quot, quot_i64, term_of, term_text, write_term, Monomial, ParseError};
use crate::text::{chars_of, fits_i32, string_of};

verus! {

/// The model of a run of terms.
pub open spec fn terms_model(v: Seq<Monomial>) -> Seq<(int, int)> {
    v.map_values(|m: Monomial| m@)
}

/// One step of long division of `r` by `d` stays within the `i32` range:
/// the quotient term, its exponent, and every coefficient it changes.
pub open spec fn step_fits(r: Seq<(int, int)>, d: Seq<(int, int)>) -> bool {
    let q = quot(r[0].0, d[0].0);
    let qe = r[0].1 - d[0].1;
    &&& fits_i32(q)
    &&& fits_i32(qe)
    &&& forall|i: int|
        0 <= i < d.len() ==> {
            &&& fits_i32(d[i].1 + qe)
            &&& fits_i32(-(d[i].0 * q))
            &&& fits_i32(#[trigger] coef(r, d[i].1 + qe) - d[i].0 * q)
        }
}

/// Long division stops: nothing is left, the remainder's degree is below the
/// divisor's, the leading coefficients do not divide exactly, or the next
/// step would leave the `i32` range.
pub open spec fn division_done(r: Seq<(int, int)>, d: Seq<(int, int)>) -> bool {
    r.len() == 0 || degree(r) < degree(d) || !crate::roots::divides(d[0].0, r[0].0) || !step_fits(
        r,
        d,
    )
}

/// The quotient term of one long-division step of `r` by `d`: leading
/// coefficients divided, leading exponents subtracted.
pub open spec fn step_term(r: Seq<(int, int)>, d: Seq<(int, int)>) -> (int, int) {
    (quot(r[0].0, d[0].0), r[0].1 - d[0].1)
}

/// What one long-division step leaves: `r - t * d` for the step's quotient
/// term `t`, in canonical form.
pub open spec fn step_rem(r: Seq<(int, int)>, d: Seq<(int, int)>) -> Seq<(int, int)> {
    choose|w: Seq<(int, int)>|
        canonical(w) && forall|e: int|
            #[trigger] coef(w, e) == coef(r, e) - step_term(r, d).0 * coef(d, e - step_term(r, d).1)
}

/// A bound on the number of steps long division takes from `r`.
pub open spec fn division_fuel(r: Seq<(int, int)>, d: Seq<(int, int)>) -> nat {
    if r.len() == 0 || degree(r) < degree(d) {
        0
    } else {
        (degree(r) - degree(d) + 1) as nat
    }
}

/// The remainder that long division of `r` by `d` reaches.
pub open spec fn long_rem(r: Seq<(int, int)>, d: Seq<(int, int)>, fuel: nat) -> Seq<(int, int)>
    decreases fuel,
{
    if fuel == 0 || division_done(r, d) {
        r
    } else {
        long_rem(step_rem(r, d), d, (fuel - 1) as nat)
    }
}

/// The quotient terms that long division of `r` by `d` produces, in order.
pub open spec fn long_quot(r: Seq<(int, int)>, d: Seq<(int, int)>, fuel: nat) -> Seq<(int, int)>
    decreases fuel,
{
    if fuel == 0 || division_done(r, d) {
        Seq::empty()
    } else {
        seq![step_term(r, d)] + long_quot(step_rem(r, d), d, (fuel - 1) as nat)
    }
}

/// The shape of an equation `p = 0`, read from the degree and the terms of `p`.
#[derive(Clone, Copy, Debug, PartialEq, Eq, Structural)]
pub enum EquationType {
    /// Degree one: `2x + 1`.
    Linear,
    /// Degree two: `2x^2 + 2x + 1`.
    Quadratic,
    /// Degree four with no odd powers: `2x^4 + 2x^2 + 1`.
    Biquadratic,
    /// Degree above two, in no other class: `2x^3 + 3x^2 + 1`.
    BigExp,
    /// Degree above two with exactly two terms: `2x^3 + 100`.
    BigExp2Terms,
    /// Degree zero (a constant): nothing to solve.
    Invalid,
}

/// The shape of a canonical expression, tested in this order.
pub open spec fn equation_type_of(s: Seq<(int, int)>) -> EquationType {
    let d = degree(s);
    if d == 0 {
        EquationType::Invalid
    } else if d == 1 {
        EquationType::Linear
    } else if d > 2 && s.len() == 2 {
        EquationType::BigExp2Terms
    } else if d == 2 {
        EquationType::Quadratic
    } else if d == 4 && coef(s, 3) == 0 && coef(s, 1) == 0 {
        EquationType::Biquadratic
    } else {
        EquationType::BigExp
    }
}

pub open spec fn is_sign(c: char) -> bool {
    c == '+' || c == '-'
}

/// The start of the last term of `c[..=j]`: the last sign after the first
/// character, or zero.
pub open spec fn last_sign(c: Seq<char>, j: int) -> int
    decreases j,
{
    if j < 1 {
        0
    } else if is_sign(c[j]) {
        j
    } else {
        last_sign(c, j - 1)
    }
}

/// The terms of cleaned text: a new term starts at each sign but the first
/// character; the first error, reading left to right, wins.
pub open spec fn terms_of_text(c: Seq<char>) -> Result<Seq<(int, int)>, ParseError>
    decreases c.len(),
{
    if c.len() == 0 {
        Ok(Seq::empty())
    } else {
        let k = last_sign(c, c.len() - 1);
        let before = if 0 < k < c.len() {
            terms_of_text(c.take(k))
        } else {
            Ok(Seq::empty())
        };
        match before {
            Err(e) => Err(e),
            Ok(ts) => match term_of(c.skip(k)) {
                Err(e) => Err(e),
                Ok(t) => Ok(ts.push(t)),
            },
        }
    }
}

/// How a term is written at position `first` or later: its sign, then the
/// term with the magnitude of its coefficient.
pub open spec fn piece_text(x: (int, int), first: bool) -> Seq<char> {
    let sign = if x.0 < 0 {
        if first {
            seq!['-']
        } else {
            seq![' ', '-', ' ']
        }
    } else if first {
        Seq::empty()
    } else {
        seq![' ', '+', ' ']
    };
    sign + term_text(if x.0 < 0 {
        -x.0
    } else {
        x.0
    }, x.1)
}

/// The text of the first `n` terms.
pub open spec fn terms_text(s: Seq<(int, int)>, n: int) -> Seq<char>
    decreases n,
{
    if n <= 0 {
        Seq::empty()
    } else {
        terms_text(s, n - 1) + piece_text(s[n - 1], n - 1 == 0)
    }
}

/// How an expression is written: its terms joined by ` + ` and ` - `, or `0`.
pub open spec fn poly_text(s: Seq<(int, int)>) -> Seq<char> {
    if s.len() == 0 {
        seq!['0']
    } else {
        terms_text(s, s.len() as int)
    }
}

proof fn lemma_last_sign_bound(c: Seq<char>, j: int)
    ensures
        last_sign(c, j) <= (if j < 0 { 0 } else { j }),
        last_sign(c, j) >= 0,
    decreases j,
{
    if j >= 1 && !is_sign(c[j]) {
        lemma_last_sign_bound(c, j - 1);
    }
}

/// With no sign in `c(start..=j)`, the last sign up to `j` is `start`.
proof fn lemma_last_sign_is(c: Seq<char>, d: Seq<char>, start: int, j: int)
    requires
        0 <= start <= j < c.len(),
        j < d.len(),
        forall|k: int| 0 <= k <= j ==> c[k] == d[k],
        start == 0 || is_sign(c[start]),
        forall|k: int| start < k <= j ==> !is_sign(#[trigger] c[k]),
    ensures
        last_sign(d, j) == start,
    decreases j,
{
    if j > start {
        lemma_last_sign_is(c, d, start, j - 1);
    } else if start == 0 {
    } else {
        assert(d[j] == c[j]);
    }
}

proof fn lemma_last_sign_at_least(c: Seq<char>, i: int, j: int)
    requires
        1 <= i <= j,
        i < c.len(),
        is_sign(c[i]),
    ensures
        last_sign(c, j) >= i,
    decreases j,
{
    if j > i && !is_sign(c[j]) {
        lemma_last_sign_at_least(c, i, j - 1);
    }
}

/// An error in the terms before a sign is the error of the whole text.
proof fn lemma_error_spreads(c: Seq<char>, i: int)
    requires
        1 <= i < c.len(),
        is_sign(c[i]),
        terms_of_text(c.take(i)) is Err,
    ensures
        terms_of_text(c) == terms_of_text(c.take(i)),
    decreases c.len(),
{
    let k = last_sign(c, c.len() - 1);
    lemma_last_sign_at_least(c, i, c.len() - 1);
    lemma_last_sign_bound(c, c.len() - 1);
    if k > i {
        let d = c.take(k);
        assert(d.take(i) =~= c.take(i));
        assert(d[i] == c[i]);
        lemma_error_spreads(d, i);
    }
}

/// Text to terms: reads `c[start..end]` as one term and adds it to `ts`.
fn read_term(c: &Vec<char>, start: usize, end: usize, ts: &mut Vec<Monomial>) -> (r: Result<(), ParseError>)
    requires
        start <= end <= c@.len(),
    ensures
        match term_of(c@.subrange(start as int, end as int)) {
            Ok(t) => r is Ok && final(ts)@ == old(ts)@.push(Monomial { value: t.0 as i32, exp: t.1 as i32 })
                && fits_i32(t.0) && fits_i32(t.1),
            Err(e) => r == Err::<(), ParseError>(e),
        },
{
    let mut piece: Vec<char> = Vec::new();
    let mut i: usize = start;
    while i < end
        invariant
            start <= i <= end <= c@.len(),
            piece@ == c@.subrange(start as int, i as int),
        decreases end - i,
    {
        piece.push(c[i]);
        i = i + 1;
    }
    match Monomial::parse_cleaned(&piece) {
        Ok(m) => {
            ts.push(m);
            Ok(())
        },
        Err(e) => Err(e),
    }
}

/// An expression in one variable, held in canonical form: at most one term
/// per exponent, no zero coefficient, exponents in descending order. The zero
/// expression has no terms. The terms are public so that contracts can
/// speak of them; every operation asks for the canonical form (`wf`).
#[derive(Clone, Debug, PartialEq, Eq)]
pub struct Polynomial {
    pub mono_vec: Vec<Monomial>,
}

proof fn lemma_coef_negated(s: Seq<(int, int)>, e: int)
    ensures
        coef(s.map_values(|x: (int, int)| (-x.0, x.1)), e) == -coef(s, e),
    decreases s.len(),
{
    let m = s.map_values(|x: (int, int)| (-x.0, x.1));
    if s.len() > 0 {
        assert(m.drop_first() =~= s.drop_first().map_values(|x: (int, int)| (-x.0, x.1)));
        lemma_coef_negated(s.drop_first(), e);
    }
}

/// Every term of `s` multiplied by the term `(c, d)`.
pub open spec fn scaled(s: Seq<(int, int)>, c: int, d: int) -> Seq<(int, int)> {
    s.map_values(|x: (int, int)| (x.0 * c, x.1 + d))
}

/// Every term of `s` divided (truncating) by the term `(c, d)`.
pub open spec fn divided(s: Seq<(int, int)>, c: int, d: int) -> Seq<(int, int)> {
    s.map_values(|x: (int, int)| (quot(x.0, c), x.1 - d))
}

/// The products of every term of `s` with every term of `t`, row by row.
pub open spec fn products(s: Seq<(int, int)>, t: Seq<(int, int)>) -> Seq<(int, int)>
    decreases s.len(),
{
    if s.len() == 0 {
        Seq::empty()
    } else {
        products(s.drop_last(), t) + scaled(t, s.last().0, s.last().1)
    }
}

/// Each product of two terms fits, and so does each running sum when the
/// products are added row by row.
pub open spec fn product_sums_fit(s: Seq<(int, int)>, t: Seq<(int, int)>) -> bool {
    forall|i: int, j: int|
        0 <= i < s.len() && 0 <= j < t.len() ==> {
            &&& fits_i32(s[i].0 * t[j].0)
            &&& fits_i32(s[i].1 + t[j].1)
            &&& fits_i32(
                #[trigger] coef(
                    products(s.take(i), t) + scaled(t, s[i].0, s[i].1).take(j + 1),
                    s[i].1 + t[j].1,
                ),
            )
        }
}

pub(crate) proof fn lemma_coef_scaled(s: Seq<(int, int)>, c: int, d: int, e: int)
    ensures
        coef(scaled(s, c, d), e) == c * coef(s, e - d),
    decreases s.len(),
{
    if s.len() > 0 {
        assert(scaled(s, c, d).drop_first() =~= scaled(s.drop_first(), c, d));
        lemma_coef_scaled(s.drop_first(), c, d, e);
        let h = if s[0].1 == e - d {
            s[0].0
        } else {
            0
        };
        let rest = coef(s.drop_first(), e - d);
        assert(h * c + c * rest == c * (h + rest)) by (nonlinear_arith);
    }
}

proof fn lemma_coef_divided(s: Seq<(int, int)>, c: int, d: int, e: int)
    requires
        canonical(s),
        c != 0,
    ensures
        coef(divided(s, c, d), e) == quot(coef(s, e + d), c),
    decreases s.len(),
{
    if s.len() > 0 {
        let r = s.drop_first();
        assert(divided(s, c, d).drop_first() =~= divided(r, c, d));
        crate::model::lemma_canonical_drop(s);
        lemma_coef_divided(r, c, d, e);
        if s[0].1 == e + d {
            assert forall|k: int| 0 <= k < r.len() implies (#[trigger] r[k]).1 != e + d by {
                assert(r[k] == s[k + 1]);
                assert(s[0].1 > s[k + 1].1);
            }
            lemma_coef_absent(r, e + d);
        }
    } else {
        assert(quot(0, c) == 0) by (nonlinear_arith)
            requires
                c != 0,
        ;
    }
}

proof fn lemma_coef_split3(a: Seq<(int, int)>, x: (int, int), c: Seq<(int, int)>, e: int)
    ensures
        coef(a + seq![x] + c, e) == coef(a, e) + (if x.1 == e {
            x.0
        } else {
            0
        }) + coef(c, e),
{
    lemma_coef_concat(a + seq![x], c, e);
    lemma_coef_concat(a, seq![x], e);
    lemma_coef_single(x, e);
}

/// Adds one term into a canonical run of terms, keeping it canonical.
fn absorb(acc: &mut Vec<Monomial>, t: Monomial)
    requires
        canonical(terms_model(old(acc)@)),
        fits_i32(coef(terms_model(old(acc)@), t.exp as int) + t.value),
    ensures
        canonical(terms_model(final(acc)@)),
        forall|e: int|
            #[trigger] coef(terms_model(final(acc)@), e) == coef(terms_model(old(acc)@), e) + (
            if e == t.exp {
                t.value as int
            } else {
                0
            }),
{
    let ghost s = terms_model(acc@);
    let mut j: usize = 0;
    while j < acc.len() && acc[j].exp > t.exp
        invariant
            j <= acc@.len(),
            s == terms_model(acc@),
            forall|k: int| 0 <= k < j ==> (#[trigger] acc@[k]).exp > t.exp,
        decreases acc@.len() - j,
    {
        j = j + 1;
    }
    let ghost a = s.take(j as int);
    assert forall|k: int| 0 <= k < a.len() implies (#[trigger] a[k]).1 > t.exp by {
        assert(a[k] == s[k]);
        assert(s[k] == acc@[k]@);
    }
    if j < acc.len() && acc[j].exp == t.exp {
        let ghost c = s.skip(j + 1);
        assert(s =~= a + seq![s[j as int]] + c);
        proof {
            lemma_coef_at(s, j as int);
        }
        let v = acc[j].value + t.value;
        let e = t.exp;
        if v == 0 {
            acc.remove(j);
            let ghost s2 = terms_model(acc@);
            assert(s2 =~= a + c);
            assert forall|x: int| #[trigger] coef(s2, x) == coef(s, x) + (if x == t.exp {
                t.value as int
            } else {
                0
            }) by {
                lemma_coef_concat(a, c, x);
                lemma_coef_split3(a, s[j as int], c, x);
            }
            assert forall|p: int, q: int| 0 <= p < q < s2.len() implies (#[trigger] s2[p]).1 > (
            #[trigger] s2[q]).1 by {
                let p0 = if p < j {
                    p
                } else {
                    p + 1
                };
                let q0 = if q < j {
                    q
                } else {
                    q + 1
                };
                assert(s2[p] == s[p0] && s2[q] == s[q0]);
            }
            assert forall|p: int| 0 <= p < s2.len() implies (#[trigger] s2[p]).0 != 0 && fits_i32(
                s2[p].0,
            ) && fits_i32(s2[p].1) by {
                let p0 = if p < j {
                    p
                } else {
                    p + 1
                };
                assert(s2[p] == s[p0]);
            }
        } else {
            acc.set(j, Monomial { value: v, exp: e });
            let ghost s2 = terms_model(acc@);
            assert(s2 =~= a + seq![(v as int, e as int)] + c);
            assert forall|x: int| #[trigger] coef(s2, x) == coef(s, x) + (if x == t.exp {
                t.value as int
            } else {
                0
            }) by {
                lemma_coef_split3(a, (v as int, e as int), c, x);
                lemma_coef_split3(a, s[j as int], c, x);
            }
            assert forall|p: int, q: int| 0 <= p < q < s2.len() implies (#[trigger] s2[p]).1 > (
            #[trigger] s2[q]).1 by {
                assert(s2[p].1 == s[p].1 && s2[q].1 == s[q].1);
            }
            assert forall|p: int| 0 <= p < s2.len() implies (#[trigger] s2[p]).0 != 0 && fits_i32(
                s2[p].0,
            ) && fits_i32(s2[p].1) by {
                if p != j {
                    assert(s2[p] == s[p]);
                }
            }
        }
    } else if t.value != 0 {
        let ghost b = s.skip(j as int);
        assert(s =~= a + b);
        assert forall|k: int| 0 <= k < b.len() implies (#[trigger] b[k]).1 < t.exp by {
            assert(b[k] == s[j + k]);
            assert(s[j as int] == acc@[j as int]@);
            if k > 0 {
                assert(s[j as int].1 > s[j + k].1);
            }
        }
        acc.insert(j, t);
        let ghost s2 = terms_model(acc@);
        assert(s2 =~= a + seq![t@] + b);
        assert forall|x: int| #[trigger] coef(s2, x) == coef(s, x) + (if x == t.exp {
            t.value as int
        } else {
            0
        }) by {
            lemma_coef_split3(a, t@, b, x);
            lemma_coef_concat(a, b, x);
        }
        assert forall|p: int, q: int| 0 <= p < q < s2.len() implies (#[trigger] s2[p]).1 > (
        #[trigger] s2[q]).1 by {
            if p < j && q < j {
                assert(s2[p] == s[p] && s2[q] == s[q]);
            } else if p < j && q == j {
                assert(s2[p] == a[p]);
            } else if p < j {
                assert(s2[p] == a[p] && s2[q] == b[q - j - 1]);
            } else if p == j {
                assert(s2[q] == b[q - j - 1]);
            } else {
                assert(s2[p] == s[p - 1] && s2[q] == s[q - 1]);
            }
        }
        assert forall|p: int| 0 <= p < s2.len() implies (#[trigger] s2[p]).0 != 0 && fits_i32(
            s2[p].0,
        ) && fits_i32(s2[p].1) by {
            if p < j {
                assert(s2[p] == s[p]);
            } else if p > j {
                assert(s2[p] == s[p - 1]);
            }
        }
    } else {
        assert forall|x: int| #[trigger] coef(terms_model(acc@), x) == coef(s, x) + (
        if x == t.exp {
            t.value as int
        } else {
            0
        }) by {}
    }
}

/// Adds the terms of `v`, in order, into a canonical run of terms.
fn absorb_all(acc: &mut Vec<Monomial>, v: &Vec<Monomial>)
    requires
        canonical(terms_model(old(acc)@)),
        forall|i: int|
            0 <= i < v@.len() ==> fits_i32(
                coef(terms_model(old(acc)@), v@[i].exp as int) + #[trigger] coef(
                    terms_model(v@.take(i + 1)),
                    v@[i].exp as int,
                ),
            ),
    ensures
        canonical(terms_model(final(acc)@)),
        forall|e: int|
            #[trigger] coef(terms_model(final(acc)@), e) == coef(terms_model(old(acc)@), e) + coef(
                terms_model(v@),
                e,
            ),
{
    let ghost start = terms_model(acc@);
    let mut i: usize = 0;
    while i < v.len()
        invariant
            i <= v@.len(),
            canonical(terms_model(acc@)),
            forall|k: int|
                0 <= k < v@.len() ==> fits_i32(
                    coef(start, v@[k].exp as int) + #[trigger] coef(
                        terms_model(v@.take(k + 1)),
                        v@[k].exp as int,
                    ),
                ),
            forall|e: int|
                #[trigger] coef(terms_model(acc@), e) == coef(start, e) + coef(
                    terms_model(v@.take(i as int)),
                    e,
                ),
        decreases v@.len() - i,
    {
        let t = v[i];
        assert(terms_model(v@.take(i + 1)) =~= terms_model(v@.take(i as int)) + seq![t@]);
        assert forall|e: int| #[trigger]
            coef(terms_model(v@.take(i + 1)), e) == coef(terms_model(v@.take(i as int)), e) + (
            if e == t.exp {
                t.value as int
            } else {
                0
            }) by {
            lemma_coef_concat(terms_model(v@.take(i as int)), seq![t@], e);
            lemma_coef_single(t@, e);
        }
        assert(coef(terms_model(v@.take(i + 1)), t.exp as int) == coef(
            terms_model(v@.take(i as int)),
            t.exp as int,
        ) + t.value);
        absorb(acc, t);
        i = i + 1;
    }
    assert(v@.take(v@.len() as int) =~= v@);
}

/// `r - t * d` for the term `t`, when every number involved is an `i32`.
fn sub_scaled(r: &Vec<Monomial>, d: &Vec<Monomial>, t: Monomial) -> (out: Option<Vec<Monomial>>)
    requires
        canonical(terms_model(r@)),
        canonical(terms_model(d@)),
        d@.len() > 0,
        r@.len() > 0,
        t.value as int == quot(r@[0].value as int, d@[0].value as int),
        t.exp as int == r@[0].exp - d@[0].exp,
    ensures
        out is Some <==> step_fits(terms_model(r@), terms_model(d@)),
        out matches Some(v) ==> canonical(terms_model(v@)) && forall|e: int|
            #[trigger] coef(terms_model(v@), e) == coef(terms_model(r@), e) - t.value * coef(
                terms_model(d@),
                e - t.exp,
            ),
{
    let ghost rs = terms_model(r@);
    let ghost ds = terms_model(d@);
    assert(rs[0] == r@[0]@ && ds[0] == d@[0]@);
    let mut acc: Vec<Monomial> = r.clone();
    assert(acc@ =~= r@);
    let mut i: usize = 0;
    while i < d.len()
        invariant
            i <= d@.len(),
            rs == terms_model(r@),
            ds == terms_model(d@),
            rs.len() > 0,
            ds.len() > 0,
            t.value as int == quot(rs[0].0, ds[0].0),
            t.exp as int == rs[0].1 - ds[0].1,
            canonical(ds),
            canonical(terms_model(acc@)),
            forall|k: int|
                #![trigger ds[k]]
                0 <= k < i ==> {
                    &&& fits_i32(ds[k].1 + t.exp)
                    &&& fits_i32(-(ds[k].0 * t.value))
                    &&& fits_i32(coef(rs, ds[k].1 + t.exp) - ds[k].0 * t.value)
                },
            forall|e: int| #[trigger] coef(terms_model(acc@), e) == coef(rs, e) - t.value * coef(ds.take(i as int), e - t.exp),
        decreases d@.len() - i,
    {
        let m = d[i];
        assert(ds[i as int] == m@);
        let e64: i64 = m.exp as i64 + t.exp as i64;
        assert(-0x4000_0000_0000_0000 <= (m.value as i64) * (t.value as i64) <= 0x4000_0000_0000_0000) by (nonlinear_arith)
            requires
                -0x8000_0000 <= m.value <= 0x7fff_ffff,
                -0x8000_0000 <= t.value <= 0x7fff_ffff,
        ;
        let p64: i64 = -((m.value as i64) * (t.value as i64));
        if e64 < i32::MIN as i64 || e64 > i32::MAX as i64 || p64 < i32::MIN as i64 || p64 > i32::MAX as i64 {
            proof {
                let k = i as int;
                assert(-(ds[k].0 * quot(rs[0].0, ds[0].0)) == p64);
                assert(ds[k].1 + (rs[0].1 - ds[0].1) == e64);
                assert(step_fits(rs, ds) ==> fits_i32(coef(rs, ds[k].1 + (rs[0].1 - ds[0].1)) - ds[k].0 * quot(rs[0].0, ds[0].0))
                    && fits_i32(ds[k].1 + (rs[0].1 - ds[0].1)) && fits_i32(-(ds[k].0 * quot(rs[0].0, ds[0].0))));
            }
            return None;
        }
        let e = e64 as i32;
        proof {
            assert forall|k: int| 0 <= k < ds.take(i as int).len() implies (#[trigger] ds.take(i as int)[k]).1 != e - t.exp by {
                assert(ds.take(i as int)[k] == ds[k]);
                assert(ds[k].1 > ds[i as int].1);
            }
            lemma_coef_absent(ds.take(i as int), e - t.exp);
        }
        let cur: i64 = coef_at(&acc, e) as i64;
        if cur + p64 < i32::MIN as i64 || cur + p64 > i32::MAX as i64 {
            proof {
                let k = i as int;
                assert(!fits_i32(coef(rs, ds[k].1 + (rs[0].1 - ds[0].1)) - ds[k].0 * quot(rs[0].0, ds[0].0)));
            }
            return None;
        }
        let ghost before = terms_model(acc@);
        absorb(&mut acc, Monomial::new(p64 as i32, e));
        assert(fits_i32(ds[i as int].1 + t.exp) && fits_i32(-(ds[i as int].0 * t.value)) && fits_i32(
            coef(rs, ds[i as int].1 + t.exp) - ds[i as int].0 * t.value,
        ));
        proof {
            assert(ds.take(i + 1) =~= ds.take(i as int) + seq![m@]);
            assert forall|x: int| #[trigger] coef(terms_model(acc@), x) == coef(rs, x) - t.value * coef(ds.take(i + 1), x - t.exp) by {
                lemma_coef_concat(ds.take(i as int), seq![m@], x - t.exp);
                lemma_coef_single(m@, x - t.exp);
                let a = coef(ds.take(i as int), x - t.exp);
                let b = if m.exp == x - t.exp { m.value as int } else { 0 };
                assert(t.value * (a + b) == t.value * a + t.value * b) by (nonlinear_arith);
                if m.exp == x - t.exp {
                    assert(b * t.value == t.value * b) by (nonlinear_arith);
                }
            }
        }
        i = i + 1;
    }
    assert(ds.take(ds.len() as int) =~= ds);
    assert(step_fits(rs, ds)) by {
        assert(fits_i32(t.value as int) && fits_i32(t.exp as int));
        assert forall|k: int| 0 <= k < ds.len() implies {
            &&& fits_i32(ds[k].1 + (rs[0].1 - ds[0].1))
            &&& fits_i32(-(ds[k].0 * quot(rs[0].0, ds[0].0)))
            &&& fits_i32(#[trigger] coef(rs, ds[k].1 + (rs[0].1 - ds[0].1)) - ds[k].0 * quot(rs[0].0, ds[0].0))
        } by {
            assert(fits_i32(ds[k].1 + t.exp) && fits_i32(-(ds[k].0 * t.value)) && fits_i32(
                coef(rs, ds[k].1 + t.exp) - ds[k].0 * t.value,
            ));
        }
    }
    Some(acc)
}

/// For a canonical run, each prefix ending at a term holds that term's coefficient.
proof fn lemma_prefix_coef(s: Seq<(int, int)>, i: int)
    requires
        canonical(s),
        0 <= i < s.len(),
    ensures
        coef(s.take(i + 1), s[i].1) == coef(s, s[i].1),
{
    lemma_canonical_sums_fit(s);
    let p = s.take(i + 1);
    assert forall|a: int, b: int| 0 <= a < b < p.len() implies (#[trigger] p[a]).1 > (
    #[trigger] p[b]).1 by {
        assert(p[a] == s[a] && p[b] == s[b]);
    }
    assert forall|a: int| 0 <= a < p.len() implies (#[trigger] p[a]).0 != 0 && fits_i32(p[a].0)
        && fits_i32(p[a].1) by {
        assert(p[a] == s[a]);
    }
    lemma_coef_at(p, i);
    lemma_coef_at(s, i);
}

/// The coefficient at exponent `e` of a canonical run of terms.
fn coef_at(v: &Vec<Monomial>, e: i32) -> (r: i32)
    requires
        canonical(terms_model(v@)),
    ensures
        r == coef(terms_model(v@), e as int),
{
    let ghost s = terms_model(v@);
    let mut i: usize = 0;
    while i < v.len()
        invariant
            i <= v@.len(),
            s == terms_model(v@),
            canonical(s),
            forall|k: int| 0 <= k < i ==> (#[trigger] v@[k]).exp != e,
        decreases v@.len() - i,
    {
        if v[i].exp == e {
            proof {
                lemma_coef_at(s, i as int);
            }
            return v[i].value;
        }
        i = i + 1;
    }
    proof {
        assert forall|k: int| 0 <= k < s.len() implies (#[trigger] s[k]).1 != e by {
            assert(s[k] == v@[k]@);
        }
        lemma_coef_absent(s, e as int);
    }
    0
}

impl TryFrom<&str> for Polynomial {
    type Error = ParseError;

    /// Reads an expression; see [`Polynomial::parse`].
    fn try_from(value: &str) -> (r: Result<Polynomial, ParseError>)
        ensures
            match terms_of_text(cleaned(value@)) {
                Err(e) => r == Err::<Polynomial, ParseError>(e),
                Ok(ts) => if sums_fit(ts) {
                    r matches Ok(p) && p.wf() && same_coefs(p.model(), ts)
                } else {
                    r == Err::<Polynomial, ParseError>(ParseError::Overflow)
                },
            },
    {
        Polynomial::parse(value)
    }
}

impl vstd::std_specs::convert::TryFromSpecImpl<&str> for Polynomial {
    /// The result holds a `Vec`, which a spec function cannot build; the
    /// `ensures` of `try_from` states it instead.
    open spec fn obeys_try_from_spec() -> bool {
        false
    }

    open spec fn try_from_spec(v: &str) -> Result<Polynomial, ParseError> {
        vstd::pervasive::arbitrary()
    }
}

impl TryFrom<Vec<i32>> for Polynomial {
    type Error = ParseError;

    /// Coefficients, highest power first; see [`Polynomial::from_coefficients`].
    /// More than `2^31` of them give exponents past the `i32` range.
    fn try_from(value: Vec<i32>) -> (r: Result<Polynomial, ParseError>)
        ensures
            value@.len() > 0x8000_0000 ==> r == Err::<Polynomial, ParseError>(ParseError::Overflow),
            value@.len() <= 0x8000_0000 ==> (r matches Ok(p) && p.wf() && forall|e: int|
                #[trigger] coef(p.model(), e) == if 0 <= e < value@.len() {
                    value@[value@.len() - 1 - e] as int
                } else {
                    0
                }),
    {
        if value.len() > 0x8000_0000 {
            return Err(ParseError::Overflow);
        }
        Ok(Polynomial::from_coefficients(&value))
    }
}

impl vstd::std_specs::convert::TryFromSpecImpl<Vec<i32>> for Polynomial {
    /// The result holds a `Vec`, which a spec function cannot build; the
    /// `ensures` of `try_from` states it instead.
    open spec fn obeys_try_from_spec() -> bool {
        false
    }

    open spec fn try_from_spec(v: Vec<i32>) -> Result<Polynomial, ParseError> {
        vstd::pervasive::arbitrary()
    }
}

impl core::ops::Index<usize> for Polynomial {
    type Output = Monomial;

    /// The term at position `index`, highest exponent first.
    fn index(&self, index: usize) -> (r: &Monomial)
        ensures
            *r == self.mono_vec@[index as int],
    {
        &self.mono_vec[index]
    }
}

impl vstd::std_specs::core::IndexSpecImpl<usize> for Polynomial {
    open spec fn index_req(&self, index: &usize) -> bool {
        *index < self.mono_vec@.len()
    }
}

impl IntoIterator for Polynomial {
    type Item = Monomial;

    type IntoIter = std::vec::IntoIter<Monomial>;

    /// The terms, highest exponent first.
    fn into_iter(self) -> std::vec::IntoIter<Monomial> {
        self.mono_vec.into_iter()
    }
}

impl Default for Polynomial {
    /// The zero expression.
    fn default() -> (r: Polynomial)
        ensures
            r.wf(),
            r.model().len() == 0,
    {
        Polynomial { mono_vec: Vec::new() }
    }
}

impl Polynomial {
    /// The terms, as (coefficient, exponent) pairs.
    pub open spec fn model(&self) -> Seq<(int, int)> {
        terms_model(self.mono_vec@)
    }

    /// The canonical-form invariant, which every constructor establishes.
    pub open spec fn wf(&self) -> bool {
        canonical(self.model())
    }

    /// The zero expression.
    pub fn zero() -> (r: Polynomial)
        ensures
            r.wf(),
            r.model().len() == 0,
    {
        Polynomial { mono_vec: Vec::new() }
    }

    /// The canonical form of the sum of `mono_vec`: like terms merged, zero
    /// terms dropped, exponents descending.
    pub fn new(mono_vec: Vec<Monomial>) -> (r: Polynomial)
        requires
            sums_fit(terms_model(mono_vec@)),
        ensures
            r.wf(),
            same_coefs(r.model(), terms_model(mono_vec@)),
    {
        let mut acc: Vec<Monomial> = Vec::new();
        proof {
            assert forall|i: int| 0 <= i < mono_vec@.len() implies fits_i32(
                coef(terms_model(acc@), mono_vec@[i].exp as int) + #[trigger] coef(
                    terms_model(mono_vec@.take(i + 1)),
                    mono_vec@[i].exp as int,
                ),
            ) by {
                assert(terms_model(mono_vec@.take(i + 1)) =~= terms_model(mono_vec@).take(i + 1));
                assert(terms_model(mono_vec@)[i] == mono_vec@[i]@);
                assert(fits_i32(coef(terms_model(mono_vec@).take(i + 1), terms_model(mono_vec@)[i].1)));
                lemma_coef_absent(terms_model(acc@), mono_vec@[i].exp as int);
            }
        }
        absorb_all(&mut acc, &mono_vec);
        proof {
            assert forall|e: int| #[trigger]
                coef(terms_model(acc@), e) == coef(terms_model(mono_vec@), e) by {
                lemma_coef_absent(Seq::<(int, int)>::empty(), e);
            }
        }
        Polynomial { mono_vec: acc }
    }

    /// The term of highest exponent, or the zero term `0x^0` for the zero expression.
    pub fn max_exp(&self) -> (r: Monomial)
        requires
            self.wf(),
        ensures
            self.model().len() == 0 ==> r@ == (0int, 0int),
            self.model().len() > 0 ==> r@ == self.model()[0],
            r.exp == degree(self.model()),
    {
        if self.mono_vec.len() == 0 {
            return Monomial::new(0, 0);
        }
        self.mono_vec[0]
    }

    /// The terms, highest exponent first.
    pub fn terms(&self) -> (r: Vec<Monomial>)
        ensures
            terms_model(r@) == self.model(),
    {
        let r = self.mono_vec.clone();
        assert(r@ =~= self.mono_vec@);
        r
    }

    /// The number of terms; zero for the zero expression.
    pub fn len(&self) -> (r: usize)
        ensures
            r == self.model().len(),
    {
        self.mono_vec.len()
    }

    /// The term at exponent `exp`, or the zero term `0x^0` when there is none.
    pub fn find_by_exp(&self, exp: i32) -> (r: Monomial)
        requires
            self.wf(),
        ensures
            coef(self.model(), exp as int) != 0 ==> r@ == (coef(self.model(), exp as int), exp as int),
            coef(self.model(), exp as int) == 0 ==> r@ == (0int, 0int),
    {
        let v = coef_at(&self.mono_vec, exp);
        if v == 0 {
            Monomial::new(0, 0)
        } else {
            Monomial::new(v, exp)
        }
    }

    /// Adds one term and returns to canonical form.
    pub fn push(&mut self, mono: Monomial)
        requires
            old(self).wf(),
            fits_i32(coef(old(self).model(), mono.exp as int) + mono.value),
        ensures
            final(self).wf(),
            forall|e: int|
                #[trigger] coef(final(self).model(), e) == coef(old(self).model(), e) + (if e
                    == mono.exp {
                    mono.value as int
                } else {
                    0
                }),
    {
        absorb(&mut self.mono_vec, mono);
    }

    /// The sum of two expressions.
    pub fn add(self, rhs: Polynomial) -> (r: Polynomial)
        requires
            self.wf(),
            rhs.wf(),
            forall|e: int| fits_i32(#[trigger] coef(self.model(), e) + coef(rhs.model(), e)),
        ensures
            r.wf(),
            forall|e: int| #[trigger] coef(r.model(), e) == coef(self.model(), e) + coef(rhs.model(), e),
    {
        let mut acc = self.mono_vec;
        proof {
            assert forall|i: int| 0 <= i < rhs.mono_vec@.len() implies fits_i32(
                coef(terms_model(acc@), rhs.mono_vec@[i].exp as int) + #[trigger] coef(
                    terms_model(rhs.mono_vec@.take(i + 1)),
                    rhs.mono_vec@[i].exp as int,
                ),
            ) by {
                assert(terms_model(rhs.mono_vec@.take(i + 1)) =~= rhs.model().take(i + 1));
                assert(rhs.model()[i] == rhs.mono_vec@[i]@);
                lemma_prefix_coef(rhs.model(), i);
                assert(fits_i32(coef(self.model(), rhs.mono_vec@[i].exp as int) + coef(rhs.model(), rhs.mono_vec@[i].exp as int)));
            }
        }
        absorb_all(&mut acc, &rhs.mono_vec);
        Polynomial { mono_vec: acc }
    }

    /// The expression with every coefficient negated.
    pub fn neg(self) -> (r: Polynomial)
        requires
            self.wf(),
            forall|e: int| #[trigger] coef(self.model(), e) != i32::MIN,
        ensures
            r.wf(),
            forall|e: int| #[trigger] coef(r.model(), e) == -coef(self.model(), e),
    {
        let mut out: Vec<Monomial> = Vec::new();
        let mut i: usize = 0;
        while i < self.mono_vec.len()
            invariant
                i <= self.mono_vec@.len(),
                self.wf(),
                forall|e: int| #[trigger] coef(self.model(), e) != i32::MIN,
                out@.len() == i,
                forall|k: int| 0 <= k < i ==> (#[trigger] out@[k])@ == (-self.model()[k].0, self.model()[k].1),
            decreases self.mono_vec@.len() - i,
        {
            let m = self.mono_vec[i];
            proof {
                assert(self.model()[i as int] == m@);
                lemma_coef_at(self.model(), i as int);
                assert(coef(self.model(), m.exp as int) != i32::MIN);
            }
            out.push(m.neg());
            i = i + 1;
        }
        let ghost s = self.model();
        let ghost o = terms_model(out@);
        assert(o =~= s.map_values(|x: (int, int)| (-x.0, x.1)));
        proof {
            assert forall|e: int| #[trigger] coef(o, e) == -coef(s, e) by {
                lemma_coef_negated(s, e);
            }
        }
        Polynomial { mono_vec: out }
    }

    /// Every term multiplied by `rhs`: coefficients multiply, exponents add.
    pub fn mul_mono(self, rhs: Monomial) -> (r: Polynomial)
        requires
            self.wf(),
            forall|i: int|
                0 <= i < self.model().len() ==> fits_i32(#[trigger] self.model()[i].0 * rhs.value)
                    && fits_i32(self.model()[i].1 + rhs.exp),
        ensures
            r.wf(),
            forall|e: int| #[trigger] coef(r.model(), e) == rhs.value * coef(self.model(), e - rhs.exp),
    {
        if rhs.value == 0 {
            let r = Polynomial::zero();
            assert forall|e: int| #[trigger] coef(r.model(), e) == rhs.value * coef(self.model(), e - rhs.exp) by {
                lemma_coef_absent(r.model(), e);
            }
            return r;
        }
        let ghost s = self.model();
        let mut out: Vec<Monomial> = Vec::new();
        let mut i: usize = 0;
        while i < self.mono_vec.len()
            invariant
                i <= self.mono_vec@.len(),
                s == self.model(),
                rhs.value != 0,
                forall|k: int|
                    0 <= k < s.len() ==> fits_i32(#[trigger] s[k].0 * rhs.value)
                        && fits_i32(s[k].1 + rhs.exp),
                out@.len() == i,
                s.len() == self.mono_vec@.len(),
                terms_model(out@) == scaled(s, rhs.value as int, rhs.exp as int).take(i as int),
            decreases self.mono_vec@.len() - i,
        {
            let m = self.mono_vec[i];
            assert(s[i as int] == m@);
            assert(fits_i32(s[i as int].0 * rhs.value) && fits_i32(s[i as int].1 + rhs.exp));
            let prod = m.mul(rhs);
            assert(prod@ == scaled(s, rhs.value as int, rhs.exp as int)[i as int]);
            let ghost before = out@;
            out.push(prod);
            assert forall|k: int| 0 <= k < i + 1 implies #[trigger] terms_model(out@)[k] == scaled(
                s,
                rhs.value as int,
                rhs.exp as int,
            ).take(i + 1)[k] by {
                if k < i {
                    assert(terms_model(before)[k] == scaled(s, rhs.value as int, rhs.exp as int).take(i as int)[k]);
                    assert(out@[k] == before[k]);
                }
            }
            assert(terms_model(out@) =~= scaled(s, rhs.value as int, rhs.exp as int).take(i + 1));
            i = i + 1;
        }
        let ghost o = terms_model(out@);
        assert(o =~= scaled(s, rhs.value as int, rhs.exp as int));
        assert forall|k: int| 0 <= k < o.len() implies (#[trigger] o[k]).0 != 0 by {
            assert(s[k].0 != 0);
            assert(s[k].0 * rhs.value != 0) by (nonlinear_arith)
                requires
                    s[k].0 != 0,
                    rhs.value != 0,
            ;
        }
        assert forall|p: int, q: int| 0 <= p < q < o.len() implies (#[trigger] o[p]).1 > (#[trigger] o[q]).1 by {
            assert(s[p].1 > s[q].1);
        }
        assert forall|e: int| #[trigger] coef(o, e) == rhs.value * coef(s, e - rhs.exp) by {
            lemma_coef_scaled(s, rhs.value as int, rhs.exp as int, e);
        }
        Polynomial { mono_vec: out }
    }

    /// Every term divided by `rhs`: coefficients divide (truncating),
    /// exponents subtract; terms that become zero are dropped.
    pub fn div_mono(self, rhs: Monomial) -> (r: Polynomial)
        requires
            self.wf(),
            rhs.value != 0,
            forall|i: int|
                0 <= i < self.model().len() ==> fits_i32(quot(#[trigger] self.model()[i].0, rhs.value as int))
                    && fits_i32(self.model()[i].1 - rhs.exp),
        ensures
            r.wf(),
            forall|e: int| #[trigger] coef(r.model(), e) == quot(coef(self.model(), e + rhs.exp), rhs.value as int),
    {
        let ghost s = self.model();
        let ghost dv = divided(s, rhs.value as int, rhs.exp as int);
        let mut acc: Vec<Monomial> = Vec::new();
        let mut i: usize = 0;
        while i < self.mono_vec.len()
            invariant
                i <= self.mono_vec@.len(),
                s == self.model(),
                canonical(s),
                dv == divided(s, rhs.value as int, rhs.exp as int),
                rhs.value != 0,
                forall|k: int|
                    0 <= k < s.len() ==> fits_i32(quot(#[trigger] s[k].0, rhs.value as int))
                        && fits_i32(s[k].1 - rhs.exp),
                canonical(terms_model(acc@)),
                forall|e: int| #[trigger] coef(terms_model(acc@), e) == coef(dv.take(i as int), e),
            decreases self.mono_vec@.len() - i,
        {
            let m = self.mono_vec[i];
            assert(s[i as int] == m@);
            let q = m.div(rhs);
            proof {
                let pre = dv.take(i as int);
                assert forall|k: int| 0 <= k < pre.len() implies (#[trigger] pre[k]).1 != q.exp by {
                    assert(pre[k] == dv[k]);
                    assert(s[k].1 > s[i as int].1);
                }
                lemma_coef_absent(pre, q.exp as int);
                assert(dv.take(i + 1) =~= pre + seq![q@]);
                assert forall|e: int| #[trigger] coef(dv.take(i + 1), e) == coef(pre, e) + (if e == q.exp { q.value as int } else { 0 }) by {
                    lemma_coef_concat(pre, seq![q@], e);
                    lemma_coef_single(q@, e);
                }
            }
            absorb(&mut acc, q);
            i = i + 1;
        }
        assert(dv.take(s.len() as int) =~= dv);
        assert forall|e: int| #[trigger] coef(terms_model(acc@), e) == quot(coef(s, e + rhs.exp), rhs.value as int) by {
            lemma_coef_divided(s, rhs.value as int, rhs.exp as int, e);
        }
        Polynomial { mono_vec: acc }
    }

    /// The product of two expressions: every pair of terms multiplied, then
    /// like terms merged.
    pub fn mul(self, rhs: Polynomial) -> (r: Polynomial)
        requires
            self.wf(),
            rhs.wf(),
            product_sums_fit(self.model(), rhs.model()),
        ensures
            r.wf(),
            same_coefs(r.model(), products(self.model(), rhs.model())),
    {
        let ghost s = self.model();
        let ghost t = rhs.model();
        let mut acc: Vec<Monomial> = Vec::new();
        let mut i: usize = 0;
        assert(s.take(0) =~= Seq::<(int, int)>::empty());
        assert forall|e: int| #[trigger] coef(terms_model(acc@), e) == coef(products(s.take(0), t), e) by {}
        while i < self.mono_vec.len()
            invariant
                i <= self.mono_vec@.len(),
                s == self.model(),
                t == rhs.model(),
                product_sums_fit(s, t),
                canonical(terms_model(acc@)),
                forall|e: int| #[trigger] coef(terms_model(acc@), e) == coef(products(s.take(i as int), t), e),
            decreases self.mono_vec@.len() - i,
        {
            let a = self.mono_vec[i];
            assert(s[i as int] == a@);
            let ghost row = scaled(t, a.value as int, a.exp as int);
            let ghost base = products(s.take(i as int), t);
            let mut j: usize = 0;
            assert(row.take(0) =~= Seq::<(int, int)>::empty());
            assert(base + row.take(0) =~= base);
            while j < rhs.mono_vec.len()
                invariant
                    i < self.mono_vec@.len(),
                    j <= rhs.mono_vec@.len(),
                    s == self.model(),
                    t == rhs.model(),
                    s[i as int] == a@,
                    row == scaled(t, a.value as int, a.exp as int),
                    base == products(s.take(i as int), t),
                    product_sums_fit(s, t),
                    canonical(terms_model(acc@)),
                    forall|e: int| #[trigger] coef(terms_model(acc@), e) == coef(base + row.take(j as int), e),
                decreases rhs.mono_vec@.len() - j,
            {
                let b = rhs.mono_vec[j];
                assert(t[j as int] == b@);
                assert(fits_i32(
                    coef(
                        products(s.take(i as int), t) + scaled(t, s[i as int].0, s[i as int].1).take(j + 1),
                        s[i as int].1 + t[j as int].1,
                    ),
                ));
                assert(fits_i32(b.value * a.value)) by {
                    assert(b.value * a.value == a.value * b.value) by (nonlinear_arith);
                }
                let m = b.mul(a);
                assert(m@ == row[j as int]);
                assert(base + row.take(j + 1) =~= (base + row.take(j as int)) + seq![m@]);
                proof {
                    assert forall|e: int| #[trigger] coef(base + row.take(j + 1), e) == coef(base + row.take(j as int), e) + (if e == m.exp { m.value as int } else { 0 }) by {
                        lemma_coef_concat(base + row.take(j as int), seq![m@], e);
                        lemma_coef_single(m@, e);
                    }
                }
                absorb(&mut acc, m);
                j = j + 1;
            }
            assert(row.take(t.len() as int) =~= row);
            assert(s.take(i + 1).drop_last() =~= s.take(i as int));
            assert(products(s.take(i + 1), t) == base + row);
            i = i + 1;
        }
        assert(s.take(s.len() as int) =~= s);
        Polynomial { mono_vec: acc }
    }

    /// The shape of the equation `self = 0`, which picks the root search.
    pub fn equation_type(&self) -> (r: EquationType)
        requires
            self.wf(),
        ensures
            r == equation_type_of(self.model()),
    {
        let d = self.max_exp().get_exp();
        if d == 0 {
            EquationType::Invalid
        } else if d == 1 {
            EquationType::Linear
        } else if d > 2 && self.len() == 2 {
            EquationType::BigExp2Terms
        } else if d == 2 {
            EquationType::Quadratic
        } else if d == 4 && self.find_by_exp(3).get_value() == 0 && self.find_by_exp(1).get_value() == 0 {
            EquationType::Biquadratic
        } else {
            EquationType::BigExp
        }
    }

    /// The expression whose coefficients, highest power first, are `values`:
    /// entry `i` of `n` is the coefficient of `x^(n-1-i)`; zero entries give no term.
    pub fn from_coefficients(values: &Vec<i32>) -> (r: Polynomial)
        requires
            values@.len() <= 0x8000_0000,
        ensures
            r.wf(),
            forall|e: int| #[trigger] coef(r.model(), e) == if 0 <= e < values@.len() {
                values@[values@.len() - 1 - e] as int
            } else {
                0
            },
    {
        let n = values.len();
        let mut acc: Vec<Monomial> = Vec::new();
        let mut i: usize = 0;
        while i < n
            invariant
                n == values@.len(),
                n <= 0x8000_0000,
                i <= n,
                canonical(terms_model(acc@)),
                forall|e: int| #[trigger] coef(terms_model(acc@), e) == if n - i <= e < n {
                    values@[n - 1 - e] as int
                } else {
                    0
                },
            decreases n - i,
        {
            let exp = (n - 1 - i) as i32;
            absorb(&mut acc, Monomial::new(values[i], exp));
            i = i + 1;
        }
        Polynomial { mono_vec: acc }
    }

    /// Builds the canonical form of `mono_vec` when like terms add up within
    /// the `i32` range; `None` when a running sum would leave it.
    pub fn try_new(mono_vec: &Vec<Monomial>) -> (r: Option<Polynomial>)
        ensures
            r is Some <==> sums_fit(terms_model(mono_vec@)),
            r matches Some(p) ==> p.wf() && same_coefs(p.model(), terms_model(mono_vec@)),
    {
        let ghost s = terms_model(mono_vec@);
        let mut acc: Vec<Monomial> = Vec::new();
        let mut i: usize = 0;
        while i < mono_vec.len()
            invariant
                i <= mono_vec@.len(),
                s == terms_model(mono_vec@),
                canonical(terms_model(acc@)),
                forall|k: int| 0 <= k < i ==> fits_i32(#[trigger] coef(s.take(k + 1), s[k].1)),
                forall|e: int| #[trigger] coef(terms_model(acc@), e) == coef(s.take(i as int), e),
            decreases mono_vec@.len() - i,
        {
            let t = mono_vec[i];
            assert(s[i as int] == t@);
            assert(s.take(i + 1) =~= s.take(i as int) + seq![t@]);
            assert forall|e: int| #[trigger] coef(s.take(i + 1), e) == coef(s.take(i as int), e) + (
            if e == t.exp {
                t.value as int
            } else {
                0
            }) by {
                lemma_coef_concat(s.take(i as int), seq![t@], e);
                lemma_coef_single(t@, e);
            }
            let sum: i64 = coef_at(&acc, t.exp) as i64 + t.value as i64;
            if sum < i32::MIN as i64 || sum > i32::MAX as i64 {
                assert(!fits_i32(coef(s.take(i + 1), s[i as int].1)));
                return None;
            }
            absorb(&mut acc, t);
            i = i + 1;
        }
        assert(s.take(s.len() as int) =~= s);
        Some(Polynomial { mono_vec: acc })
    }

    /// Reads an expression such as `x^2 + 4x - 100` or `6x4 + 5x3 - 7x2 + 3x +2`
    /// into canonical form. Blanks and `^` are ignored and `X` reads as `x`.
    pub fn parse(s: &str) -> (r: Result<Polynomial, ParseError>)
        ensures
            match terms_of_text(cleaned(s@)) {
                Err(e) => r == Err::<Polynomial, ParseError>(e),
                Ok(ts) => if sums_fit(ts) {
                    r matches Ok(p) && p.wf() && same_coefs(p.model(), ts)
                } else {
                    r == Err::<Polynomial, ParseError>(ParseError::Overflow)
                },
            },
    {
        let raw = chars_of(s);
        let c = clean(&raw);
        let n = c.len();
        let mut ts: Vec<Monomial> = Vec::new();
        let mut start: usize = 0;
        let mut i: usize = 1;
        if n == 0 {
            return match Polynomial::try_new(&ts) {
                Some(p) => Ok(p),
                None => Err(ParseError::Overflow),
            };
        }
        while i < n
            invariant
                n == c@.len(),
                c@ == cleaned(s@),
                0 <= start < i <= n,
                start == 0 || is_sign(c@[start as int]),
                forall|k: int| start < k < i ==> !is_sign(#[trigger] c@[k]),
                start > 0 ==> terms_of_text(c@.take(start as int)) == Ok::<Seq<(int, int)>, ParseError>(terms_model(ts@)),
                start == 0 ==> ts@.len() == 0,
            decreases n - i,
        {
            if c[i] == '+' || c[i] == '-' {
                proof {
                    let d = c@.take(i as int);
                    lemma_last_sign_is(c@, d, start as int, i - 1);
                    if start > 0 {
                        assert(d.take(start as int) =~= c@.take(start as int));
                    }
                    assert(d.skip(start as int) =~= c@.subrange(start as int, i as int));
                }
                let ghost before = ts@;
                let ghost d = c@.take(i as int);
                assert(terms_of_text(d) == match (if 0 < start < i {
                    terms_of_text(d.take(start as int))
                } else {
                    Ok(Seq::empty())
                }) {
                    Err(e) => Err(e),
                    Ok(tt) => match term_of(d.skip(start as int)) {
                        Err(e) => Err(e),
                        Ok(t) => Ok(tt.push(t)),
                    },
                });
                assert(start == 0 ==> terms_model(before) =~= Seq::<(int, int)>::empty());
                match read_term(&c, start, i, &mut ts) {
                    Ok(()) => {},
                    Err(e) => {
                        proof {
                            if start > 0 {
                                assert(d.take(start as int) =~= c@.take(start as int));
                            }
                            assert(d.skip(start as int) =~= c@.subrange(start as int, i as int));
                            assert(terms_of_text(d) == Err::<Seq<(int, int)>, ParseError>(e));
                            lemma_error_spreads(c@, i as int);
                        }
                        return Err(e);
                    },
                }
                assert(terms_model(ts@) =~= terms_model(before).push(ts@.last()@));
                start = i;
            }
            i = i + 1;
        }
        proof {
            lemma_last_sign_is(c@, c@, start as int, n - 1);
            if start > 0 {
                assert(c@.take(start as int) =~= c@.take(start as int));
            }
            assert(c@.skip(start as int) =~= c@.subrange(start as int, n as int));
        }
        let ghost before = ts@;
        assert(start == 0 ==> terms_model(before) =~= Seq::<(int, int)>::empty());
        assert(terms_of_text(c@) == match (if 0 < start < n {
            terms_of_text(c@.take(start as int))
        } else {
            Ok(Seq::empty())
        }) {
            Err(e) => Err(e),
            Ok(tt) => match term_of(c@.skip(start as int)) {
                Err(e) => Err(e),
                Ok(t) => Ok(tt.push(t)),
            },
        });
        match read_term(&c, start, n, &mut ts) {
            Ok(()) => {},
            Err(e) => {
                return Err(e);
            },
        }
        assert(terms_model(ts@) =~= terms_model(before).push(ts@.last()@));
        match Polynomial::try_new(&ts) {
            Some(p) => Ok(p),
            None => Err(ParseError::Overflow),
        }
    }

    /// The expression as text, such as `2x^2 + 3x - 5`, `-x^90 + 6` or `0`.
    pub fn to_string(&self) -> (r: String)
        requires
            self.wf(),
        ensures
            r@ == poly_text(self.model()),
    {
        let mut out: Vec<char> = Vec::new();
        if self.mono_vec.len() == 0 {
            out.push('0');
            assert(out@ =~= seq!['0']);
            return string_of(&out);
        }
        let ghost s = self.model();
        let mut i: usize = 0;
        while i < self.mono_vec.len()
            invariant
                i <= self.mono_vec@.len(),
                s == self.model(),
                canonical(s),
                out@ == terms_text(s, i as int),
            decreases self.mono_vec@.len() - i,
        {
            let m = self.mono_vec[i];
            assert(s[i as int] == m@);
            let ghost before = out@;
            if m.value < 0 {
                if i == 0 {
                    out.push('-');
                } else {
                    out.push(' ');
                    out.push('-');
                    out.push(' ');
                }
            } else if i != 0 {
                out.push(' ');
                out.push('+');
                out.push(' ');
            }
            let mag: i64 = if m.value < 0 {
                -(m.value as i64)
            } else {
                m.value as i64
            };
            write_term(&mut out, mag, m.exp);
            assert(out@ =~= before + piece_text(s[i as int], i == 0));
            i = i + 1;
        }
        string_of(&out)
    }

    /// Long division: the quotient and the remainder, with
    /// `self == quotient * rhs + remainder`.
    pub fn div(self, rhs: Polynomial) -> (r: (Polynomial, Polynomial))
        requires
            self.wf(),
            rhs.wf(),
            rhs.model().len() > 0,
        ensures
            r.0.wf(),
            r.1.wf(),
            forall|e: int|
                #[trigger] coef(self.model(), e) == coef(products(r.0.model(), rhs.model()), e)
                    + coef(r.1.model(), e),
            division_done(r.1.model(), rhs.model()),
            r.0.model() == long_quot(self.model(), rhs.model(), division_fuel(self.model(), rhs.model())),
            r.1.model() == long_rem(self.model(), rhs.model(), division_fuel(self.model(), rhs.model())),
    {
        let ghost d = rhs.model();
        let ghost p = self.model();
        let ghost f0 = division_fuel(p, d);
        let ghost mut fuel: nat = f0;
        let lead = rhs.mono_vec[0];
        assert(d[0] == lead@);
        let mut rem: Vec<Monomial> = self.mono_vec;
        let mut qv: Vec<Monomial> = Vec::new();
        proof {
            assert forall|e: int| #[trigger] coef(p, e) == coef(products(terms_model(qv@), d), e)
                + coef(terms_model(rem@), e) by {
                assert(terms_model(qv@) =~= Seq::<(int, int)>::empty());
                lemma_coef_absent(Seq::<(int, int)>::empty(), e);
            }
            assert(terms_model(qv@) + long_quot(p, d, f0) =~= long_quot(p, d, f0));
        }
        loop
            invariant_except_break
                canonical(terms_model(rem@)),
            invariant
                d == rhs.model(),
                canonical(d),
                d.len() > 0,
                d[0] == lead@,
                p == self.model(),
                canonical(terms_model(rem@)),
                canonical(terms_model(qv@)),
                qv@.len() > 0 ==> terms_model(rem@).len() == 0 || degree(terms_model(rem@))
                    < qv@.last().exp + lead.exp,
                forall|e: int|
                    #[trigger] coef(p, e) == coef(products(terms_model(qv@), d), e) + coef(
                        terms_model(rem@),
                        e,
                    ),
                f0 == division_fuel(p, d),
                fuel >= division_fuel(terms_model(rem@), d),
                long_rem(p, d, f0) == long_rem(terms_model(rem@), d, fuel),
                long_quot(p, d, f0) == terms_model(qv@) + long_quot(terms_model(rem@), d, fuel),
            ensures
                canonical(terms_model(rem@)),
                division_done(terms_model(rem@), d),
                long_rem(p, d, f0) == terms_model(rem@),
                long_quot(p, d, f0) == terms_model(qv@),
            decreases (if rem@.len() == 0 {
                0
            } else if degree(terms_model(rem@)) < lead.exp {
                0
            } else {
                degree(terms_model(rem@)) - lead.exp + 1
            }),
        {
            let ghost r = terms_model(rem@);
            if rem.len() == 0 {
                break;
            }
            let top = rem[0];
            assert(r[0] == top@);
            if top.exp < lead.exp {
                break;
            }
            let un: i64 = if top.value < 0 {
                -(top.value as i64)
            } else {
                top.value as i64
            };
            let ud: i64 = if lead.value < 0 {
                -(lead.value as i64)
            } else {
                lead.value as i64
            };
            if un % ud != 0 {
                break;
            }
            let q = quot_i64(top.value as i64, lead.value as i64);
            let qe = top.exp as i64 - lead.exp as i64;
            if q < i32::MIN as i64 || q > i32::MAX as i64 || qe > i32::MAX as i64 {
                break;
            }
            let t = Monomial::new(q as i32, qe as i32);
            let next = match sub_scaled(&rem, &rhs.mono_vec, t) {
                Some(v) => v,
                None => {
                    break;
                },
            };
            proof {
                let r2 = terms_model(next@);
                let qs = terms_model(qv@);
                // the leading term is gone, and nothing above it appeared
                assert(q * lead.value == top.value) by (nonlinear_arith)
                    requires
                        q == quot(top.value as int, lead.value as int),
                        (if top.value < 0 { -top.value } else { top.value as int }) % (if lead.value < 0 { -lead.value } else { lead.value as int }) == 0,
                        lead.value != 0,
                ;
                assert forall|e: int| e >= top.exp implies #[trigger] coef(r2, e) == 0 by {
                    lemma_coef_at(d, 0);
                    if e > top.exp {
                        assert forall|k: int| 0 <= k < r.len() implies (#[trigger] r[k]).1 != e by {
                            if k > 0 {
                                assert(r[0].1 > r[k].1);
                            }
                        }
                        lemma_coef_absent(r, e);
                        assert forall|k: int| 0 <= k < d.len() implies (#[trigger] d[k]).1 != e - qe by {
                            if k > 0 {
                                assert(d[0].1 > d[k].1);
                            }
                        }
                        lemma_coef_absent(d, e - qe);
                    } else {
                        lemma_coef_at(r, 0);
                    }
                }
                if r2.len() > 0 {
                    lemma_coef_at(r2, 0);
                }
                assert(terms_model(qv@.push(t)) =~= qs.push(t@));
                assert(qs.push(t@).drop_last() =~= qs);
                assert(products(qs.push(t@), d) == products(qs, d) + scaled(d, q as int, qe as int));
                assert forall|e: int| #[trigger] coef(p, e) == coef(products(qs.push(t@), d), e)
                    + coef(r2, e) by {
                    lemma_coef_concat(products(qs, d), scaled(d, q as int, qe as int), e);
                    lemma_coef_scaled(d, q as int, qe as int, e);
                }
                assert(q != 0) by (nonlinear_arith)
                    requires
                        q * lead.value == top.value,
                        top.value != 0,
                ;
                let qs2 = qs.push(t@);
                assert forall|a: int, b: int| 0 <= a < b < qs2.len() implies (#[trigger] qs2[a]).1 > (#[trigger] qs2[b]).1 by {
                    if b == qs.len() && a < qs.len() {
                        assert(qs[qs.len() - 1] == qv@.last()@);
                        if a < qs.len() - 1 {
                            assert(qs[a].1 > qs[qs.len() - 1].1);
                        }
                    } else {
                        assert(qs2[a] == qs[a] && qs2[b] == qs[b]);
                    }
                }
                assert forall|a: int| 0 <= a < qs2.len() implies (#[trigger] qs2[a]).0 != 0 && fits_i32(qs2[a].0) && fits_i32(qs2[a].1) by {
                    if a < qs.len() {
                        assert(qs2[a] == qs[a]);
                    }
                }
            }
            proof {
                let r2 = terms_model(next@);
                let qs = terms_model(qv@);
                assert(step_term(r, d) == t@);
                assert(!division_done(r, d));
                assert(canonical(r2) && forall|e: int|
                    #[trigger] coef(r2, e) == coef(r, e) - step_term(r, d).0 * coef(d, e - step_term(r, d).1));
                let c = step_rem(r, d);
                assert(canonical(c) && forall|e: int|
                    #[trigger] coef(c, e) == coef(r, e) - step_term(r, d).0 * coef(d, e - step_term(r, d).1));
                assert forall|e: int| #[trigger] coef(c, e) == coef(r2, e) by {}
                crate::model::lemma_canonical_unique(c, r2);
                assert(fuel >= 1);
                assert(long_rem(r, d, fuel) == long_rem(r2, d, (fuel - 1) as nat));
                assert(long_quot(r, d, fuel) == seq![t@] + long_quot(r2, d, (fuel - 1) as nat));
                assert(terms_model(qv@.push(t)) =~= qs.push(t@));
                assert(qs + (seq![t@] + long_quot(r2, d, (fuel - 1) as nat)) =~= qs.push(t@) + long_quot(r2, d, (fuel - 1) as nat));
                if r2.len() > 0 {
                    lemma_coef_at(r2, 0);
                }
            }
            qv.push(t);
            rem = next;
            proof {
                fuel = (fuel - 1) as nat;
            }
        }
        (Polynomial { mono_vec: qv }, Polynomial { mono_vec: rem })
    }

    /// The difference of two expressions: `self + (-rhs)`.
    pub fn sub(self, rhs: Polynomial) -> (r: Polynomial)
        requires
            self.wf(),
            rhs.wf(),
            forall|e: int| #[trigger] coef(rhs.model(), e) != i32::MIN,
            forall|e: int| fits_i32(#[trigger] coef(self.model(), e) - coef(rhs.model(), e)),
        ensures
            r.wf(),
            forall|e: int| #[trigger] coef(r.model(), e) == coef(self.model(), e) - coef(rhs.model(), e),
    {
        let n = rhs.neg();
        assert forall|e: int| fits_i32(#[trigger] coef(self.model(), e) + coef(n.model(), e)) by {
            assert(fits_i32(coef(self.model(), e) - coef(rhs.model(), e)));
        }
        self.add(n)
    }
}

} // verus!
