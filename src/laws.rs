//! Laws that relate the operations on expressions.
use vstd::prelude::*;

use crate::model::{
    canonical, coef, degree, lemma_canonical_unique, lemma_coef_absent,
    lemma_coef_at, lemma_coef_concat, same_coefs,
};
use crate::poly::{division_done, poly_text, products, scaled, step_fits, Polynomial};

verus! {

/// Normalizing an expression that is already canonical changes nothing: any
/// canonical result with the same coefficients is the expression itself.
pub proof fn law_normalize_idempotent(p: Polynomial, q: Polynomial)
    requires
        p.wf(),
        q.wf(),
        same_coefs(q.model(), p.model()),
    ensures
        q.model() == p.model(),
{
    lemma_canonical_unique(q.model(), p.model());
}

/// Reading text gives the one canonical form of the terms it holds, so its
/// display is that of the canonical form, however the text repeated
/// exponents or wrote zero terms.
pub proof fn law_parse_display(p: Polynomial, q: Polynomial, ts: Seq<(int, int)>)
    requires
        p.wf(),
        q.wf(),
        same_coefs(p.model(), ts),
        same_coefs(q.model(), ts),
    ensures
        poly_text(p.model()) == poly_text(q.model()),
{
    assert forall|e: int| #[trigger] coef(p.model(), e) == coef(q.model(), e) by {
        assert(coef(p.model(), e) == coef(ts, e));
        assert(coef(q.model(), e) == coef(ts, e));
    }
    lemma_canonical_unique(p.model(), q.model());
}

/// Adding the zero expression gives the expression back.
pub proof fn law_add_zero(p: Polynomial, zero: Polynomial, sum: Polynomial)
    requires
        p.wf(),
        zero.wf(),
        zero.model().len() == 0,
        sum.wf(),
        forall|e: int| #[trigger] coef(sum.model(), e) == coef(p.model(), e) + coef(zero.model(), e),
    ensures
        sum.model() == p.model(),
{
    assert forall|e: int| #[trigger] coef(sum.model(), e) == coef(p.model(), e) by {
        lemma_coef_absent(zero.model(), e);
    }
    lemma_canonical_unique(sum.model(), p.model());
}

/// An expression plus its negation is the zero expression.
pub proof fn law_add_negation(p: Polynomial, n: Polynomial, sum: Polynomial)
    requires
        p.wf(),
        n.wf(),
        sum.wf(),
        forall|e: int| #[trigger] coef(n.model(), e) == -coef(p.model(), e),
        forall|e: int| #[trigger] coef(sum.model(), e) == coef(p.model(), e) + coef(n.model(), e),
    ensures
        sum.model().len() == 0,
{
    let z = Seq::<(int, int)>::empty();
    assert forall|e: int| #[trigger] coef(sum.model(), e) == coef(z, e) by {
        assert(coef(n.model(), e) == -coef(p.model(), e));
    }
    lemma_canonical_unique(sum.model(), z);
}

/// Dividing by an expression whose leading coefficient is 1 or -1 leaves a
/// remainder of lower degree than the divisor, unless the division stopped
/// because a next step would leave the `i32` range.
pub proof fn law_division_by_unit(
    p: Polynomial,
    d: Polynomial,
    q: Polynomial,
    r: Polynomial,
)
    requires
        p.wf(),
        d.wf(),
        d.model().len() > 0,
        d.model()[0].0 == 1 || d.model()[0].0 == -1,
        q.wf(),
        r.wf(),
        forall|e: int|
            #[trigger] coef(p.model(), e) == coef(products(q.model(), d.model()), e) + coef(
                r.model(),
                e,
            ),
        division_done(r.model(), d.model()),
    ensures
        r.model().len() == 0 || degree(r.model()) < degree(d.model()) || !step_fits(
            r.model(),
            d.model(),
        ),
{
    let s = r.model();
    if s.len() > 0 {
        let a = s[0].0;
        let m = if a < 0 {
            -a
        } else {
            a
        };
        assert(m % 1 == 0);
    }
}

/// The sum, over the terms of `s`, of each coefficient times the
/// coefficient of `t` that meets it at exponent `e`.
pub open spec fn convolution(s: Seq<(int, int)>, t: Seq<(int, int)>, e: int) -> int
    decreases s.len(),
{
    if s.len() == 0 {
        0
    } else {
        convolution(s.drop_last(), t, e) + s.last().0 * coef(t, e - s.last().1)
    }
}

proof fn lemma_products_coef(s: Seq<(int, int)>, t: Seq<(int, int)>, e: int)
    ensures
        coef(products(s, t), e) == convolution(s, t, e),
    decreases s.len(),
{
    if s.len() > 0 {
        lemma_products_coef(s.drop_last(), t, e);
        lemma_coef_concat(products(s.drop_last(), t), scaled(t, s.last().0, s.last().1), e);
        crate::poly::lemma_coef_scaled(t, s.last().0, s.last().1, e);
    }
}

proof fn lemma_coef_above(t: Seq<(int, int)>, e: int)
    requires
        canonical(t),
        t.len() > 0,
        e > t[0].1,
    ensures
        coef(t, e) == 0,
{
    assert forall|k: int| 0 <= k < t.len() implies (#[trigger] t[k]).1 != e by {
        if k > 0 {
            assert(t[0].1 > t[k].1);
        }
    }
    lemma_coef_absent(t, e);
}

/// Above `deg s + deg t` the product has no terms; at it, the product of
/// the leading coefficients.
proof fn lemma_convolution_top(s: Seq<(int, int)>, t: Seq<(int, int)>, e: int, top: int)
    requires
        canonical(s),
        canonical(t),
        s.len() > 0,
        t.len() > 0,
        top == s[0].1 + t[0].1,
        e >= top,
    ensures
        convolution(s, t, e) == if e == top {
            s[0].0 * t[0].0
        } else {
            0
        },
    decreases s.len(),
{
    let l = s.last();
    if s.len() == 1 {
        assert(s.drop_last().len() == 0);
        assert(convolution(s.drop_last(), t, e) == 0);
        assert(l == s[0]);
        if e == top {
            lemma_coef_at(t, 0);
        } else {
            lemma_coef_above(t, e - l.1);
            assert(l.0 * 0 == 0);
        }
    } else {
        assert(s[0].1 > s[s.len() - 1].1);
        lemma_coef_above(t, e - l.1);
        let d = s.drop_last();
        assert forall|i: int, j: int| 0 <= i < j < d.len() implies (#[trigger] d[i]).1 > (
        #[trigger] d[j]).1 by {
            assert(d[i] == s[i] && d[j] == s[j]);
        }
        assert forall|i: int| 0 <= i < d.len() implies (#[trigger] d[i]).0 != 0
            && crate::text::fits_i32(d[i].0) && crate::text::fits_i32(d[i].1) by {
            assert(d[i] == s[i]);
        }
        assert(d[0] == s[0]);
        lemma_convolution_top(d, t, e, top);
        assert(l.0 * 0 == 0);
    }
}

/// The degree of a product of two nonzero expressions is the sum of their
/// degrees, and its leading coefficient is the product of theirs.
pub proof fn law_product_degree(p: Polynomial, q: Polynomial, prod: Polynomial)
    requires
        p.wf(),
        q.wf(),
        p.model().len() > 0,
        q.model().len() > 0,
        prod.wf(),
        same_coefs(prod.model(), products(p.model(), q.model())),
    ensures
        degree(prod.model()) == degree(p.model()) + degree(q.model()),
        prod.model().len() > 0,
        prod.model()[0].0 == p.model()[0].0 * q.model()[0].0,
{
    let s = p.model();
    let t = q.model();
    let w = prod.model();
    let top = s[0].1 + t[0].1;
    lemma_coef_at(s, 0);
    lemma_coef_at(t, 0);
    assert(s[0].0 * t[0].0 != 0) by (nonlinear_arith)
        requires
            s[0].0 != 0,
            t[0].0 != 0,
    ;
    assert(coef(w, top) != 0) by {
        lemma_products_coef(s, t, top);
        lemma_convolution_top(s, t, top, top);
    }
    assert forall|j: int| j > top implies #[trigger] coef(w, j) == 0 by {
        lemma_products_coef(s, t, j);
        lemma_convolution_top(s, t, j, top);
    }
    if w.len() == 0 {
        lemma_coef_absent(w, top);
    } else {
        lemma_coef_at(w, 0);
        if forall|i: int| 0 <= i < w.len() ==> (#[trigger] w[i]).1 != top {
            lemma_coef_absent(w, top);
        }
        let i = choose|i: int| 0 <= i < w.len() && (#[trigger] w[i]).1 == top;
        if i > 0 {
            assert(w[0].1 > w[i].1);
        }
        lemma_products_coef(s, t, top);
        lemma_convolution_top(s, t, top, top);
    }
}

} // verus!
