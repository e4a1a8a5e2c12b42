//! Real roots of an expression, found exactly: a root is reported only when
//! it solves the equation exactly and is an `i32`.
use vstd::prelude::*;

use crate::model::{
    canonical, coef, degree, lemma_canonical_unique, lemma_coef_absent, lemma_coef_at,
};
use crate::mono::quot;
use crate::poly::{equation_type_of, EquationType, Polynomial};
use crate::text::fits_i32;

verus! {

/// Horner's evaluation at `x` of the coefficients from exponent `top` down
/// to exponent `e`; at `e == 0` it is the value of the expression at `x`.
pub open spec fn horner(s: Seq<(int, int)>, top: int, x: int, e: int) -> int
    decreases top - e,
{
    if e >= top {
        coef(s, top)
    } else {
        horner(s, top, x, e + 1) * x + coef(s, e)
    }
}

/// The divisors of `n` from `d` up, ascending.
pub open spec fn pos_divs(n: int, d: int) -> Seq<int>
    decreases n + 1 - d,
{
    if d > n || d < 1 {
        Seq::empty()
    } else if n % d == 0 {
        seq![d] + pos_divs(n, d + 1)
    } else {
        pos_divs(n, d + 1)
    }
}

/// Candidate rational roots for a constant term of magnitude `n`: its
/// divisors ascending, then their negations in the same order.
pub open spec fn candidates(n: int) -> Seq<int> {
    pos_divs(n, 1) + pos_divs(n, 1).map_values(|d: int| -d)
}

/// The first candidate from index `i` on at which the expression vanishes.
pub open spec fn first_hit(s: Seq<(int, int)>, cands: Seq<int>, i: int) -> Option<int>
    decreases cands.len() - i,
{
    if i >= cands.len() || i < 0 {
        None
    } else if horner(s, degree(s), cands[i], 0) == 0 {
        Some(cands[i])
    } else {
        first_hit(s, cands, i + 1)
    }
}

/// The rational root that the search finds first, if any.
pub open spec fn first_root(s: Seq<(int, int)>) -> Option<int> {
    first_hit(s, candidates(abs(coef(s, 0))), 0)
}

/// The coefficients left after dividing out the root `x`: Horner's partial
/// values, one exponent lower.
pub open spec fn deflated_coef(s: Seq<(int, int)>, x: int, j: int) -> int {
    if 0 <= j < degree(s) {
        horner(s, degree(s), x, j + 1)
    } else {
        0
    }
}

/// The deflated expression, in canonical form.
pub open spec fn deflated(s: Seq<(int, int)>, x: int) -> Seq<(int, int)> {
    choose|q: Seq<(int, int)>|
        canonical(q) && forall|j: int| #[trigger] coef(q, j) == deflated_coef(s, x, j)
}

/// Every coefficient of the deflated expression is an `i32`.
pub open spec fn deflation_fits(s: Seq<(int, int)>, x: int) -> bool {
    forall|e: int| 1 <= e <= degree(s) ==> fits_i32(#[trigger] horner(s, degree(s), x, e))
}

/// `x` placed before the first element of `r` that is not smaller.
pub open spec fn insert_sorted(x: int, r: Seq<int>) -> Seq<int>
    decreases r.len(),
{
    if r.len() == 0 {
        seq![x]
    } else if x <= r[0] {
        seq![x] + r
    } else {
        seq![r[0]] + insert_sorted(x, r.drop_first())
    }
}

/// How many more deflations the search may make.
pub open spec fn search_depth(s: Seq<(int, int)>) -> nat {
    (if degree(s) > 0 {
        degree(s)
    } else {
        0
    }) as nat + 1
}

/// The roots, by the strategy that the shape of the equation picks.
pub open spec fn roots_upto(s: Seq<(int, int)>, fuel: nat) -> Option<Seq<int>>
    decreases fuel,
{
    match equation_type_of(s) {
        EquationType::Invalid => None,
        EquationType::Linear => linear_roots(s[0].0, coef(s, 0)),
        EquationType::Quadratic => quadratic_roots(s[0].0, coef(s, 1), coef(s, 0)),
        EquationType::Biquadratic => biquadratic_roots(coef(s, 4), coef(s, 2), coef(s, 0)),
        EquationType::BigExp2Terms => two_term_roots(s[0].0, coef(s, 0), degree(s) as nat),
        EquationType::BigExp => if fuel == 0 {
            None
        } else {
            match first_root(s) {
                None => None,
                Some(x) => if !fits_i32(x) || !deflation_fits(s, x) {
                    None
                } else {
                    let rest = roots_upto(deflated(s, x), (fuel - 1) as nat);
                    Some(
                        insert_sorted(
                            x,
                            match rest {
                                Some(r) => r,
                                None => Seq::empty(),
                            },
                        ),
                    )
                },
            }
        },
    }
}

/// Ascending order.
pub open spec fn ascending(r: Seq<int>) -> bool {
    forall|i: int, j: int| 0 <= i < j < r.len() ==> r[i] <= r[j]
}

proof fn lemma_insert_bound(x: int, r: Seq<int>, m: int)
    requires
        x >= m,
        forall|k: int| 0 <= k < r.len() ==> r[k] >= m,
    ensures
        forall|k: int| 0 <= k < insert_sorted(x, r).len() ==> #[trigger] insert_sorted(x, r)[k] >= m,
        insert_sorted(x, r).len() == r.len() + 1,
    decreases r.len(),
{
    if r.len() > 0 && x > r[0] {
        let d = r.drop_first();
        lemma_insert_bound(x, d, m);
        let t = insert_sorted(x, d);
        assert forall|k: int| 0 <= k < insert_sorted(x, r).len() implies #[trigger] insert_sorted(x, r)[k] >= m by {
            if k > 0 {
                assert(insert_sorted(x, r)[k] == t[k - 1]);
            }
        }
    }
}

proof fn lemma_insert_ascending(x: int, r: Seq<int>)
    requires
        ascending(r),
    ensures
        ascending(insert_sorted(x, r)),
    decreases r.len(),
{
    if r.len() > 0 && x > r[0] {
        let d = r.drop_first();
        assert(ascending(d)) by {
            assert forall|i: int, j: int| 0 <= i < j < d.len() implies d[i] <= d[j] by {
                assert(d[i] == r[i + 1] && d[j] == r[j + 1]);
            }
        }
        lemma_insert_ascending(x, d);
        assert forall|k: int| 0 <= k < d.len() implies d[k] >= r[0] by {
            assert(d[k] == r[k + 1]);
        }
        lemma_insert_bound(x, d, r[0]);
        let t = insert_sorted(x, d);
        let u = insert_sorted(x, r);
        assert(u =~= seq![r[0]] + t);
        assert forall|i: int, j: int| 0 <= i < j < u.len() implies u[i] <= u[j] by {
            if i == 0 {
                assert(u[j] == t[j - 1]);
            } else {
                assert(u[i] == t[i - 1] && u[j] == t[j - 1]);
            }
        }
    }
}

proof fn lemma_exact_root_nonneg(x: int, n: nat)
    ensures
        exact_root(x, n) matches Some(r) ==> r >= 0,
{
}

/// Every strategy reports its roots in ascending order.
proof fn lemma_roots_ascending(s: Seq<(int, int)>, fuel: nat)
    ensures
        roots_upto(s, fuel) matches Some(v) ==> ascending(v),
    decreases fuel,
{
    match equation_type_of(s) {
        EquationType::BigExp => {
            if fuel > 0 {
                if let Some(x) = first_root(s) {
                    lemma_roots_ascending(deflated(s, x), (fuel - 1) as nat);
                    let rest = roots_upto(deflated(s, x), (fuel - 1) as nat);
                    let tail = match rest {
                        Some(r) => r,
                        None => Seq::<int>::empty(),
                    };
                    lemma_insert_ascending(x, tail);
                }
            }
        },
        EquationType::Biquadratic => {
            let (a, b, c) = (coef(s, 4), coef(s, 2), coef(s, 0));
            if let Some(q) = quadratic_roots(a, b, c) {
                if q.len() == 1 {
                    lemma_exact_root_nonneg(q[0], 2);
                } else {
                    lemma_exact_root_nonneg(abs(q[0]), 2);
                    lemma_exact_root_nonneg(abs(q[1]), 2);
                }
            }
        },
        EquationType::Quadratic => {
            let (a, b, c) = (s[0].0, coef(s, 1), coef(s, 0));
            if b == 0 && c != 0 {
                if let Some(l) = linear_roots(a, c) {
                    lemma_exact_root_nonneg(l[0], 2);
                }
            }
        },
        EquationType::BigExp2Terms => {
            lemma_exact_root_nonneg(abs(quot(-coef(s, 0), s[0].0)), degree(s) as nat);
        },
        _ => {},
    }
}

/// The roots that the search reports for a canonical expression.
pub open spec fn roots_of(s: Seq<(int, int)>) -> Option<Seq<int>> {
    roots_upto(s, search_depth(s))
}

/// `b` to the power `n`.
pub open spec fn power(b: int, n: nat) -> int
    decreases n,
{
    if n == 0 {
        1
    } else {
        b * power(b, (n - 1) as nat)
    }
}

pub open spec fn abs(v: int) -> int {
    if v < 0 {
        -v
    } else {
        v
    }
}

/// The natural `n`-th root of `x`, when `x` is the `n`-th power of a natural number.
pub open spec fn exact_root(x: int, n: nat) -> Option<int> {
    if exists|r: int| r >= 0 && #[trigger] power(r, n) == x {
        Some(choose|r: int| r >= 0 && #[trigger] power(r, n) == x)
    } else {
        None
    }
}

/// `d` divides `v` exactly.
pub open spec fn divides(d: int, v: int) -> bool {
    abs(v) % abs(d) == 0
}

/// A value as a root: kept when it is an `i32`.
pub open spec fn as_root(v: int) -> Option<int> {
    if fits_i32(v) {
        Some(v)
    } else {
        None
    }
}

/// `a x + c = 0`: the root `-c / a`, when `a` divides `c` exactly.
pub open spec fn linear_roots(a: int, c: int) -> Option<Seq<int>> {
    if !divides(a, -c) {
        None
    } else {
        match as_root(quot(-c, a)) {
            Some(v) => Some(seq![v]),
            None => None,
        }
    }
}

/// `a x^2 + b x + c = 0`, with exact square roots only.
pub open spec fn quadratic_roots(a: int, b: int, c: int) -> Option<Seq<int>> {
    if b == 0 && c == 0 {
        Some(seq![0])
    } else if b == 0 {
        // x^2 = -c / a, as the linear strategy reads it.
        match linear_roots(a, c) {
            None => None,
            Some(l) => match if l[0] >= 0 {
                exact_root(l[0], 2)
            } else {
                None
            } {
                None => None,
                Some(r) => if r == 0 {
                    Some(seq![0])
                } else {
                    Some(seq![-r, r])
                },
            },
        }
    } else {
        let disc = b * b - 4 * a * c;
        match if disc >= 0 {
            exact_root(disc, 2)
        } else {
            None
        } {
            None => None,
            Some(s) => if !divides(2 * a, -b + s) || !divides(2 * a, -b - s) {
                None
            } else {
                let r1 = quot(-b + s, 2 * a);
                let r2 = quot(-b - s, 2 * a);
                if !fits_i32(r1) || !fits_i32(r2) {
                    None
                } else if r1 == r2 {
                    Some(seq![r1])
                } else if r1 < r2 {
                    Some(seq![r1, r2])
                } else {
                    Some(seq![r2, r1])
                }
            },
        }
    }
}

/// `a x^4 + b x^2 + c = 0`, solved as a quadratic in `x^2`.
pub open spec fn biquadratic_roots(a: int, b: int, c: int) -> Option<Seq<int>> {
    match quadratic_roots(a, b, c) {
        None => None,
        Some(q) => if q.len() == 1 {
            match if q[0] >= 0 {
                exact_root(q[0], 2)
            } else {
                None
            } {
                None => None,
                Some(r) => Some(seq![-r, r]),
            }
        } else if abs(q[0]) == abs(q[1]) {
            match exact_root(abs(q[0]), 2) {
                None => None,
                Some(r) => Some(seq![-r, r]),
            }
        } else {
            match (exact_root(abs(q[0]), 2), exact_root(abs(q[1]), 2)) {
                (Some(s1), Some(s2)) => {
                    let lo = if s1 < s2 {
                        s1
                    } else {
                        s2
                    };
                    let hi = if s1 < s2 {
                        s2
                    } else {
                        s1
                    };
                    Some(seq![-hi, -lo, lo, hi])
                },
                _ => None,
            }
        },
    }
}

/// `a x^n + c = 0` with `n > 2`: `x^n = -c / a`, real integer roots only;
/// none when `a` does not divide `c` exactly.
pub open spec fn two_term_roots(a: int, c: int, n: nat) -> Option<Seq<int>> {
    let v = quot(-c, a);
    if !divides(a, -c) {
        None
    } else if n % 2 == 0 && v < 0 {
        None
    } else {
        match exact_root(abs(v), n) {
            None => None,
            Some(r) => if !fits_i32(r) || !fits_i32(-r) {
                None
            } else if n % 2 == 1 {
                Some(seq![if v < 0 {
                    -r
                } else {
                    r
                }])
            } else {
                Some(seq![-r, r])
            },
        }
    }
}

proof fn lemma_power_nonneg(b: int, n: nat)
    requires
        b >= 0,
    ensures
        power(b, n) >= 0,
    decreases n,
{
    if n > 0 {
        lemma_power_nonneg(b, (n - 1) as nat);
        assert(b * power(b, (n - 1) as nat) >= 0) by (nonlinear_arith)
            requires
                b >= 0,
                power(b, (n - 1) as nat) >= 0,
        ;
    }
}

/// Powers of a natural number grow with the base.
proof fn lemma_power_base_mono(a: int, b: int, n: nat)
    requires
        0 <= a < b,
        n >= 1,
    ensures
        power(a, n) < power(b, n),
    decreases n,
{
    if n > 1 {
        lemma_power_base_mono(a, b, (n - 1) as nat);
        lemma_power_nonneg(a, (n - 1) as nat);
        let pa = power(a, (n - 1) as nat);
        let pb = power(b, (n - 1) as nat);
        assert(a * pa < b * pb) by (nonlinear_arith)
            requires
                0 <= a < b,
                0 <= pa < pb,
        ;
    } else {
        assert(power(a, 0) == 1 && power(b, 0) == 1);
    }
}

/// Powers of a positive number do not shrink as the exponent grows.
proof fn lemma_power_exp_mono(b: int, k: nat, n: nat)
    requires
        b >= 1,
        k <= n,
    ensures
        power(b, k) <= power(b, n),
    decreases n,
{
    if k < n {
        lemma_power_exp_mono(b, k, (n - 1) as nat);
        lemma_power_nonneg(b, (n - 1) as nat);
        let p = power(b, (n - 1) as nat);
        assert(p <= b * p) by (nonlinear_arith)
            requires
                b >= 1,
                p >= 0,
        ;
    }
}

/// The truncated root pins the exact root down.
proof fn lemma_exact_root_from_floor(x: int, n: nat, r: int)
    requires
        n >= 1,
        r >= 0,
        power(r, n) <= x < power(r + 1, n),
    ensures
        exact_root(x, n) == (if power(r, n) == x {
            Some(r)
        } else {
            None::<int>
        }),
{
    assert forall|q: int| q >= 0 && #[trigger] power(q, n) == x implies q == r by {
        if q < r {
            lemma_power_base_mono(q, r, n);
        } else if q > r {
            if q > r + 1 {
                lemma_power_base_mono(r + 1, q, n);
            }
        }
    }
    if power(r, n) == x {
        assert(exists|q: int| q >= 0 && #[trigger] power(q, n) == x);
    }
}

/// Relies on num-integer's `Roots::nth_root` for `u128`: the truncated
/// principal `n`-th root, `r^n <= x < (r+1)^n`; it panics only for `n == 0`.
#[verifier::external_body]
fn floor_root(x: u128, n: u32) -> (r: u128)
    requires
        n >= 1,
    ensures
        power(r as int, n as nat) <= x < power(r + 1, n as nat),
{
    num::integer::Roots::nth_root(&x, n)
}

/// The natural `n`-th root of `x`, when there is one.
fn exact_root_of(x: u128, n: u32) -> (r: Option<u128>)
    requires
        n >= 1,
    ensures
        r matches Some(v) ==> exact_root(x as int, n as nat) == Some(v as int),
        r is None ==> exact_root(x as int, n as nat) is None,
{
    let f = floor_root(x, n);
    proof {
        lemma_exact_root_from_floor(x as int, n as nat, f as int);
    }
    if f <= 1 {
        proof {
            lemma_power_one_zero(f as int, n as nat);
        }
        return if f == x {
            Some(f)
        } else {
            None
        };
    }
    let mut p: u128 = 1;
    let mut k: u32 = 0;
    while k < n
        invariant
            n >= 1,
            f >= 2,
            k <= n,
            power(f as int, n as nat) <= x,
            p == power(f as int, k as nat),
        decreases n - k,
    {
        proof {
            lemma_power_exp_mono(f as int, (k + 1) as nat, n as nat);
            assert(power(f as int, (k + 1) as nat) == f * power(f as int, k as nat));
        }
        p = p * f;
        k = k + 1;
    }
    if p == x {
        Some(f)
    } else {
        None
    }
}

proof fn lemma_power_two(b: int)
    ensures
        power(b, 2) == b * b,
{
    assert(power(b, 0) == 1);
    assert(power(b, 1) == b);
}

proof fn lemma_power_one_zero(b: int, n: nat)
    requires
        b == 0 || b == 1,
        n >= 1,
    ensures
        power(b, n) == b,
    decreases n,
{
    assert(power(b, 0) == 1);
    if n > 1 {
        lemma_power_one_zero(b, (n - 1) as nat);
        assert(b * b == b) by (nonlinear_arith)
            requires
                b == 0 || b == 1,
        ;
    }
}

fn linear_root(a: i32, c: i32) -> (r: Option<Vec<i32>>)
    requires
        a != 0,
    ensures
        roots_view(r) == linear_roots(a as int, c as int),
{
    let v = match exact_quot(-(c as i128), a as i128) {
        Some(v) => v,
        None => {
            return None;
        },
    };
    if v < i32::MIN as i128 || v > i32::MAX as i128 {
        return None;
    }
    let out = vec![v as i32];
    assert(roots_view(Some(out)) == Some(seq![v as int])) by {
        assert(out@.map_values(|x: i32| x as int) =~= seq![v as int]);
    }
    Some(out)
}

fn biquadratic_root(a: i32, b: i32, c: i32) -> (r: Option<Vec<i32>>)
    requires
        a != 0,
    ensures
        roots_view(r) == biquadratic_roots(a as int, b as int, c as int),
{
    let q = match quadratic_root(a, b, c) {
        Some(q) => q,
        None => {
            return None;
        },
    };
    let ghost qv = q@.map_values(|x: i32| x as int);
    assert(qv.len() == 1 || qv.len() == 2);
    if q.len() == 1 {
        let u = q[0];
        assert(qv[0] == u);
        if u < 0 {
            return None;
        }
        let r = match exact_root_of(u as u128, 2) {
            Some(r) => r,
            None => {
                return None;
            },
        };
        proof {
            lemma_power_two(r as int);
            assert(r <= 0x1_0000) by (nonlinear_arith)
                requires
                    r * r <= 0x8000_0000,
                    r >= 0,
            ;
        }
        let ri = r as i32;
        let lo = -ri;
        let out = vec![lo, ri];
        assert(out@.map_values(|x: i32| x as int) =~= seq![-(ri as int), ri as int]);
        return Some(out);
    }
    let r1 = q[0];
    let r2 = q[1];
    assert(qv[0] == r1 && qv[1] == r2);
    let m1: u128 = if r1 < 0 {
        (-(r1 as i64)) as u128
    } else {
        r1 as u128
    };
    let m2: u128 = if r2 < 0 {
        (-(r2 as i64)) as u128
    } else {
        r2 as u128
    };
    let s1 = match exact_root_of(m1, 2) {
        Some(s) => s,
        None => {
            return None;
        },
    };
    proof {
        lemma_power_two(s1 as int);
        assert(s1 <= 0x1_0000) by (nonlinear_arith)
            requires
                s1 * s1 <= 0x8000_0000,
                s1 >= 0,
        ;
    }
    if m1 == m2 {
        let si = s1 as i32;
        let lo = -si;
        let out = vec![lo, si];
        assert(out@.map_values(|x: i32| x as int) =~= seq![-(si as int), si as int]);
        return Some(out);
    }
    let s2 = match exact_root_of(m2, 2) {
        Some(s) => s,
        None => {
            return None;
        },
    };
    proof {
        lemma_power_two(s2 as int);
        assert(s2 <= 0x1_0000) by (nonlinear_arith)
            requires
                s2 * s2 <= 0x8000_0000,
                s2 >= 0,
        ;
    }
    let (lo, hi) = if s1 < s2 {
        (s1 as i32, s2 as i32)
    } else {
        (s2 as i32, s1 as i32)
    };
    let nhi = -hi;
    let nlo = -lo;
    let out = vec![nhi, nlo, lo, hi];
    assert(out@.map_values(|x: i32| x as int) =~= seq![-(hi as int), -(lo as int), lo as int, hi as int]);
    Some(out)
}

fn two_term_root(a: i32, c: i32, n: i32) -> (r: Option<Vec<i32>>)
    requires
        a != 0,
        n > 2,
    ensures
        roots_view(r) == two_term_roots(a as int, c as int, n as nat),
{
    let v: i64 = match exact_quot(-(c as i128), a as i128) {
        Some(q) => {
            proof {
                assert(abs(q as int) <= abs(-(c as int))) by (nonlinear_arith)
                    requires
                        q == quot(-(c as int), a as int),
                        a != 0,
                ;
            }
            q as i64
        },
        None => {
            return None;
        },
    };
    if n % 2 == 0 && v < 0 {
        return None;
    }
    let m: u128 = if v < 0 {
        (-v) as u128
    } else {
        v as u128
    };
    let r = match exact_root_of(m, n as u32) {
        Some(r) => r,
        None => {
            return None;
        },
    };
    if r > i32::MAX as u128 {
        return None;
    }
    let ri = r as i32;
    if n % 2 == 1 {
        let root = if v < 0 {
            -ri
        } else {
            ri
        };
        let out = vec![root];
        assert(out@.map_values(|x: i32| x as int) =~= seq![root as int]);
        return Some(out);
    }
    let lo = -ri;
    let out = vec![lo, ri];
    assert(out@.map_values(|x: i32| x as int) =~= seq![-(ri as int), ri as int]);
    Some(out)
}

proof fn lemma_coef_fits(s: Seq<(int, int)>, e: int)
    requires
        canonical(s),
    ensures
        fits_i32(coef(s, e)),
{
    if exists|i: int| 0 <= i < s.len() && (#[trigger] s[i]).1 == e {
        let i = choose|i: int| 0 <= i < s.len() && (#[trigger] s[i]).1 == e;
        lemma_coef_at(s, i);
    } else {
        lemma_coef_absent(s, e);
    }
}

/// Once Horner's value passes `2^31` in size at a point `|x| >= 2`, it only grows.
proof fn lemma_diverge(s: Seq<(int, int)>, top: int, x: int, e: int, e2: int)
    requires
        canonical(s),
        abs(x) >= 2,
        0 <= e2 <= e <= top,
        abs(horner(s, top, x, e)) > 0x8000_0000,
    ensures
        abs(horner(s, top, x, e2)) > 0x8000_0000,
    decreases e - e2,
{
    if e2 < e {
        let h = horner(s, top, x, e);
        let a = coef(s, e - 1);
        lemma_coef_fits(s, e - 1);
        assert(abs(h * x + a) > abs(h)) by (nonlinear_arith)
            requires
                abs(h) > 0x8000_0000,
                abs(x) >= 2,
                -0x8000_0000 <= a <= 0x7fff_ffff,
        ;
        lemma_diverge(s, top, x, e - 1, e2);
    }
}

proof fn lemma_pos_divs_range(n: int, d: int, k: int)
    requires
        0 <= k < pos_divs(n, d).len(),
    ensures
        d <= pos_divs(n, d)[k] <= n,
        pos_divs(n, d)[k] >= 1,
    decreases n + 1 - d,
{
    if d > n || d < 1 {
    } else if n % d == 0 {
        if k > 0 {
            lemma_pos_divs_range(n, d + 1, k - 1);
        }
    } else {
        lemma_pos_divs_range(n, d + 1, k);
    }
}

/// The divisors of `value`, ascending, then their negations in the same order.
pub fn find_divs(value: u64) -> (r: Vec<i64>)
    requires
        value <= i64::MAX,
    ensures
        r@.map_values(|d: i64| d as int) == candidates(value as int),
{
    let mut divs: Vec<i64> = Vec::new();
    let mut v: u64 = 1;
    while v <= value
        invariant
            1 <= v <= value + 1,
            value <= i64::MAX,
            divs@.map_values(|d: i64| d as int) + pos_divs(value as int, v as int) == pos_divs(
                value as int,
                1,
            ),
        decreases value + 1 - v,
    {
        let ghost before = divs@;
        if value % v == 0 {
            divs.push(v as i64);
            assert(divs@.map_values(|d: i64| d as int) =~= before.map_values(|d: i64| d as int)
                + seq![v as int]);
            assert(divs@.map_values(|d: i64| d as int) + pos_divs(value as int, v + 1) =~= before.map_values(
                |d: i64| d as int,
            ) + pos_divs(value as int, v as int));
        }
        v = v + 1;
    }
    assert(pos_divs(value as int, v as int) =~= Seq::<int>::empty());
    assert(divs@.map_values(|d: i64| d as int) =~= pos_divs(value as int, 1));
    let ghost pos = divs@.map_values(|d: i64| d as int);
    let n = divs.len();
    assert forall|k: int| 0 <= k < n implies 1 <= #[trigger] divs@[k] <= value by {
        assert(pos[k] == divs@[k]);
        lemma_pos_divs_range(value as int, 1, k);
    }
    assert(divs@.take(n as int) =~= divs@);
    assert(divs@.skip(n as int).map_values(|d: i64| d as int) =~= pos.take(0).map_values(|d: int| -d));
    let mut i: usize = 0;
    while i < n
        invariant
            n <= divs@.len(),
            i <= n,
            divs@.len() == n + i,
            pos == divs@.take(n as int).map_values(|d: i64| d as int),
            pos == pos_divs(value as int, 1),
            forall|k: int| 0 <= k < n ==> 1 <= #[trigger] divs@[k] <= value,
            divs@.skip(n as int).map_values(|d: i64| d as int) == pos.take(i as int).map_values(
                |d: int| -d,
            ),
        decreases n - i,
    {
        let d = divs[i];
        assert(pos[i as int] == d);
        let ghost before = divs@;
        divs.push(-d);
        assert(divs@.take(n as int) =~= before.take(n as int));
        assert(divs@.skip(n as int) =~= before.skip(n as int).push((-d) as i64));
        assert(pos.take(i + 1) =~= pos.take(i as int).push(d as int));
        assert(divs@.skip(n as int).map_values(|d: i64| d as int) =~= before.skip(n as int).map_values(
            |d: i64| d as int,
        ).push(-d));
        assert(pos.take(i + 1).map_values(|d: int| -d) =~= pos.take(i as int).map_values(|d: int| -d).push(-d));
        assert(divs@.skip(n as int).map_values(|d: i64| d as int) =~= pos.take(i + 1).map_values(
            |d: int| -d,
        ));
        i = i + 1;
    }
    assert(divs@.take(n as int) =~= divs@.take(n as int));
    assert(pos.take(n as int) =~= pos);
    assert(divs@ =~= divs@.take(n as int) + divs@.skip(n as int));
    assert(divs@.map_values(|d: i64| d as int) =~= candidates(value as int));
    divs
}

/// Horner's scheme at `x`: when `x` is a root, the partial values from the
/// top exponent down to exponent one, which are the deflated coefficients.
fn deflate_at(p: &Polynomial, top: i32, x: i64) -> (r: Option<Vec<i64>>)
    requires
        p.wf(),
        top == degree(p.model()),
        top >= 1,
        1 <= abs(x as int) <= 0x8000_0000,
    ensures
        r is Some <==> horner(p.model(), top as int, x as int, 0) == 0,
        r matches Some(v) ==> v@.len() == top && forall|k: int|
            0 <= k < top ==> #[trigger] v@[k] == horner(p.model(), top as int, x as int, top - k),
{
    let ghost s = p.model();
    let mut e: i32 = top;
    let mut h: i64 = p.find_by_exp(top).get_value() as i64;
    proof {
        lemma_coef_fits(s, top as int);
    }
    let mut vals: Vec<i64> = Vec::new();
    while e > 0
        invariant
            s == p.model(),
            canonical(s),
            top == degree(s),
            1 <= abs(x as int) <= 0x8000_0000,
            0 <= e <= top,
            h == horner(s, top as int, x as int, e as int),
            vals@.len() == top - e,
            forall|k: int| 0 <= k < top - e ==> #[trigger] vals@[k] == horner(s, top as int, x as int, top - k),
            abs(x as int) == 1 ==> abs(h as int) <= (top - e + 1) * 0x8000_0000,
            abs(x as int) >= 2 ==> abs(h as int) <= 0x8000_0000,
        decreases e,
    {
        vals.push(h);
        let a = p.find_by_exp(e - 1).get_value() as i64;
        proof {
            lemma_coef_fits(s, e - 1);
            assert(a == coef(s, e - 1));
            if abs(x as int) == 1 {
                assert(abs(h as int) <= 0x8000_0000 * 0x8000_0000) by (nonlinear_arith)
                    requires
                        abs(h as int) <= (top - e + 1) * 0x8000_0000,
                        top - e + 1 <= 0x8000_0000,
                ;
                assert(abs(h * x) <= abs(h as int)) by (nonlinear_arith)
                    requires
                        abs(x as int) == 1,
                ;
            } else {
                assert(abs(h * x) <= 0x8000_0000 * 0x8000_0000) by (nonlinear_arith)
                    requires
                        abs(h as int) <= 0x8000_0000,
                        abs(x as int) <= 0x8000_0000,
                ;
            }
        }
        let nh = h * x + a;
        proof {
            assert(nh == horner(s, top as int, x as int, e - 1));
        }
        if (x >= 2 || x <= -2) && (nh > 0x8000_0000 || nh < -0x8000_0000) {
            proof {
                lemma_diverge(s, top as int, x as int, e - 1, 0);
            }
            return None;
        }
        proof {
            if abs(x as int) == 1 {
                assert(abs(nh as int) <= (top - e + 2) * 0x8000_0000) by (nonlinear_arith)
                    requires
                        nh == h * x + a,
                        abs(x as int) == 1,
                        abs(h as int) <= (top - e + 1) * 0x8000_0000,
                        -0x8000_0000 <= a <= 0x7fff_ffff,
                ;
            }
        }
        h = nh;
        e = e - 1;
    }
    if h == 0 {
        Some(vals)
    } else {
        None
    }
}

/// The first candidate root, with the deflated coefficients it leaves.
fn find_root(p: &Polynomial) -> (r: Option<(i64, Vec<i64>)>)
    requires
        p.wf(),
        degree(p.model()) >= 1,
    ensures
        match first_root(p.model()) {
            None => r is None,
            Some(x) => r matches Some((rx, v)) && rx == x && v@.len() == degree(p.model())
                && forall|k: int|
                0 <= k < degree(p.model()) ==> #[trigger] v@[k] == horner(
                    p.model(),
                    degree(p.model()),
                    x,
                    degree(p.model()) - k,
                ),
        },
{
    let ghost s = p.model();
    let top = p.max_exp().get_exp();
    let c0 = p.find_by_exp(0).get_value();
    let base: u64 = if c0 < 0 {
        (-(c0 as i64)) as u64
    } else {
        c0 as u64
    };
    let divs = find_divs(base);
    let ghost cands = candidates(base as int);
    assert(cands == candidates(abs(coef(s, 0))));
    let mut i: usize = 0;
    while i < divs.len()
        invariant
            s == p.model(),
            canonical(s),
            top == degree(s),
            top >= 1,
            base <= 0x8000_0000,
            cands == candidates(base as int),
            cands == candidates(abs(coef(s, 0))),
            divs@.map_values(|d: i64| d as int) == cands,
            i <= divs@.len(),
            first_hit(s, cands, 0) == first_hit(s, cands, i as int),
        decreases divs@.len() - i,
    {
        let x = divs[i];
        assert(cands[i as int] == x);
        proof {
            let m = pos_divs(base as int, 1).len();
            if i < m {
                lemma_pos_divs_range(base as int, 1, i as int);
            } else {
                lemma_pos_divs_range(base as int, 1, i - m);
            }
        }
        match deflate_at(p, top, x) {
            Some(v) => {
                assert(first_hit(s, cands, i as int) == Some(x as int));
                return Some((x, v));
            },
            None => {
                assert(first_hit(s, cands, i as int) == first_hit(s, cands, i + 1));
            },
        }
        i = i + 1;
    }
    assert(first_hit(s, cands, i as int) is None);
    None
}

/// `x` placed into `v` before the first element that is not smaller.
fn insert_root(x: i32, v: Vec<i32>) -> (r: Vec<i32>)
    ensures
        r@.map_values(|y: i32| y as int) == insert_sorted(x as int, v@.map_values(|y: i32| y as int)),
{
    let mut k: usize = 0;
    while k < v.len() && v[k] < x
        invariant
            k <= v@.len(),
            forall|j: int| 0 <= j < k ==> #[trigger] v@[j] < x,
        decreases v@.len() - k,
    {
        k = k + 1;
    }
    let mut out = v;
    let ghost w = out@.map_values(|y: i32| y as int);
    proof {
        lemma_insert_sorted_at(x as int, w, k as int);
    }
    out.insert(k, x);
    assert(out@.map_values(|y: i32| y as int) =~= w.take(k as int) + seq![x as int] + w.skip(k as int));
    out
}

proof fn lemma_insert_sorted_at(x: int, r: Seq<int>, k: int)
    requires
        0 <= k <= r.len(),
        forall|j: int| 0 <= j < k ==> #[trigger] r[j] < x,
        k < r.len() ==> x <= r[k],
    ensures
        insert_sorted(x, r) == r.take(k) + seq![x] + r.skip(k),
    decreases r.len(),
{
    if r.len() == 0 {
        assert(r.take(k) + seq![x] + r.skip(k) =~= seq![x]);
    } else if k == 0 {
        assert(r.take(k) + seq![x] + r.skip(k) =~= seq![x] + r);
    } else {
        let d = r.drop_first();
        assert forall|j: int| 0 <= j < k - 1 implies #[trigger] d[j] < x by {
            assert(d[j] == r[j + 1]);
        }
        lemma_insert_sorted_at(x, d, k - 1);
        assert(seq![r[0]] + (d.take(k - 1) + seq![x] + d.skip(k - 1)) =~= r.take(k) + seq![x]
            + r.skip(k));
    }
}

/// A canonical expression with a nonzero coefficient at `d` and none above
/// has degree `d`.
proof fn lemma_degree_is(q: Seq<(int, int)>, d: int)
    requires
        canonical(q),
        coef(q, d) != 0,
        forall|j: int| j > d ==> #[trigger] coef(q, j) == 0,
    ensures
        degree(q) == d,
{
    if q.len() == 0 {
        lemma_coef_absent(q, d);
    } else {
        lemma_coef_at(q, 0);
        if forall|i: int| 0 <= i < q.len() ==> (#[trigger] q[i]).1 != d {
            lemma_coef_absent(q, d);
        }
        let i = choose|i: int| 0 <= i < q.len() && (#[trigger] q[i]).1 == d;
        if i > 0 {
            assert(q[0].1 > q[i].1);
        }
    }
}

impl Polynomial {
    /// The real roots of `self = 0` that the strategy for its shape finds
    /// exactly, ascending; `None` when there are none to report.
    pub fn roots(&self) -> (r: Option<Vec<i32>>)
        requires
            self.wf(),
        ensures
            roots_view(r) == roots_of(self.model()),
            r matches Some(v) ==> ascending(v@.map_values(|x: i32| x as int)),
        decreases search_depth(self.model()),
    {
        let ghost s = self.model();
        proof {
            lemma_roots_ascending(s, search_depth(s));
        }
        let lead = self.max_exp();
        match self.equation_type() {
            EquationType::Invalid => None,
            EquationType::Linear => {
                linear_root(lead.get_value(), self.find_by_exp(0).get_value())
            },
            EquationType::Quadratic => {
                quadratic_root(
                    lead.get_value(),
                    self.find_by_exp(1).get_value(),
                    self.find_by_exp(0).get_value(),
                )
            },
            EquationType::Biquadratic => {
                proof {
                    lemma_coef_at(s, 0);
                }
                biquadratic_root(
                    self.find_by_exp(4).get_value(),
                    self.find_by_exp(2).get_value(),
                    self.find_by_exp(0).get_value(),
                )
            },
            EquationType::BigExp2Terms => {
                two_term_root(lead.get_value(), self.find_by_exp(0).get_value(), lead.get_exp())
            },
            EquationType::BigExp => self.big_exp_root(),
        }
    }

    /// The rational-root search: the first candidate root, then the roots
    /// of what is left after dividing it out.
    fn big_exp_root(&self) -> (r: Option<Vec<i32>>)
        requires
            self.wf(),
            equation_type_of(self.model()) == EquationType::BigExp,
        ensures
            roots_view(r) == roots_of(self.model()),
        decreases search_depth(self.model()), 0nat,
    {
        let ghost s = self.model();
        let top = self.max_exp().get_exp();
        if top < 1 {
            proof {
                assert forall|i: int| 0 <= i < s.len() implies (#[trigger] s[i]).1 != 0 by {
                    if i > 0 {
                        assert(s[0].1 > s[i].1);
                    }
                }
                lemma_coef_absent(s, 0);
                assert(pos_divs(0, 1) =~= Seq::<int>::empty());
                assert(candidates(0) =~= Seq::<int>::empty());
            }
            return None;
        }
        let (x, vals) = match find_root(self) {
            Some(found) => found,
            None => {
                return None;
            },
        };
        if x < i32::MIN as i64 || x > i32::MAX as i64 {
            return None;
        }
        let mut coefs: Vec<i32> = Vec::new();
        let mut k: usize = 0;
        while k < vals.len()
            invariant
                k <= vals@.len(),
                s == self.model(),
                canonical(s),
                equation_type_of(s) == EquationType::BigExp,
                first_root(s) == Some(x as int),
                fits_i32(x as int),
                top == degree(s),
                top >= 1,
                vals@.len() == top,
                coefs@.len() == k,
                forall|j: int| 0 <= j < k ==> (#[trigger] coefs@[j]) as int == vals@[j],
                forall|j: int| 0 <= j < k ==> fits_i32(#[trigger] horner(s, top as int, x as int, top - j)),
                forall|j: int| 0 <= j < top ==> #[trigger] vals@[j] == horner(s, top as int, x as int, top - j),
            decreases vals@.len() - k,
        {
            let v = vals[k];
            if v < i32::MIN as i64 || v > i32::MAX as i64 {
                proof {
                    assert(!fits_i32(horner(s, top as int, x as int, top - k)));
                    assert(!deflation_fits(s, x as int));
                }
                return None;
            }
            coefs.push(v as i32);
            k = k + 1;
        }
        assert(deflation_fits(s, x as int)) by {
            assert forall|e: int| 1 <= e <= degree(s) implies fits_i32(#[trigger] horner(s, degree(s), x as int, e)) by {
                assert(fits_i32(horner(s, top as int, x as int, top - (top - e))));
            }
        }
        let q = Polynomial::from_coefficients(&coefs);
        proof {
            assert forall|j: int| #[trigger] coef(q.model(), j) == deflated_coef(s, x as int, j) by {
                if 0 <= j < top {
                    assert(coefs@[top - 1 - j] as int == horner(s, top as int, x as int, j + 1));
                }
            }
            let w = q.model();
            assert(canonical(w) && forall|j: int| #[trigger] coef(w, j) == deflated_coef(s, x as int, j));
            let c = deflated(s, x as int);
            assert(canonical(c) && forall|j: int| #[trigger] coef(c, j) == deflated_coef(s, x as int, j));
            assert forall|j: int| #[trigger] coef(c, j) == coef(w, j) by {}
            lemma_canonical_unique(c, w);
            lemma_coef_at(s, 0);
            assert(horner(s, top as int, x as int, top as int) == coef(s, top as int));
            assert forall|j: int| j > top - 1 implies #[trigger] coef(w, j) == 0 by {}
            lemma_degree_is(w, top - 1);
        }
        let rest = q.roots();
        let tail = match rest {
            Some(v) => v,
            None => Vec::new(),
        };
        assert(tail@.map_values(|y: i32| y as int) == match roots_of(q.model()) {
            Some(r) => r,
            None => Seq::<int>::empty(),
        }) by {
            if rest is None {
                assert(tail@.map_values(|y: i32| y as int) =~= Seq::<int>::empty());
            }
        }
        Some(insert_root(x as i32, tail))
    }
}

/// What a list of roots holds, as integers.
pub open spec fn roots_view(r: Option<Vec<i32>>) -> Option<Seq<int>> {
    match r {
        Some(v) => Some(v@.map_values(|x: i32| x as int)),
        None => None,
    }
}

/// `|n| % |d| == 0` and the truncated quotient, for machine-sized values.
fn exact_quot(n: i128, d: i128) -> (r: Option<i128>)
    requires
        d != 0,
        -0x1_0000_0000_0000_0000 <= n <= 0x1_0000_0000_0000_0000,
        -0x1_0000_0000_0000_0000 <= d <= 0x1_0000_0000_0000_0000,
    ensures
        r matches Some(q) ==> divides(d as int, n as int) && q == quot(n as int, d as int),
        r is None ==> !divides(d as int, n as int),
{
    let un: u128 = if n < 0 {
        (-n) as u128
    } else {
        n as u128
    };
    let ud: u128 = if d < 0 {
        (-d) as u128
    } else {
        d as u128
    };
    if un % ud != 0 {
        return None;
    }
    let q = (un / ud) as i128;
    if (n < 0) != (d < 0) {
        Some(-q)
    } else {
        Some(q)
    }
}

fn quadratic_root(a: i32, b: i32, c: i32) -> (r: Option<Vec<i32>>)
    requires
        a != 0,
    ensures
        roots_view(r) == quadratic_roots(a as int, b as int, c as int),
{
    if b == 0 && c == 0 {
        let out = vec![0i32];
        assert(out@.map_values(|x: i32| x as int) =~= seq![0int]);
        return Some(out);
    }
    if b == 0 {
        let l = match linear_root(a, c) {
            Some(l) => l,
            None => {
                return None;
            },
        };
        assert(l@.map_values(|x: i32| x as int).len() == 1);
        let v = l[0];
        assert(roots_view(Some(l)).unwrap()[0] == v);
        if v < 0 {
            return None;
        }
        let s = match exact_root_of(v as u128, 2) {
            Some(s) => s,
            None => {
                return None;
            },
        };
        proof {
            lemma_power_nonneg(s as int, 1);
            lemma_power_two(s as int);
            assert(s <= s * s) by (nonlinear_arith)
                requires
                    s >= 0,
            ;
        }
        let si = s as i32;
        if si == 0 {
            let out = vec![0i32];
            assert(out@.map_values(|x: i32| x as int) =~= seq![0int]);
            return Some(out);
        }
        let lo = -si;
        let out = vec![lo, si];
        assert(out@.map_values(|x: i32| x as int) =~= seq![-(si as int), si as int]);
        return Some(out);
    }
    let a2: i128 = a as i128;
    let b2: i128 = b as i128;
    let c2: i128 = c as i128;
    assert(0 <= b2 * b2 <= 0x4000_0000_0000_0000) by (nonlinear_arith)
        requires
            -0x8000_0000 <= b2 <= 0x7fff_ffff,
    ;
    assert(-0x1_0000_0000_0000_0000 <= (4 * a2) * c2 <= 0x1_0000_0000_0000_0000) by (nonlinear_arith)
        requires
            -0x8000_0000 <= a2 <= 0x7fff_ffff,
            -0x8000_0000 <= c2 <= 0x7fff_ffff,
    ;
    let disc: i128 = b2 * b2 - 4 * a2 * c2;
    if disc < 0 {
        return None;
    }
    let s = match exact_root_of(disc as u128, 2) {
        Some(s) => s,
        None => {
            return None;
        },
    };
    proof {
        lemma_power_two(s as int);
        assert(disc <= 0x8000_0000_0000_0000 + 0x2_0000_0000_0000_0000) by (nonlinear_arith)
            requires
                disc == b2 * b2 - 4 * a2 * c2,
                -0x8000_0000 <= a2 <= 0x7fff_ffff,
                -0x8000_0000 <= b2 <= 0x7fff_ffff,
                -0x8000_0000 <= c2 <= 0x7fff_ffff,
        ;
        assert(s <= 0x2_0000_0000) by (nonlinear_arith)
            requires
                s * s <= 0x8000_0000_0000_0000 + 0x2_0000_0000_0000_0000,
                s >= 0,
        ;
    }
    let si: i128 = s as i128;
    let q1 = match exact_quot(-b2 + si, 2 * a2) {
        Some(q) => q,
        None => {
            return None;
        },
    };
    let q2 = match exact_quot(-b2 - si, 2 * a2) {
        Some(q) => q,
        None => {
            return None;
        },
    };
    if q1 < i32::MIN as i128 || q1 > i32::MAX as i128 || q2 < i32::MIN as i128 || q2 > i32::MAX as i128 {
        return None;
    }
    let r1 = q1 as i32;
    let r2 = q2 as i32;
    if r1 == r2 {
        let out = vec![r1];
        assert(out@.map_values(|x: i32| x as int) =~= seq![r1 as int]);
        return Some(out);
    }
    if r1 < r2 {
        let out = vec![r1, r2];
        assert(out@.map_values(|x: i32| x as int) =~= seq![r1 as int, r2 as int]);
        Some(out)
    } else {
        let out = vec![r2, r1];
        assert(out@.map_values(|x: i32| x as int) =~= seq![r2 as int, r1 as int]);
        Some(out)
    }
}

} // verus!
