//! Exact comparisons of endpoint values against the decision constants.
//!
//! An endpoint value is a pair of machine integers, possibly `(n, 0)` for a
//! signed infinity.  All comparisons are exact cross-multiplied rational
//! comparisons, carried out in a wide integer type so that they are total
//! over the coefficient range; no value is ever rounded.

use vstd::prelude::*;
use crate::rat::{ext_lt, ext_le, ext_eq, non_zero, norm_n, norm_d, pn, pd, compat};
use crate::rat::{lemma_norm, lemma_norm_cmp, lemma_ext_le_congr, lemma_ext_total, lemma_ext_le_trans};

verus! {

/// The working range of one component of an endpoint pair: wide enough for
/// every machine coefficient, symmetric so that negation stays inside, and
/// small enough that a cross product always fits the wide integer type.
pub open spec fn in_rng(x: int) -> bool {
    -0x8000_0000_0000_0000 <= x <= 0x8000_0000_0000_0000
}

proof fn h_prod_bound(a: int, b: int)
    requires
        in_rng(a),
        in_rng(b),
    ensures
        i128::MIN as int <= a * b <= i128::MAX as int,
{
    assert(a * b <= 0x4000_0000_0000_0000_0000_0000_0000_0000
        && a * b >= -0x4000_0000_0000_0000_0000_0000_0000_0000) by (nonlinear_arith)
        requires
            -0x8000_0000_0000_0000 <= a <= 0x8000_0000_0000_0000,
            -0x8000_0000_0000_0000 <= b <= 0x8000_0000_0000_0000;
}

/// Bridge between the sign-normalized products in the order relations and
/// the direct comparison of a pair against the constant `kn / kd`.
proof fn h_cmp(n: int, d: int, kn: int, kd: int)
    requires
        kd > 0,
        non_zero(n, d),
    ensures
        ext_lt(kn, kd, n, d) == (if d > 0 { kn * d < n * kd } else if d < 0 { kn * d > n * kd } else { n > 0 }),
        ext_lt(n, d, kn, kd) == (if d > 0 { n * kd < kn * d } else if d < 0 { n * kd > kn * d } else { n < 0 }),
        ext_eq(n, d, kn, kd) == (d != 0 && n * kd == kn * d),
        ext_eq(kn, kd, n, d) == (d != 0 && n * kd == kn * d),
{
    if d > 0 {
        assert(pn(n, d) == n && pd(n, d) == d && pn(kn, kd) == kn && pd(kn, kd) == kd);
        assert((pn(kn, kd) * pd(n, d) < pn(n, d) * pd(kn, kd)) == (kn * d < n * kd)
            && (pn(n, d) * pd(kn, kd) < pn(kn, kd) * pd(n, d)) == (n * kd < kn * d))
            by (nonlinear_arith)
            requires pn(n, d) == n && pd(n, d) == d && pn(kn, kd) == kn && pd(kn, kd) == kd;
    } else if d < 0 {
        assert(pn(n, d) == -n && pd(n, d) == -d && pn(kn, kd) == kn && pd(kn, kd) == kd);
        assert((pn(kn, kd) * pd(n, d) < pn(n, d) * pd(kn, kd)) == (kn * d > n * kd)
            && (pn(n, d) * pd(kn, kd) < pn(kn, kd) * pd(n, d)) == (n * kd > kn * d)
            && (n * kd == kn * d) == (n * kd == kn * d))
            by (nonlinear_arith)
            requires pn(n, d) == -n && pd(n, d) == -d && pn(kn, kd) == kn && pd(kn, kd) == kd;
    }
}

/// The value is greater than one.
pub fn greater_than_one(n: i128, d: i128) -> (r: bool)
    requires
        non_zero(n as int, d as int),
    ensures
        r == ext_lt(1, 1, n as int, d as int),
{
    proof {
        h_cmp(n as int, d as int, 1, 1);
    }
    if d > 0 { n > d } else if d < 0 { n < d } else { n > 0 }
}

/// The value is less than one.
pub fn less_than_one(n: i128, d: i128) -> (r: bool)
    requires
        non_zero(n as int, d as int),
    ensures
        r == ext_lt(n as int, d as int, 1, 1),
{
    proof {
        h_cmp(n as int, d as int, 1, 1);
    }
    if d > 0 { n < d } else if d < 0 { n > d } else { n < 0 }
}

/// The value is greater than zero.
pub fn greater_than_zero(n: i128, d: i128) -> (r: bool)
    requires
        non_zero(n as int, d as int),
    ensures
        r == ext_lt(0, 1, n as int, d as int),
{
    proof {
        h_cmp(n as int, d as int, 0, 1);
    }
    if d >= 0 { n > 0 } else { n < 0 }
}

/// The value is less than zero.
pub fn less_than_zero(n: i128, d: i128) -> (r: bool)
    requires
        non_zero(n as int, d as int),
    ensures
        r == ext_lt(n as int, d as int, 0, 1),
{
    proof {
        h_cmp(n as int, d as int, 0, 1);
    }
    if d >= 0 { n < 0 } else { n > 0 }
}

/// The value is greater than minus one.
pub fn greater_than_minus_one(n: i128, d: i128) -> (r: bool)
    requires
        in_rng(n as int),
        in_rng(d as int),
        non_zero(n as int, d as int),
    ensures
        r == ext_lt(-1, 1, n as int, d as int),
{
    proof {
        h_cmp(n as int, d as int, -1, 1);
    }
    if d > 0 { n > -d } else if d < 0 { n < -d } else { n > 0 }
}

/// The value is less than minus one.
pub fn less_than_minus_one(n: i128, d: i128) -> (r: bool)
    requires
        in_rng(n as int),
        in_rng(d as int),
        non_zero(n as int, d as int),
    ensures
        r == ext_lt(n as int, d as int, -1, 1),
{
    proof {
        h_cmp(n as int, d as int, -1, 1);
    }
    if d > 0 { n < -d } else if d < 0 { n > -d } else { n < 0 }
}

/// The value is exactly one half.
pub fn equal_to_one_half(n: i128, d: i128) -> (r: bool)
    requires
        in_rng(n as int),
        in_rng(d as int),
        non_zero(n as int, d as int),
    ensures
        r == ext_eq(n as int, d as int, 1, 2),
{
    proof {
        h_cmp(n as int, d as int, 1, 2);
    }
    d != 0 && 2 * n == d
}

/// The value is greater than one half.
pub fn greater_than_one_half(n: i128, d: i128) -> (r: bool)
    requires
        in_rng(n as int),
        in_rng(d as int),
        non_zero(n as int, d as int),
    ensures
        r == ext_lt(1, 2, n as int, d as int),
{
    proof {
        h_cmp(n as int, d as int, 1, 2);
    }
    if d > 0 { 2 * n > d } else if d < 0 { 2 * n < d } else { n > 0 }
}

/// The value is less than one half.
pub fn less_than_one_half(n: i128, d: i128) -> (r: bool)
    requires
        in_rng(n as int),
        in_rng(d as int),
        non_zero(n as int, d as int),
    ensures
        r == ext_lt(n as int, d as int, 1, 2),
{
    proof {
        h_cmp(n as int, d as int, 1, 2);
    }
    if d > 0 { 2 * n < d } else if d < 0 { 2 * n > d } else { n < 0 }
}

/// The value is at least one.
pub fn not_less_than_one(n: i128, d: i128) -> (r: bool)
    requires
        non_zero(n as int, d as int),
    ensures
        r == ext_le(1, 1, n as int, d as int),
{
    proof {
        h_cmp(n as int, d as int, 1, 1);
    }
    if d > 0 { n >= d } else if d < 0 { n <= d } else { n > 0 }
}

/// The value is at most zero.
pub fn not_greater_than_zero(n: i128, d: i128) -> (r: bool)
    requires
        non_zero(n as int, d as int),
    ensures
        r == ext_le(n as int, d as int, 0, 1),
{
    proof {
        h_cmp(n as int, d as int, 0, 1);
    }
    if d > 0 { n <= 0 } else if d < 0 { n >= 0 } else { n < 0 }
}

/// Exact cross products of two pairs, for comparison.
pub fn compare_reduce(n0: i128, d0: i128, n1: i128, d1: i128) -> (r: (i128, i128))
    requires
        in_rng(n0 as int), in_rng(d0 as int), in_rng(n1 as int), in_rng(d1 as int),
    ensures
        r.0 as int == (n0 as int) * (d1 as int),
        r.1 as int == (n1 as int) * (d0 as int),
{
    proof {
        h_prod_bound(n0 as int, d1 as int);
        h_prod_bound(n1 as int, d0 as int);
    }
    (n0 * d1, n1 * d0)
}

/// Cross-multiplied strict order of two pairs.
pub fn less_than(n0: i128, d0: i128, n1: i128, d1: i128) -> (r: bool)
    requires
        in_rng(n0 as int), in_rng(d0 as int), in_rng(n1 as int), in_rng(d1 as int),
    ensures
        r == ((n0 as int) * (d1 as int) < (n1 as int) * (d0 as int)),
{
    let (ad, bc) = compare_reduce(n0, d0, n1, d1);
    ad < bc
}

/// Cross-multiplied strict reverse order of two pairs.
pub fn greater_than(n0: i128, d0: i128, n1: i128, d1: i128) -> (r: bool)
    requires
        in_rng(n0 as int), in_rng(d0 as int), in_rng(n1 as int), in_rng(d1 as int),
    ensures
        r == ((n0 as int) * (d1 as int) > (n1 as int) * (d0 as int)),
{
    let (ad, bc) = compare_reduce(n0, d0, n1, d1);
    ad > bc
}

/// The integer is even.
pub fn is_even(n: isize) -> (r: bool)
    ensures
        r == (n as int % 2 == 0),
{
    n % 2 == 0
}

/// The two pairs are the same pair, component for component.
pub fn are_same(n1: i128, d1: i128, n2: i128, d2: i128) -> (r: bool)
    ensures
        r == (n1 == n2 && d1 == d2),
{
    n1 == n2 && d1 == d2
}

/// The value is one of the three boundary values minus one, zero, one.
pub fn is_special(n: i128, d: i128) -> (r: bool)
    requires
        in_rng(n as int),
        in_rng(d as int),
        non_zero(n as int, d as int),
    ensures
        r == (ext_eq(n as int, d as int, 0, 1) || ext_eq(n as int, d as int, 1, 1)
            || ext_eq(n as int, d as int, -1, 1)),
{
    equal_to_zero(n, d) || equal_to_minus_one(n, d) || equal_to_one(n, d)
}

/// The value is exactly zero.
pub fn equal_to_zero(n: i128, d: i128) -> (r: bool)
    requires
        non_zero(n as int, d as int),
    ensures
        r == ext_eq(n as int, d as int, 0, 1),
{
    proof {
        h_cmp(n as int, d as int, 0, 1);
    }
    d != 0 && n == 0
}

/// The value is exactly one.
pub fn equal_to_one(n: i128, d: i128) -> (r: bool)
    requires
        non_zero(n as int, d as int),
    ensures
        r == ext_eq(n as int, d as int, 1, 1),
{
    proof {
        h_cmp(n as int, d as int, 1, 1);
    }
    d != 0 && n == d
}

/// The value is exactly minus one.
pub fn equal_to_minus_one(n: i128, d: i128) -> (r: bool)
    requires
        in_rng(n as int),
        in_rng(d as int),
        non_zero(n as int, d as int),
    ensures
        r == ext_eq(n as int, d as int, -1, 1),
{
    proof {
        h_cmp(n as int, d as int, -1, 1);
    }
    d != 0 && n == -d
}

/// Sign-normalize a pair: denominator made non-negative, an infinity
/// reduced to `(±1, 0)`, a zero to `(0, 1)`.
fn normalize(n: i128, d: i128) -> (r: (i128, i128))
    requires
        in_rng(n as int),
        in_rng(d as int),
        non_zero(n as int, d as int),
    ensures
        r.0 as int == norm_n(n as int, d as int),
        r.1 as int == norm_d(n as int, d as int),
        in_rng(r.0 as int),
        in_rng(r.1 as int),
        non_zero(r.0 as int, r.1 as int),
        r.1 >= 0,
{
    proof {
        lemma_norm(n as int, d as int);
    }
    if d == 0 {
        (if n > 0 { 1 } else { -1 }, 0)
    } else if n == 0 {
        (0, 1)
    } else if d < 0 {
        (-n, -d)
    } else {
        (n, d)
    }
}

/// Widen the running range of endpoint values by one more value: the result
/// is the smallest range, bounded by two of the given pairs, that covers all
/// three.  The pairs must denote extended values, the given range must be
/// ordered, and no two pairs may be opposite infinities.
pub fn updated_range(
    nmin: i128, dmin: i128, nmax: i128, dmax: i128, nnew: i128, dnew: i128,
) -> (r: (i128, i128, i128, i128))
    requires
        in_rng(nmin as int), in_rng(dmin as int),
        in_rng(nmax as int), in_rng(dmax as int),
        in_rng(nnew as int), in_rng(dnew as int),
        non_zero(nmin as int, dmin as int),
        non_zero(nmax as int, dmax as int),
        non_zero(nnew as int, dnew as int),
        compat(nmin as int, dmin as int, nnew as int, dnew as int),
        compat(nmax as int, dmax as int, nnew as int, dnew as int),
        compat(nmin as int, dmin as int, nmax as int, dmax as int),
        ext_le(nmin as int, dmin as int, nmax as int, dmax as int),
    ensures
        ({
            let (an, ad, bn, bd) = r;
            &&& non_zero(an as int, ad as int)
            &&& non_zero(bn as int, bd as int)
            &&& in_rng(an as int) && in_rng(ad as int) && in_rng(bn as int) && in_rng(bd as int)
            &&& ((an as int == norm_n(nmin as int, dmin as int) && ad as int == norm_d(nmin as int, dmin as int))
                || (an as int == norm_n(nnew as int, dnew as int) && ad as int == norm_d(nnew as int, dnew as int)))
            &&& ((bn as int == norm_n(nmax as int, dmax as int) && bd as int == norm_d(nmax as int, dmax as int))
                || (bn as int == norm_n(nnew as int, dnew as int) && bd as int == norm_d(nnew as int, dnew as int)))
            &&& ext_le(an as int, ad as int, nmin as int, dmin as int)
            &&& ext_le(an as int, ad as int, nnew as int, dnew as int)
            &&& ext_le(nmax as int, dmax as int, bn as int, bd as int)
            &&& ext_le(nnew as int, dnew as int, bn as int, bd as int)
            &&& ext_le(an as int, ad as int, bn as int, bd as int)
            &&& (nmin == nmax && dmin == dmax
                    && ext_eq(nmin as int, dmin as int, nnew as int, dnew as int)
                ==> an == bn && ad == bd)
        }),
{
    let (ln, ld) = normalize(nmin, dmin);
    let (hn, hd) = normalize(nmax, dmax);
    let (wn, wd) = normalize(nnew, dnew);
    proof {
        lemma_norm(nmin as int, dmin as int);
        lemma_norm(nmax as int, dmax as int);
        lemma_norm(nnew as int, dnew as int);
        assert((nnew as int) * (nmin as int) == (nmin as int) * (nnew as int)) by (nonlinear_arith);
        lemma_norm_cmp(nnew as int, dnew as int, nmin as int, dmin as int);
        lemma_norm_cmp(nmax as int, dmax as int, nnew as int, dnew as int);
        assert((wn as int) * (ld as int) == norm_n(nnew as int, dnew as int) * norm_d(nmin as int, dmin as int)
            && (ln as int) * (wd as int) == norm_n(nmin as int, dmin as int) * norm_d(nnew as int, dnew as int))
            by (nonlinear_arith)
            requires
                wn as int == norm_n(nnew as int, dnew as int),
                wd as int == norm_d(nnew as int, dnew as int),
                ln as int == norm_n(nmin as int, dmin as int),
                ld as int == norm_d(nmin as int, dmin as int);
        assert((wn as int) * (hd as int) == norm_n(nnew as int, dnew as int) * norm_d(nmax as int, dmax as int)
            && (hn as int) * (wd as int) == norm_n(nmax as int, dmax as int) * norm_d(nnew as int, dnew as int))
            by (nonlinear_arith)
            requires
                wn as int == norm_n(nnew as int, dnew as int),
                wd as int == norm_d(nnew as int, dnew as int),
                hn as int == norm_n(nmax as int, dmax as int),
                hd as int == norm_d(nmax as int, dmax as int);
        lemma_ext_le_congr(
            wn as int, wd as int, ln as int, ld as int,
            nnew as int, dnew as int, nmin as int, dmin as int,
        );
        lemma_ext_le_congr(
            hn as int, hd as int, wn as int, wd as int,
            nmax as int, dmax as int, nnew as int, dnew as int,
        );
        lemma_ext_le_congr(
            ln as int, ld as int, wn as int, wd as int,
            nmin as int, dmin as int, nnew as int, dnew as int,
        );
        lemma_ext_le_congr(
            wn as int, wd as int, hn as int, hd as int,
            nnew as int, dnew as int, nmax as int, dmax as int,
        );
        lemma_ext_total(nnew as int, dnew as int, nmin as int, dmin as int);
        lemma_ext_total(nnew as int, dnew as int, nmax as int, dmax as int);
    }
    if less_than(wn, wd, ln, ld) {
        proof {
            lemma_ext_le_trans(
                nnew as int, dnew as int, nmin as int, dmin as int, nmax as int, dmax as int,
            );
            lemma_ext_le_trans(
                wn as int, wd as int, nnew as int, dnew as int, nmin as int, dmin as int,
            );
            lemma_ext_le_trans(
                nnew as int, dnew as int, nmax as int, dmax as int, hn as int, hd as int,
            );
            lemma_ext_le_trans(
                wn as int, wd as int, nnew as int, dnew as int, nmax as int, dmax as int,
            );
            lemma_ext_le_trans(
                wn as int, wd as int, nmax as int, dmax as int, hn as int, hd as int,
            );
        }
        (wn, wd, hn, hd)
    } else if greater_than(wn, wd, hn, hd) {
        proof {
            lemma_ext_le_trans(
                nmin as int, dmin as int, nmax as int, dmax as int, nnew as int, dnew as int,
            );
            lemma_ext_le_trans(
                ln as int, ld as int, nmin as int, dmin as int, nnew as int, dnew as int,
            );
            lemma_ext_le_trans(
                nmax as int, dmax as int, nnew as int, dnew as int, wn as int, wd as int,
            );
            lemma_ext_le_trans(
                ln as int, ld as int, nnew as int, dnew as int, wn as int, wd as int,
            );
        }
        (ln, ld, wn, wd)
    } else {
        proof {
            lemma_ext_le_trans(
                ln as int, ld as int, nmin as int, dmin as int, nnew as int, dnew as int,
            );
            lemma_ext_le_trans(
                nnew as int, dnew as int, nmax as int, dmax as int, hn as int, hd as int,
            );
            lemma_ext_le_trans(
                ln as int, ld as int, nmin as int, dmin as int, nmax as int, dmax as int,
            );
            lemma_ext_le_trans(
                ln as int, ld as int, nmax as int, dmax as int, hn as int, hd as int,
            );
        }
        (ln, ld, hn, hd)
    }
}


/// Checked addition of two coefficients; exceeding the machine range is the
/// fatal overflow condition.
pub fn cadd(a: isize, b: isize) -> (r: Result<isize, crate::Error>)
    ensures
        match r {
            Ok(v) => v as int == a as int + b as int,
            Err(e) => e == crate::Error::CoefficientOverflow
                && !(isize::MIN as int <= a as int + b as int <= isize::MAX as int),
        },
{
    let s: i128 = (a as i128) + (b as i128);
    if s >= (isize::MIN as i128) && s <= (isize::MAX as i128) {
        Ok(s as isize)
    } else {
        Err(crate::Error::CoefficientOverflow)
    }
}

/// Checked subtraction of two coefficients.
pub fn csub(a: isize, b: isize) -> (r: Result<isize, crate::Error>)
    ensures
        match r {
            Ok(v) => v as int == a as int - b as int,
            Err(e) => e == crate::Error::CoefficientOverflow
                && !(isize::MIN as int <= a as int - b as int <= isize::MAX as int),
        },
{
    let s: i128 = (a as i128) - (b as i128);
    if s >= (isize::MIN as i128) && s <= (isize::MAX as i128) {
        Ok(s as isize)
    } else {
        Err(crate::Error::CoefficientOverflow)
    }
}

/// Checked doubling of one coefficient.
pub fn cdbl(a: isize) -> (r: Result<isize, crate::Error>)
    ensures
        match r {
            Ok(v) => v as int == 2 * (a as int),
            Err(e) => e == crate::Error::CoefficientOverflow
                && !(isize::MIN as int <= 2 * (a as int) <= isize::MAX as int),
        },
{
    let s: i128 = 2 * (a as i128);
    if s >= (isize::MIN as i128) && s <= (isize::MAX as i128) {
        Ok(s as isize)
    } else {
        Err(crate::Error::CoefficientOverflow)
    }
}

/// Exact halving of an even coefficient.
pub fn half(a: isize) -> (r: isize)
    requires
        a as int % 2 == 0,
    ensures
        2 * (r as int) == a as int,
{
    a / 2
}

/// Fit a wide intermediate value back into the coefficient range.
pub fn fit(a: i128) -> (r: Result<isize, crate::Error>)
    ensures
        match r {
            Ok(v) => v as int == a as int,
            Err(e) => e == crate::Error::CoefficientOverflow
                && !(isize::MIN as int <= a as int <= isize::MAX as int),
        },
{
    if a >= (isize::MIN as i128) && a <= (isize::MAX as i128) {
        Ok(a as isize)
    } else {
        Err(crate::Error::CoefficientOverflow)
    }
}

} // verus!
