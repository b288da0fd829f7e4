//! The two-variable transform strategy: lazily computes
//! `(a·xy + b·x + c·y + d) / (e·xy + f·x + g·y + h)` for two inner streams.
//!
//! The domain is the unit square; each singularity is tested for exclusion
//! through the four exact corner values and their sums.  Ingestion
//! alternates between the two inner streams; when one exhausts, the
//! transform collapses into a one-variable transform over the other.
//! Streams generated here are outside the exact value model that the base
//! rational streams carry.

use vstd::prelude::*;
use crate::protocol::{Reduction, Primer, Special};
use crate::rat::{
    av, amen, non_zero, ext_le, ext_lt, ext_eq, rat_eq, rat_lt, scaled, step_rel,
    cl_len, sgn,
    lemma_affine_congr, lemma_scaled_trans, lemma_fold_amplify, lemma_fold_uncover,
    lemma_ext_le_trans, lemma_ext_total,
};
use crate::strategy::{Strategy, Step, support, homographic, one};
use crate::{Clog, Number, Error, lemma_clog_val};

verus! {

/// Numerator of the bilinear form
/// `nxy·xy + nx·x + ny·y + n` at the point `(xp/xq, yp/yq)`, cleared of
/// both denominators; the same shape serves as its denominator with the
/// denominator coefficients.
pub open spec fn bil(nxy: int, nx: int, ny: int, n: int, xp: int, xq: int, yp: int, yq: int) -> int {
    nxy * xp * yp + nx * xp * yq + ny * xq * yp + n * xq * yq
}

/// All four corner values of the bilinear form `mxy·xy + mx·x + my·y + m`
/// over the unit square keep one strict sign, so the form has no root
/// there.
pub open spec fn amen4(mxy: int, mx: int, my: int, m: int) -> bool {
    sgn(m) != 0 && sgn(m) == sgn(m + mx) && sgn(m) == sgn(m + my)
        && sgn(m) == sgn(m + mxy + mx + my)
}

/// The transform maps the point of the open unit square into the open unit
/// interval, and its denominator form does not vanish there.
pub open spec fn comb_ok(
    a: int, b: int, c: int, d: int, e: int, f: int, g: int, h: int,
    xp: int, xq: int, yp: int, yq: int,
) -> bool {
    let nn = bil(a, b, c, d, xp, xq, yp, yq);
    let dd = bil(e, f, g, h, xp, xq, yp, yq);
    dd != 0 && 0 < nn * dd && nn * dd < dd * dd
}

/// The transform maps the whole open unit square into the open unit
/// interval: the primed state in which reduction symbols may be emitted.
pub open spec fn comb_inv(a: int, b: int, c: int, d: int, e: int, f: int, g: int, h: int) -> bool {
    forall|xp: int, xq: int, yp: int, yq: int| 0 < xp < xq && 0 < yp < yq
        ==> #[trigger] comb_ok(a, b, c, d, e, f, g, h, xp, xq, yp, yq)
}

/// Sign of the comparison of the transform's value at one point of the
/// square against the constant `kn / kd`.
pub open spec fn comb_cmp(
    a: int, b: int, c: int, d: int, e: int, f: int, g: int, h: int,
    kn: int, kd: int, xp: int, xq: int, yp: int, yq: int,
) -> int {
    (bil(a, b, c, d, xp, xq, yp, yq) * kd - kn * bil(e, f, g, h, xp, xq, yp, yq))
        * bil(e, f, g, h, xp, xq, yp, yq)
}

/// The transform's value is strictly below `kn / kd` over the whole square.
pub open spec fn comb_below(
    a: int, b: int, c: int, d: int, e: int, f: int, g: int, h: int, kn: int, kd: int,
) -> bool {
    forall|xp: int, xq: int, yp: int, yq: int| 0 < xp < xq && 0 < yp < yq
        ==> #[trigger] comb_cmp(a, b, c, d, e, f, g, h, kn, kd, xp, xq, yp, yq) < 0
}

/// The transform's value is strictly above `kn / kd` over the whole square.
pub open spec fn comb_above(
    a: int, b: int, c: int, d: int, e: int, f: int, g: int, h: int, kn: int, kd: int,
) -> bool {
    forall|xp: int, xq: int, yp: int, yq: int| 0 < xp < xq && 0 < yp < yq
        ==> #[trigger] comb_cmp(a, b, c, d, e, f, g, h, kn, kd, xp, xq, yp, yq) > 0
}

/// The bilinear form decomposed over its four corner values, with the
/// nonnegative weights the point of the square gives them.
proof fn c_decomp(m0: int, m1: int, m2: int, m3: int, xp: int, xq: int, yp: int, yq: int)
    ensures
        bil(m0, m1, m2, m3, xp, xq, yp, yq)
            == (xp * yp) * (m0 + m1 + m2 + m3)
                + (xp * (yq - yp)) * (m1 + m3)
                + ((xq - xp) * yp) * (m2 + m3)
                + ((xq - xp) * (yq - yp)) * m3,
{
    c_expand(m0, m1, m2, m3, xp, xq, yp, yq);
    assert((xp * yp) * (m0 + m1 + m2 + m3)
        == m0 * (xp * yp) + m1 * (xp * yp) + m2 * (xp * yp) + m3 * (xp * yp))
        by (nonlinear_arith);
    assert((xp * (yq - yp)) * (m1 + m3)
        == m1 * (xp * yq) - m1 * (xp * yp) + m3 * (xp * yq) - m3 * (xp * yp))
        by (nonlinear_arith);
    assert(((xq - xp) * yp) * (m2 + m3)
        == m2 * (xq * yp) - m2 * (xp * yp) + m3 * (xq * yp) - m3 * (xp * yp))
        by (nonlinear_arith);
    assert(((xq - xp) * (yq - yp)) * m3
        == m3 * (xq * yq) - m3 * (xq * yp) - m3 * (xp * yq) + m3 * (xp * yp))
        by (nonlinear_arith);
}

/// The bilinear form written over its four monomials.
proof fn c_expand(m0: int, m1: int, m2: int, m3: int, xp: int, xq: int, yp: int, yq: int)
    ensures
        bil(m0, m1, m2, m3, xp, xq, yp, yq)
            == m0 * (xp * yp) + m1 * (xp * yq) + m2 * (xq * yp) + m3 * (xq * yq),
{
    assert(m0 * xp * yp == m0 * (xp * yp) && m1 * xp * yq == m1 * (xp * yq)
        && m2 * xq * yp == m2 * (xq * yp) && m3 * xq * yq == m3 * (xq * yq))
        by (nonlinear_arith);
}

/// The cross term of the form against a constant is itself a bilinear
/// form, with the componentwise cross coefficients.
proof fn c_cross(
    a: int, b: int, c: int, d: int, e: int, f: int, g: int, h: int,
    kn: int, kd: int, xp: int, xq: int, yp: int, yq: int,
)
    ensures
        bil(a, b, c, d, xp, xq, yp, yq) * kd - kn * bil(e, f, g, h, xp, xq, yp, yq)
            == bil(a * kd - kn * e, b * kd - kn * f, c * kd - kn * g, d * kd - kn * h,
                xp, xq, yp, yq),
{
    h_dist4(a * xp * yp, b * xp * yq, c * xq * yp, d * xq * yq, kd);
    h_reassoc(a, xp, yp, kd);
    h_reassoc(b, xp, yq, kd);
    h_reassoc(c, xq, yp, kd);
    h_reassoc(d, xq, yq, kd);
    assert(bil(a, b, c, d, xp, xq, yp, yq) * kd
        == (a * kd) * (xp * yp) + (b * kd) * (xp * yq) + (c * kd) * (xq * yp)
            + (d * kd) * (xq * yq));
    h_dist4(e * xp * yp, f * xp * yq, g * xq * yp, h * xq * yq, kn);
    h_reassoc(e, xp, yp, kn);
    h_reassoc(f, xp, yq, kn);
    h_reassoc(g, xq, yp, kn);
    h_reassoc(h, xq, yq, kn);
    assert(kn * bil(e, f, g, h, xp, xq, yp, yq)
        == (kn * e) * (xp * yp) + (kn * f) * (xp * yq) + (kn * g) * (xq * yp)
            + (kn * h) * (xq * yq)) by (nonlinear_arith)
        requires
            bil(e, f, g, h, xp, xq, yp, yq) * kn
                == (e * kn) * (xp * yp) + (f * kn) * (xp * yq) + (g * kn) * (xq * yp)
                    + (h * kn) * (xq * yq);
    c_expand(a * kd - kn * e, b * kd - kn * f, c * kd - kn * g, d * kd - kn * h,
        xp, xq, yp, yq);
    h_dist(a * kd, kn * e, xp * yp);
    h_dist(b * kd, kn * f, xp * yq);
    h_dist(c * kd, kn * g, xq * yp);
    h_dist(d * kd, kn * h, xq * yq);
}

proof fn h_dist(u: int, v: int, w: int)
    ensures
        (u - v) * w == u * w - v * w,
{
    assert((u - v) * w == u * w - v * w) by (nonlinear_arith);
}

proof fn h_dist4(t0: int, t1: int, t2: int, t3: int, k: int)
    ensures
        (t0 + t1 + t2 + t3) * k == t0 * k + t1 * k + t2 * k + t3 * k,
{
    assert((t0 + t1 + t2 + t3) * k == t0 * k + t1 * k + t2 * k + t3 * k) by (nonlinear_arith);
}

proof fn h_reassoc(m: int, u: int, v: int, k: int)
    ensures
        (m * u * v) * k == (m * k) * (u * v),
        (m * u * v) * k == (k * m) * (u * v),
{
    assert((m * u * v) * k == (m * k) * (u * v) && (m * u * v) * k == (k * m) * (u * v))
        by (nonlinear_arith);
}

/// With all four corners of one strict sign, the form keeps that sign over
/// the whole open square.
proof fn c_sign(m0: int, m1: int, m2: int, m3: int, xp: int, xq: int, yp: int, yq: int)
    requires
        0 < xp < xq,
        0 < yp < yq,
        amen4(m0, m1, m2, m3),
    ensures
        bil(m0, m1, m2, m3, xp, xq, yp, yq) != 0,
        sgn(bil(m0, m1, m2, m3, xp, xq, yp, yq)) == sgn(m3),
{
    c_decomp(m0, m1, m2, m3, xp, xq, yp, yq);
    let s = sgn(m3);
    assert(s == 1 || s == -1);
    assert(bil(m0, m1, m2, m3, xp, xq, yp, yq) * s > 0) by (nonlinear_arith)
        requires
            bil(m0, m1, m2, m3, xp, xq, yp, yq)
                == (xp * yp) * (m0 + m1 + m2 + m3)
                    + (xp * (yq - yp)) * (m1 + m3)
                    + ((xq - xp) * yp) * (m2 + m3)
                    + ((xq - xp) * (yq - yp)) * m3,
            0 < xp < xq,
            0 < yp < yq,
            (s == 1 || s == -1),
            (m0 + m1 + m2 + m3) * s > 0,
            (m1 + m3) * s > 0,
            (m2 + m3) * s > 0,
            m3 * s > 0;
    assert((m0 + m1 + m2 + m3) * s > 0 && (m1 + m3) * s > 0 && (m2 + m3) * s > 0 && m3 * s > 0)
        by (nonlinear_arith)
        requires
            s == sgn(m3), sgn(m3) != 0, sgn(m3) == sgn(m3 + m1), sgn(m3) == sgn(m3 + m2),
            sgn(m3) == sgn(m3 + m0 + m1 + m2),
            m0 + m1 + m2 + m3 == m3 + m0 + m1 + m2, m1 + m3 == m3 + m1, m2 + m3 == m3 + m2;
    assert(bil(m0, m1, m2, m3, xp, xq, yp, yq) != 0
        && sgn(bil(m0, m1, m2, m3, xp, xq, yp, yq)) == s) by (nonlinear_arith)
        requires bil(m0, m1, m2, m3, xp, xq, yp, yq) * s > 0 && (s == 1 || s == -1);
}

/// With every corner value strictly on one side of the constant, the value
/// at every point of the open square is strictly on that side too.
proof fn lemma_comb_side(
    a: int, b: int, c: int, d: int, e: int, f: int, g: int, h: int,
    kn: int, kd: int, xp: int, xq: int, yp: int, yq: int, upper: bool,
)
    requires
        0 < xp < xq,
        0 < yp < yq,
        kd > 0,
        amen4(e, f, g, h),
        upper ==> ext_lt(d, h, kn, kd) && ext_lt(b + d, f + h, kn, kd)
            && ext_lt(c + d, g + h, kn, kd)
            && ext_lt(a + b + c + d, e + f + g + h, kn, kd),
        !upper ==> ext_lt(kn, kd, d, h) && ext_lt(kn, kd, b + d, f + h)
            && ext_lt(kn, kd, c + d, g + h)
            && ext_lt(kn, kd, a + b + c + d, e + f + g + h),
    ensures
        upper ==> comb_cmp(a, b, c, d, e, f, g, h, kn, kd, xp, xq, yp, yq) < 0,
        !upper ==> comb_cmp(a, b, c, d, e, f, g, h, kn, kd, xp, xq, yp, yq) > 0,
{
    let s = sgn(h);
    c_sign(e, f, g, h, xp, xq, yp, yq);
    c_cross(a, b, c, d, e, f, g, h, kn, kd, xp, xq, yp, yq);
    let x0 = a * kd - kn * e;
    let x1 = b * kd - kn * f;
    let x2 = c * kd - kn * g;
    let x3 = d * kd - kn * h;
    c_decomp(x0, x1, x2, x3, xp, xq, yp, yq);
    assert(s == 1 || s == -1);
    h_corner_cross(d, h, kn, kd, s, upper);
    h_corner_cross(b + d, f + h, kn, kd, s, upper);
    h_corner_cross(c + d, g + h, kn, kd, s, upper);
    h_corner_cross(a + b + c + d, e + f + g + h, kn, kd, s, upper);
    assert(x3 == d * kd - kn * h && x1 + x3 == (b + d) * kd - kn * (f + h)
        && x2 + x3 == (c + d) * kd - kn * (g + h)
        && x0 + x1 + x2 + x3 == (a + b + c + d) * kd - kn * (e + f + g + h))
        by (nonlinear_arith)
        requires
            x0 == a * kd - kn * e,
            x1 == b * kd - kn * f,
            x2 == c * kd - kn * g,
            x3 == d * kd - kn * h;
    if upper {
        assert(bil(x0, x1, x2, x3, xp, xq, yp, yq) * s < 0) by (nonlinear_arith)
            requires
                bil(x0, x1, x2, x3, xp, xq, yp, yq)
                    == (xp * yp) * (x0 + x1 + x2 + x3)
                        + (xp * (yq - yp)) * (x1 + x3)
                        + ((xq - xp) * yp) * (x2 + x3)
                        + ((xq - xp) * (yq - yp)) * x3,
                0 < xp < xq,
                0 < yp < yq,
                (s == 1 || s == -1),
                (x0 + x1 + x2 + x3) * s < 0,
                (x1 + x3) * s < 0,
                (x2 + x3) * s < 0,
                x3 * s < 0;
        assert(comb_cmp(a, b, c, d, e, f, g, h, kn, kd, xp, xq, yp, yq) < 0) by (nonlinear_arith)
            requires
                comb_cmp(a, b, c, d, e, f, g, h, kn, kd, xp, xq, yp, yq)
                    == bil(x0, x1, x2, x3, xp, xq, yp, yq)
                        * bil(e, f, g, h, xp, xq, yp, yq),
                bil(x0, x1, x2, x3, xp, xq, yp, yq) * s < 0,
                sgn(bil(e, f, g, h, xp, xq, yp, yq)) == s,
                (s == 1 || s == -1);
    } else {
        assert(bil(x0, x1, x2, x3, xp, xq, yp, yq) * s > 0) by (nonlinear_arith)
            requires
                bil(x0, x1, x2, x3, xp, xq, yp, yq)
                    == (xp * yp) * (x0 + x1 + x2 + x3)
                        + (xp * (yq - yp)) * (x1 + x3)
                        + ((xq - xp) * yp) * (x2 + x3)
                        + ((xq - xp) * (yq - yp)) * x3,
                0 < xp < xq,
                0 < yp < yq,
                (s == 1 || s == -1),
                (x0 + x1 + x2 + x3) * s > 0,
                (x1 + x3) * s > 0,
                (x2 + x3) * s > 0,
                x3 * s > 0;
        assert(comb_cmp(a, b, c, d, e, f, g, h, kn, kd, xp, xq, yp, yq) > 0) by (nonlinear_arith)
            requires
                comb_cmp(a, b, c, d, e, f, g, h, kn, kd, xp, xq, yp, yq)
                    == bil(x0, x1, x2, x3, xp, xq, yp, yq)
                        * bil(e, f, g, h, xp, xq, yp, yq),
                bil(x0, x1, x2, x3, xp, xq, yp, yq) * s > 0,
                sgn(bil(e, f, g, h, xp, xq, yp, yq)) == s,
                (s == 1 || s == -1);
    }
}

/// One corner's extended comparison against the constant, translated into
/// the sign of its cross term.
proof fn h_corner_cross(cn: int, cd: int, kn: int, kd: int, s: int, upper: bool)
    requires
        kd > 0,
        sgn(cd) == s,
        s == 1 || s == -1,
        upper ==> ext_lt(cn, cd, kn, kd),
        !upper ==> ext_lt(kn, kd, cn, cd),
    ensures
        upper ==> (cn * kd - kn * cd) * s < 0,
        !upper ==> (cn * kd - kn * cd) * s > 0,
{
    if s == 1 {
        assert(crate::rat::pn(cn, cd) == cn && crate::rat::pd(cn, cd) == cd
            && crate::rat::pn(kn, kd) == kn && crate::rat::pd(kn, kd) == kd);
        assert((cn * kd < kn * cd) == ((cn * kd - kn * cd) * 1 < 0)
            && (kn * cd < cn * kd) == ((cn * kd - kn * cd) * 1 > 0)) by (nonlinear_arith);
    } else {
        assert(crate::rat::pn(cn, cd) == -cn && crate::rat::pd(cn, cd) == -cd
            && crate::rat::pn(kn, kd) == kn && crate::rat::pd(kn, kd) == kd);
        assert(((-cn) * kd < kn * (-cd)) == ((cn * kd - kn * cd) * (-1) < 0)
            && (kn * (-cd) < (-cn) * kd) == ((cn * kd - kn * cd) * (-1) > 0)) by (nonlinear_arith);
    }
}

/// The bilinear form sliced along `x`: an affine form in the `x` pair with
/// coefficients evaluated at the `y` pair.
proof fn c_slice_x(m0: int, m1: int, m2: int, m3: int, xp: int, xq: int, yp: int, yq: int)
    ensures
        bil(m0, m1, m2, m3, xp, xq, yp, yq)
            == av(m0 * yp + m1 * yq, m2 * yp + m3 * yq, xp, xq),
{
    c_expand(m0, m1, m2, m3, xp, xq, yp, yq);
    assert((m0 * yp + m1 * yq) * xp == m0 * (xp * yp) + m1 * (xp * yq)
        && (m2 * yp + m3 * yq) * xq == m2 * (xq * yp) + m3 * (xq * yq)) by (nonlinear_arith);
}

/// The bilinear form sliced along `y`.
proof fn c_slice_y(m0: int, m1: int, m2: int, m3: int, xp: int, xq: int, yp: int, yq: int)
    ensures
        bil(m0, m1, m2, m3, xp, xq, yp, yq)
            == av(m0 * xp + m2 * xq, m1 * xp + m3 * xq, yp, yq),
{
    c_expand(m0, m1, m2, m3, xp, xq, yp, yq);
    assert((m0 * xp + m2 * xq) * yp == m0 * (xp * yp) + m2 * (xq * yp)
        && (m1 * xp + m3 * xq) * yq == m1 * (xp * yq) + m3 * (xq * yq)) by (nonlinear_arith);
}

/// Negating a coefficient row negates the form.
proof fn c_neg_row(m0: int, m1: int, m2: int, m3: int, xp: int, xq: int, yp: int, yq: int)
    ensures
        bil(-m0, -m1, -m2, -m3, xp, xq, yp, yq) == -bil(m0, m1, m2, m3, xp, xq, yp, yq),
{
    c_expand(m0, m1, m2, m3, xp, xq, yp, yq);
    c_expand(-m0, -m1, -m2, -m3, xp, xq, yp, yq);
    assert((-m0) * (xp * yp) == -(m0 * (xp * yp)) && (-m1) * (xp * yq) == -(m1 * (xp * yq))
        && (-m2) * (xq * yp) == -(m2 * (xq * yp)) && (-m3) * (xq * yq) == -(m3 * (xq * yq)))
        by (nonlinear_arith);
}

/// A halved coefficient row halves the form.
proof fn c_half_row(
    m0: int, m1: int, m2: int, m3: int, h0: int, h1: int, h2: int, h3: int,
    xp: int, xq: int, yp: int, yq: int,
)
    requires
        2 * h0 == m0 && 2 * h1 == m1 && 2 * h2 == m2 && 2 * h3 == m3,
    ensures
        2 * bil(h0, h1, h2, h3, xp, xq, yp, yq) == bil(m0, m1, m2, m3, xp, xq, yp, yq),
{
    c_expand(m0, m1, m2, m3, xp, xq, yp, yq);
    c_expand(h0, h1, h2, h3, xp, xq, yp, yq);
    assert(2 * (h0 * (xp * yp)) == m0 * (xp * yp) && 2 * (h1 * (xp * yq)) == m1 * (xp * yq)
        && 2 * (h2 * (xq * yp)) == m2 * (xq * yp) && 2 * (h3 * (xq * yq)) == m3 * (xq * yq))
        by (nonlinear_arith)
        requires 2 * h0 == m0 && 2 * h1 == m1 && 2 * h2 == m2 && 2 * h3 == m3;
}

/// Subtracting one row from another subtracts the forms.
proof fn c_sub_row(
    m0: int, m1: int, m2: int, m3: int, k0: int, k1: int, k2: int, k3: int,
    xp: int, xq: int, yp: int, yq: int,
)
    ensures
        bil(m0 - k0, m1 - k1, m2 - k2, m3 - k3, xp, xq, yp, yq)
            == bil(m0, m1, m2, m3, xp, xq, yp, yq) - bil(k0, k1, k2, k3, xp, xq, yp, yq),
{
    c_expand(m0, m1, m2, m3, xp, xq, yp, yq);
    c_expand(k0, k1, k2, k3, xp, xq, yp, yq);
    c_expand(m0 - k0, m1 - k1, m2 - k2, m3 - k3, xp, xq, yp, yq);
    h_dist(m0, k0, xp * yp);
    h_dist(m1, k1, xp * yq);
    h_dist(m2, k2, xq * yp);
    h_dist(m3, k3, xq * yq);
}

/// Output-side halving keeps the point inside the unit interval when the
/// value there was below one half.
proof fn c_ok_amp(
    a: int, b: int, c: int, d: int, e: int, f: int, g: int, h: int,
    a2: int, b2: int, c2: int, d2: int, e2: int, f2: int, g2: int, h2: int,
    xp: int, xq: int, yp: int, yq: int,
)
    requires
        comb_ok(a, b, c, d, e, f, g, h, xp, xq, yp, yq),
        comb_cmp(a, b, c, d, e, f, g, h, 1, 2, xp, xq, yp, yq) < 0,
        (a2 == a && b2 == b && c2 == c && d2 == d
            && 2 * e2 == e && 2 * f2 == f && 2 * g2 == g && 2 * h2 == h)
        || (a2 == 2 * a && b2 == 2 * b && c2 == 2 * c && d2 == 2 * d
            && e2 == e && f2 == f && g2 == g && h2 == h),
    ensures
        comb_ok(a2, b2, c2, d2, e2, f2, g2, h2, xp, xq, yp, yq),
{
    let aa = bil(a, b, c, d, xp, xq, yp, yq);
    let bb = bil(e, f, g, h, xp, xq, yp, yq);
    let av2 = bil(a2, b2, c2, d2, xp, xq, yp, yq);
    let bv2 = bil(e2, f2, g2, h2, xp, xq, yp, yq);
    if a2 == a && b2 == b && c2 == c && d2 == d
        && 2 * e2 == e && 2 * f2 == f && 2 * g2 == g && 2 * h2 == h {
        c_half_row(e, f, g, h, e2, f2, g2, h2, xp, xq, yp, yq);
        assert(bv2 != 0 && 0 < av2 * bv2 && av2 * bv2 < bv2 * bv2) by (nonlinear_arith)
            requires av2 == aa && 2 * bv2 == bb && bb != 0 && 0 < aa * bb
                && (aa * 2 - 1 * bb) * bb < 0;
    } else {
        c_half_row(a2, b2, c2, d2, a, b, c, d, xp, xq, yp, yq);
        assert(bv2 != 0 && 0 < av2 * bv2 && av2 * bv2 < bv2 * bv2) by (nonlinear_arith)
            requires av2 == 2 * aa && bv2 == bb && bb != 0 && 0 < aa * bb
                && (aa * 2 - 1 * bb) * bb < 0;
    }
}

/// Output-side reciprocate-and-subtract keeps the point inside the unit
/// interval when the value there was above one half.
proof fn c_ok_unc(
    a: int, b: int, c: int, d: int, e: int, f: int, g: int, h: int,
    xp: int, xq: int, yp: int, yq: int,
)
    requires
        comb_ok(a, b, c, d, e, f, g, h, xp, xq, yp, yq),
        comb_cmp(a, b, c, d, e, f, g, h, 1, 2, xp, xq, yp, yq) > 0,
    ensures
        comb_ok(e - a, f - b, g - c, h - d, a, b, c, d, xp, xq, yp, yq),
{
    let aa = bil(a, b, c, d, xp, xq, yp, yq);
    let bb = bil(e, f, g, h, xp, xq, yp, yq);
    c_sub_row(e, f, g, h, a, b, c, d, xp, xq, yp, yq);
    assert(aa != 0 && 0 < (bb - aa) * aa && (bb - aa) * aa < aa * aa) by (nonlinear_arith)
        requires bb != 0 && 0 < aa * bb && aa * bb < bb * bb && (aa * 2 - 1 * bb) * bb > 0;
}

/// The primer transforms keep the point inside the unit interval when the
/// image region fits them.
proof fn c_ok_primer(
    a: int, b: int, c: int, d: int, e: int, f: int, g: int, h: int,
    xp: int, xq: int, yp: int, yq: int, which: Option<Primer>,
)
    requires
        0 < xp < xq,
        0 < yp < yq,
        match which {
            None => comb_cmp(a, b, c, d, e, f, g, h, 0, 1, xp, xq, yp, yq) > 0
                && comb_cmp(a, b, c, d, e, f, g, h, 1, 1, xp, xq, yp, yq) < 0,
            Some(Primer::Turn) => comb_cmp(a, b, c, d, e, f, g, h, 1, 1, xp, xq, yp, yq) > 0,
            Some(Primer::Reflect) => comb_cmp(a, b, c, d, e, f, g, h, -1, 1, xp, xq, yp, yq) > 0
                && comb_cmp(a, b, c, d, e, f, g, h, 0, 1, xp, xq, yp, yq) < 0,
            Some(Primer::Ground) => comb_cmp(a, b, c, d, e, f, g, h, -1, 1, xp, xq, yp, yq) < 0,
        },
    ensures
        match which {
            None => comb_ok(a, b, c, d, e, f, g, h, xp, xq, yp, yq),
            Some(Primer::Turn) => comb_ok(e, f, g, h, a, b, c, d, xp, xq, yp, yq),
            Some(Primer::Reflect) => comb_ok(-a, -b, -c, -d, e, f, g, h, xp, xq, yp, yq),
            Some(Primer::Ground) => comb_ok(-e, -f, -g, -h, a, b, c, d, xp, xq, yp, yq),
        },
{
    let aa = bil(a, b, c, d, xp, xq, yp, yq);
    let bb = bil(e, f, g, h, xp, xq, yp, yq);
    match which {
        None => {
            assert(bb != 0 && 0 < aa * bb && aa * bb < bb * bb) by (nonlinear_arith)
                requires (aa * 1 - 0 * bb) * bb > 0 && (aa * 1 - 1 * bb) * bb < 0;
        },
        Some(Primer::Turn) => {
            assert(aa != 0 && 0 < bb * aa && bb * aa < aa * aa) by (nonlinear_arith)
                requires (aa * 1 - 1 * bb) * bb > 0;
        },
        Some(Primer::Reflect) => {
            c_neg_row(a, b, c, d, xp, xq, yp, yq);
            assert(bb != 0 && 0 < (-aa) * bb && (-aa) * bb < bb * bb) by (nonlinear_arith)
                requires (aa * 1 - (-1) * bb) * bb > 0 && (aa * 1 - 0 * bb) * bb < 0;
        },
        Some(Primer::Ground) => {
            c_neg_row(e, f, g, h, xp, xq, yp, yq);
            assert(aa != 0 && 0 < (-bb) * aa && (-bb) * aa < aa * aa) by (nonlinear_arith)
                requires (aa * 1 - (-1) * bb) * bb < 0;
        },
    }
}

/// Folding one halving of `x` keeps the value and the square invariant:
/// the new form at a point equals the old form at the matching point of
/// the halved domain, up to a positive factor.
proof fn c_ok_ingest_x(
    a: int, b: int, c: int, d: int, e: int, f: int, g: int, h: int,
    a2: int, b2: int, c2: int, d2: int, e2: int, f2: int, g2: int, h2: int,
    xp: int, xq: int, yp: int, yq: int, unc: bool,
)
    requires
        0 < xp < xq,
        0 < yp < yq,
        !unc ==> comb_ok(a, b, c, d, e, f, g, h, xp, 2 * xq, yp, yq)
            && ((2 * a2 == a && 2 * b2 == b && 2 * e2 == e && 2 * f2 == f
                    && c2 == c && d2 == d && g2 == g && h2 == h)
                || (a2 == a && b2 == b && e2 == e && f2 == f
                    && c2 == 2 * c && d2 == 2 * d && g2 == 2 * g && h2 == 2 * h)),
        unc ==> comb_ok(a, b, c, d, e, f, g, h, xq, xp + xq, yp, yq)
            && a2 == c && b2 == d && c2 == a + c && d2 == b + d
            && e2 == g && f2 == h && g2 == e + g && h2 == f + h,
    ensures
        comb_ok(a2, b2, c2, d2, e2, f2, g2, h2, xp, xq, yp, yq),
{
    let sa = a * yp + b * yq;
    let sc = c * yp + d * yq;
    let se = e * yp + f * yq;
    let sg = g * yp + h * yq;
    let sa2 = a2 * yp + b2 * yq;
    let sc2 = c2 * yp + d2 * yq;
    let se2 = e2 * yp + f2 * yq;
    let sg2 = g2 * yp + h2 * yq;
    c_slice_x(a2, b2, c2, d2, xp, xq, yp, yq);
    c_slice_x(e2, f2, g2, h2, xp, xq, yp, yq);
    let av2 = bil(a2, b2, c2, d2, xp, xq, yp, yq);
    let bv2 = bil(e2, f2, g2, h2, xp, xq, yp, yq);
    if !unc {
        c_slice_x(a, b, c, d, xp, 2 * xq, yp, yq);
        c_slice_x(e, f, g, h, xp, 2 * xq, yp, yq);
        let aa = bil(a, b, c, d, xp, 2 * xq, yp, yq);
        let bb = bil(e, f, g, h, xp, 2 * xq, yp, yq);
        if 2 * a2 == a && 2 * b2 == b && 2 * e2 == e && 2 * f2 == f
            && c2 == c && d2 == d && g2 == g && h2 == h {
            assert(2 * sa2 == sa && 2 * se2 == se && sc2 == sc && sg2 == sg) by (nonlinear_arith)
                requires
                    sa == a * yp + b * yq && sa2 == a2 * yp + b2 * yq && 2 * a2 == a && 2 * b2 == b,
                    se == e * yp + f * yq && se2 == e2 * yp + f2 * yq && 2 * e2 == e && 2 * f2 == f,
                    sc == c * yp + d * yq && sc2 == c2 * yp + d2 * yq && c2 == c && d2 == d,
                    sg == g * yp + h * yq && sg2 == g2 * yp + h2 * yq && g2 == g && h2 == h;
            assert(2 * av2 == aa && 2 * bv2 == bb) by (nonlinear_arith)
                requires
                    aa == sa * xp + sc * (2 * xq) && av2 == sa2 * xp + sc2 * xq
                        && 2 * sa2 == sa && sc2 == sc,
                    bb == se * xp + sg * (2 * xq) && bv2 == se2 * xp + sg2 * xq
                        && 2 * se2 == se && sg2 == sg;
        } else {
            assert(sa2 == sa && se2 == se && sc2 == 2 * sc && sg2 == 2 * sg) by (nonlinear_arith)
                requires
                    sa == a * yp + b * yq && sa2 == a2 * yp + b2 * yq && a2 == a && b2 == b,
                    se == e * yp + f * yq && se2 == e2 * yp + f2 * yq && e2 == e && f2 == f,
                    sc == c * yp + d * yq && sc2 == c2 * yp + d2 * yq && c2 == 2 * c && d2 == 2 * d,
                    sg == g * yp + h * yq && sg2 == g2 * yp + h2 * yq && g2 == 2 * g && h2 == 2 * h;
            assert(av2 == aa && bv2 == bb) by (nonlinear_arith)
                requires
                    aa == sa * xp + sc * (2 * xq) && av2 == sa2 * xp + sc2 * xq
                        && sa2 == sa && sc2 == 2 * sc,
                    bb == se * xp + sg * (2 * xq) && bv2 == se2 * xp + sg2 * xq
                        && se2 == se && sg2 == 2 * sg;
        }
        assert(bv2 != 0 && 0 < av2 * bv2 && av2 * bv2 < bv2 * bv2) by (nonlinear_arith)
            requires
                (2 * av2 == aa && 2 * bv2 == bb) || (av2 == aa && bv2 == bb),
                bb != 0 && 0 < aa * bb && aa * bb < bb * bb;
    } else {
        c_slice_x(a, b, c, d, xq, xp + xq, yp, yq);
        c_slice_x(e, f, g, h, xq, xp + xq, yp, yq);
        let aa = bil(a, b, c, d, xq, xp + xq, yp, yq);
        let bb = bil(e, f, g, h, xq, xp + xq, yp, yq);
        assert(sa2 == sc && sc2 == sa + sc && se2 == sg && sg2 == se + sg) by (nonlinear_arith)
            requires
                sa == a * yp + b * yq && sc == c * yp + d * yq
                    && sa2 == a2 * yp + b2 * yq && sc2 == c2 * yp + d2 * yq
                    && a2 == c && b2 == d && c2 == a + c && d2 == b + d,
                se == e * yp + f * yq && sg == g * yp + h * yq
                    && se2 == e2 * yp + f2 * yq && sg2 == g2 * yp + h2 * yq
                    && e2 == g && f2 == h && g2 == e + g && h2 == f + h;
        assert(av2 == aa && bv2 == bb) by (nonlinear_arith)
            requires
                aa == sa * xq + sc * (xp + xq) && av2 == sa2 * xp + sc2 * xq
                    && sa2 == sc && sc2 == sa + sc,
                bb == se * xq + sg * (xp + xq) && bv2 == se2 * xp + sg2 * xq
                    && se2 == sg && sg2 == se + sg;
    }
}

/// Folding one halving of `y`: the mirror of the `x` fold.
proof fn c_ok_ingest_y(
    a: int, b: int, c: int, d: int, e: int, f: int, g: int, h: int,
    a2: int, b2: int, c2: int, d2: int, e2: int, f2: int, g2: int, h2: int,
    xp: int, xq: int, yp: int, yq: int, unc: bool,
)
    requires
        0 < xp < xq,
        0 < yp < yq,
        !unc ==> comb_ok(a, b, c, d, e, f, g, h, xp, xq, yp, 2 * yq)
            && ((2 * a2 == a && 2 * c2 == c && 2 * e2 == e && 2 * g2 == g
                    && b2 == b && d2 == d && f2 == f && h2 == h)
                || (a2 == a && c2 == c && e2 == e && g2 == g
                    && b2 == 2 * b && d2 == 2 * d && f2 == 2 * f && h2 == 2 * h)),
        unc ==> comb_ok(a, b, c, d, e, f, g, h, xp, xq, yq, yp + yq)
            && a2 == b && b2 == a + b && c2 == d && d2 == c + d
            && e2 == f && f2 == e + f && g2 == h && h2 == g + h,
    ensures
        comb_ok(a2, b2, c2, d2, e2, f2, g2, h2, xp, xq, yp, yq),
{
    let sa = a * xp + c * xq;
    let sb = b * xp + d * xq;
    let se = e * xp + g * xq;
    let sf = f * xp + h * xq;
    let sa2 = a2 * xp + c2 * xq;
    let sb2 = b2 * xp + d2 * xq;
    let se2 = e2 * xp + g2 * xq;
    let sf2 = f2 * xp + h2 * xq;
    c_slice_y(a2, b2, c2, d2, xp, xq, yp, yq);
    c_slice_y(e2, f2, g2, h2, xp, xq, yp, yq);
    let av2 = bil(a2, b2, c2, d2, xp, xq, yp, yq);
    let bv2 = bil(e2, f2, g2, h2, xp, xq, yp, yq);
    if !unc {
        c_slice_y(a, b, c, d, xp, xq, yp, 2 * yq);
        c_slice_y(e, f, g, h, xp, xq, yp, 2 * yq);
        let aa = bil(a, b, c, d, xp, xq, yp, 2 * yq);
        let bb = bil(e, f, g, h, xp, xq, yp, 2 * yq);
        if 2 * a2 == a && 2 * c2 == c && 2 * e2 == e && 2 * g2 == g
            && b2 == b && d2 == d && f2 == f && h2 == h {
            assert(2 * sa2 == sa && 2 * se2 == se && sb2 == sb && sf2 == sf) by (nonlinear_arith)
                requires
                    sa == a * xp + c * xq && sa2 == a2 * xp + c2 * xq && 2 * a2 == a && 2 * c2 == c,
                    se == e * xp + g * xq && se2 == e2 * xp + g2 * xq && 2 * e2 == e && 2 * g2 == g,
                    sb == b * xp + d * xq && sb2 == b2 * xp + d2 * xq && b2 == b && d2 == d,
                    sf == f * xp + h * xq && sf2 == f2 * xp + h2 * xq && f2 == f && h2 == h;
            assert(2 * av2 == aa && 2 * bv2 == bb) by (nonlinear_arith)
                requires
                    aa == sa * yp + sb * (2 * yq) && av2 == sa2 * yp + sb2 * yq
                        && 2 * sa2 == sa && sb2 == sb,
                    bb == se * yp + sf * (2 * yq) && bv2 == se2 * yp + sf2 * yq
                        && 2 * se2 == se && sf2 == sf;
        } else {
            assert(sa2 == sa && se2 == se && sb2 == 2 * sb && sf2 == 2 * sf) by (nonlinear_arith)
                requires
                    sa == a * xp + c * xq && sa2 == a2 * xp + c2 * xq && a2 == a && c2 == c,
                    se == e * xp + g * xq && se2 == e2 * xp + g2 * xq && e2 == e && g2 == g,
                    sb == b * xp + d * xq && sb2 == b2 * xp + d2 * xq && b2 == 2 * b && d2 == 2 * d,
                    sf == f * xp + h * xq && sf2 == f2 * xp + h2 * xq && f2 == 2 * f && h2 == 2 * h;
            assert(av2 == aa && bv2 == bb) by (nonlinear_arith)
                requires
                    aa == sa * yp + sb * (2 * yq) && av2 == sa2 * yp + sb2 * yq
                        && sa2 == sa && sb2 == 2 * sb,
                    bb == se * yp + sf * (2 * yq) && bv2 == se2 * yp + sf2 * yq
                        && se2 == se && sf2 == 2 * sf;
        }
        assert(bv2 != 0 && 0 < av2 * bv2 && av2 * bv2 < bv2 * bv2) by (nonlinear_arith)
            requires
                (2 * av2 == aa && 2 * bv2 == bb) || (av2 == aa && bv2 == bb),
                bb != 0 && 0 < aa * bb && aa * bb < bb * bb;
    } else {
        c_slice_y(a, b, c, d, xp, xq, yq, yp + yq);
        c_slice_y(e, f, g, h, xp, xq, yq, yp + yq);
        let aa = bil(a, b, c, d, xp, xq, yq, yp + yq);
        let bb = bil(e, f, g, h, xp, xq, yq, yp + yq);
        assert(sa2 == sb && sb2 == sa + sb && se2 == sf && sf2 == se + sf) by (nonlinear_arith)
            requires
                sa == a * xp + c * xq && sb == b * xp + d * xq
                    && sa2 == a2 * xp + c2 * xq && sb2 == b2 * xp + d2 * xq
                    && a2 == b && b2 == a + b && c2 == d && d2 == c + d,
                se == e * xp + g * xq && sf == f * xp + h * xq
                    && se2 == e2 * xp + g2 * xq && sf2 == f2 * xp + h2 * xq
                    && e2 == f && f2 == e + f && g2 == h && h2 == g + h;
        assert(av2 == aa && bv2 == bb) by (nonlinear_arith)
            requires
                aa == sa * yq + sb * (yp + yq) && av2 == sa2 * yp + sb2 * yq
                    && sa2 == sb && sb2 == sa + sb,
                bb == se * yq + sf * (yp + yq) && bv2 == se2 * yp + sf2 * yq
                    && se2 == sf && sf2 == se + sf;
    }
}

/// From the computed range of the four corners and a strict comparison of
/// the range against the constant, every corner is strictly on one side of
/// it, so the whole image is.
proof fn c_corners(
    a: int, b: int, c: int, d: int, e: int, f: int, g: int, h: int,
    kn: int, kd: int, mn: int, md: int, xn: int, xd: int, upper: bool,
)
    requires
        kd > 0,
        amen4(e, f, g, h),
        non_zero(mn, md),
        non_zero(xn, xd),
        non_zero(d, h),
        non_zero(c + d, g + h),
        non_zero(b + d, f + h),
        non_zero(a + b + c + d, e + f + g + h),
        ext_le(mn, md, d, h) && ext_le(d, h, xn, xd),
        ext_le(mn, md, c + d, g + h) && ext_le(c + d, g + h, xn, xd),
        ext_le(mn, md, b + d, f + h) && ext_le(b + d, f + h, xn, xd),
        ext_le(mn, md, a + b + c + d, e + f + g + h)
            && ext_le(a + b + c + d, e + f + g + h, xn, xd),
        upper ==> ext_lt(xn, xd, kn, kd),
        !upper ==> ext_lt(kn, kd, mn, md),
    ensures
        upper ==> comb_below(a, b, c, d, e, f, g, h, kn, kd),
        !upper ==> comb_above(a, b, c, d, e, f, g, h, kn, kd),
{
    if upper {
        lemma_ext_le_trans(d, h, xn, xd, kn, kd);
        lemma_ext_le_trans(c + d, g + h, xn, xd, kn, kd);
        lemma_ext_le_trans(b + d, f + h, xn, xd, kn, kd);
        lemma_ext_le_trans(a + b + c + d, e + f + g + h, xn, xd, kn, kd);
        assert forall|xp: int, xq: int, yp: int, yq: int| 0 < xp < xq && 0 < yp < yq
            implies #[trigger] comb_cmp(a, b, c, d, e, f, g, h, kn, kd, xp, xq, yp, yq) < 0 by {
            lemma_comb_side(a, b, c, d, e, f, g, h, kn, kd, xp, xq, yp, yq, true);
        }
    } else {
        lemma_ext_le_trans(kn, kd, mn, md, d, h);
        lemma_ext_le_trans(kn, kd, mn, md, c + d, g + h);
        lemma_ext_le_trans(kn, kd, mn, md, b + d, f + h);
        lemma_ext_le_trans(kn, kd, mn, md, a + b + c + d, e + f + g + h);
        assert forall|xp: int, xq: int, yp: int, yq: int| 0 < xp < xq && 0 < yp < yq
            implies #[trigger] comb_cmp(a, b, c, d, e, f, g, h, kn, kd, xp, xq, yp, yq) > 0 by {
            lemma_comb_side(a, b, c, d, e, f, g, h, kn, kd, xp, xq, yp, yq, false);
        }
    }
}

/// At exhaustion of one operand the transform's pair at one half equals
/// its pair at that operand's value, up to a positive factor.
proof fn c_exh_x(
    a: int, b: int, c: int, d: int, e: int, f: int, g: int, h: int,
    bxn: int, bxd: int, yp: int, yq: int,
)
    requires
        0 < bxn < bxd,
        rat_eq(bxn, bxd, 1, 2),
    ensures
        scaled(
            bil(a, b, c, d, 1, 2, yp, yq), bil(e, f, g, h, 1, 2, yp, yq),
            bil(a, b, c, d, bxn, bxd, yp, yq), bil(e, f, g, h, bxn, bxd, yp, yq),
        ),
{
    c_slice_x(a, b, c, d, 1, 2, yp, yq);
    c_slice_x(e, f, g, h, 1, 2, yp, yq);
    c_slice_x(a, b, c, d, bxn, bxd, yp, yq);
    c_slice_x(e, f, g, h, bxn, bxd, yp, yq);
    lemma_affine_congr(a * yp + b * yq, c * yp + d * yq,
        e * yp + f * yq, g * yp + h * yq, 1, 2, bxn, bxd);
    lemma_affine_congr(e * yp + f * yq, g * yp + h * yq,
        a * yp + b * yq, c * yp + d * yq, 1, 2, bxn, bxd);
}

/// The mirror along `y`.
proof fn c_exh_y(
    a: int, b: int, c: int, d: int, e: int, f: int, g: int, h: int,
    byn: int, byd: int, xp: int, xq: int,
)
    requires
        0 < byn < byd,
        rat_eq(byn, byd, 1, 2),
    ensures
        scaled(
            bil(a, b, c, d, xp, xq, 1, 2), bil(e, f, g, h, xp, xq, 1, 2),
            bil(a, b, c, d, xp, xq, byn, byd), bil(e, f, g, h, xp, xq, byn, byd),
        ),
{
    c_slice_y(a, b, c, d, xp, xq, 1, 2);
    c_slice_y(e, f, g, h, xp, xq, 1, 2);
    c_slice_y(a, b, c, d, xp, xq, byn, byd);
    c_slice_y(e, f, g, h, xp, xq, byn, byd);
    lemma_affine_congr(a * xp + c * xq, b * xp + d * xq,
        e * xp + g * xq, f * xp + h * xq, 1, 2, byn, byd);
    lemma_affine_congr(e * xp + g * xq, f * xp + h * xq,
        a * xp + c * xq, b * xp + d * xq, 1, 2, byn, byd);
}

/// A pair that is either a row's value or its half stands for the same
/// value up to a positive factor.
proof fn c_parity(an: int, ad: int, pn_: int, qd_: int)
    requires
        (an == pn_ && ad == qd_) || (2 * an == pn_ && 2 * ad == qd_),
    ensures
        scaled(an, ad, pn_, qd_),
{
    if an == pn_ && ad == qd_ {
        assert(an * qd_ == pn_ * ad) by (nonlinear_arith)
            requires an == pn_ && ad == qd_;
    } else {
        assert(an * qd_ == pn_ * ad && sgn(an) == sgn(pn_) && sgn(ad) == sgn(qd_))
            by (nonlinear_arith)
            requires 2 * an == pn_ && 2 * ad == qd_;
    }
}

/// One ingest fold keeps the transform's pair at the streams' values, up to
/// a positive factor: the two-variable mirror of the one-variable folds.
proof fn c_fold_value(
    a: int, b: int, c: int, d: int, e: int, f: int, g: int, h: int,
    a2: int, b2: int, c2: int, d2: int, e2: int, f2: int, g2: int, h2: int,
    bn: int, bd: int, an: int, ad: int, op: int, oq: int, xside: bool, unc: bool,
)
    requires
        0 < bn < bd,
        ad > 0,
        oq > 0,
        !unc ==> rat_eq(an, ad, 2 * bn, bd),
        unc ==> rat_eq(an, ad, bd - bn, bn) && 0 < bn,
        xside && !unc ==> (2 * a2 == a && 2 * b2 == b && 2 * e2 == e && 2 * f2 == f
                && c2 == c && d2 == d && g2 == g && h2 == h)
            || (a2 == a && b2 == b && e2 == e && f2 == f
                && c2 == 2 * c && d2 == 2 * d && g2 == 2 * g && h2 == 2 * h),
        xside && unc ==> a2 == c && b2 == d && c2 == a + c && d2 == b + d
            && e2 == g && f2 == h && g2 == e + g && h2 == f + h,
        !xside && !unc ==> (2 * a2 == a && 2 * c2 == c && 2 * e2 == e && 2 * g2 == g
                && b2 == b && d2 == d && f2 == f && h2 == h)
            || (a2 == a && c2 == c && e2 == e && g2 == g
                && b2 == 2 * b && d2 == 2 * d && f2 == 2 * f && h2 == 2 * h),
        !xside && unc ==> a2 == b && b2 == a + b && c2 == d && d2 == c + d
            && e2 == f && f2 == e + f && g2 == h && h2 == g + h,
    ensures
        xside ==> scaled(
            bil(a2, b2, c2, d2, an, ad, op, oq), bil(e2, f2, g2, h2, an, ad, op, oq),
            bil(a, b, c, d, bn, bd, op, oq), bil(e, f, g, h, bn, bd, op, oq),
        ),
        !xside ==> scaled(
            bil(a2, b2, c2, d2, op, oq, an, ad), bil(e2, f2, g2, h2, op, oq, an, ad),
            bil(a, b, c, d, op, oq, bn, bd), bil(e, f, g, h, op, oq, bn, bd),
        ),
{
    if xside {
        c_slice_x(a2, b2, c2, d2, an, ad, op, oq);
        c_slice_x(e2, f2, g2, h2, an, ad, op, oq);
        c_slice_x(a, b, c, d, bn, bd, op, oq);
        c_slice_x(e, f, g, h, bn, bd, op, oq);
        let sa = a * op + b * oq;
        let sc = c * op + d * oq;
        let se = e * op + f * oq;
        let sg = g * op + h * oq;
        let sa2 = a2 * op + b2 * oq;
        let sc2 = c2 * op + d2 * oq;
        let se2 = e2 * op + f2 * oq;
        let sg2 = g2 * op + h2 * oq;
        if !unc {
            assert((2 * sa2 == sa && sc2 == sc && 2 * se2 == se && sg2 == sg)
                || (sa2 == sa && sc2 == 2 * sc && se2 == se && sg2 == 2 * sg))
                by (nonlinear_arith)
                requires
                    sa == a * op + b * oq && sc == c * op + d * oq
                        && se == e * op + f * oq && sg == g * op + h * oq
                        && sa2 == a2 * op + b2 * oq && sc2 == c2 * op + d2 * oq
                        && se2 == e2 * op + f2 * oq && sg2 == g2 * op + h2 * oq,
                    (2 * a2 == a && 2 * b2 == b && 2 * e2 == e && 2 * f2 == f
                            && c2 == c && d2 == d && g2 == g && h2 == h)
                        || (a2 == a && b2 == b && e2 == e && f2 == f
                            && c2 == 2 * c && d2 == 2 * d && g2 == 2 * g && h2 == 2 * h);
            if 2 * sa2 == sa && sc2 == sc && 2 * se2 == se && sg2 == sg {
                lemma_fold_amplify(sa, sc, se, sg, sa2, sc2, se2, sg2, bn, bd, an, ad);
            } else {
                lemma_fold_amplify(sa, sc, se, sg, sa2, sc2, se2, sg2, bn, bd, an, ad);
            }
        } else {
            assert(sa2 == sc && sc2 == sa + sc && se2 == sg && sg2 == se + sg)
                by (nonlinear_arith)
                requires
                    sa == a * op + b * oq && sc == c * op + d * oq
                        && se == e * op + f * oq && sg == g * op + h * oq
                        && sa2 == a2 * op + b2 * oq && sc2 == c2 * op + d2 * oq
                        && se2 == e2 * op + f2 * oq && sg2 == g2 * op + h2 * oq,
                    a2 == c && b2 == d && c2 == a + c && d2 == b + d
                        && e2 == g && f2 == h && g2 == e + g && h2 == f + h;
            lemma_fold_uncover(sa, sc, se, sg, sa2, sc2, se2, sg2, bn, bd, an, ad);
        }
    } else {
        c_slice_y(a2, b2, c2, d2, op, oq, an, ad);
        c_slice_y(e2, f2, g2, h2, op, oq, an, ad);
        c_slice_y(a, b, c, d, op, oq, bn, bd);
        c_slice_y(e, f, g, h, op, oq, bn, bd);
        let sa = a * op + c * oq;
        let sb = b * op + d * oq;
        let se = e * op + g * oq;
        let sf = f * op + h * oq;
        let sa2 = a2 * op + c2 * oq;
        let sb2 = b2 * op + d2 * oq;
        let se2 = e2 * op + g2 * oq;
        let sf2 = f2 * op + h2 * oq;
        if !unc {
            assert((2 * sa2 == sa && sb2 == sb && 2 * se2 == se && sf2 == sf)
                || (sa2 == sa && sb2 == 2 * sb && se2 == se && sf2 == 2 * sf))
                by (nonlinear_arith)
                requires
                    sa == a * op + c * oq && sb == b * op + d * oq
                        && se == e * op + g * oq && sf == f * op + h * oq
                        && sa2 == a2 * op + c2 * oq && sb2 == b2 * op + d2 * oq
                        && se2 == e2 * op + g2 * oq && sf2 == f2 * op + h2 * oq,
                    (2 * a2 == a && 2 * c2 == c && 2 * e2 == e && 2 * g2 == g
                            && b2 == b && d2 == d && f2 == f && h2 == h)
                        || (a2 == a && c2 == c && e2 == e && g2 == g
                            && b2 == 2 * b && d2 == 2 * d && f2 == 2 * f && h2 == 2 * h);
            lemma_fold_amplify(sa, sb, se, sf, sa2, sb2, se2, sf2, bn, bd, an, ad);
        } else {
            assert(sa2 == sb && sb2 == sa + sb && se2 == sf && sf2 == se + sf)
                by (nonlinear_arith)
                requires
                    sa == a * op + c * oq && sb == b * op + d * oq
                        && se == e * op + g * oq && sf == f * op + h * oq
                        && sa2 == a2 * op + c2 * oq && sb2 == b2 * op + d2 * oq
                        && se2 == e2 * op + g2 * oq && sf2 == f2 * op + h2 * oq,
                    a2 == b && b2 == a + b && c2 == d && d2 == c + d
                        && e2 == f && f2 == e + f && g2 == h && h2 == g + h;
            lemma_fold_uncover(sa, sb, se, sf, sa2, sb2, se2, sf2, bn, bd, an, ad);
        }
    }
}

/// The coefficients left at exhaustion of `x` stand for the transform's
/// pair at one half, up to a positive factor.
proof fn c_slice_y_end(
    a: int, b: int, c: int, d: int, e: int, f: int, g: int, h: int,
    ny: int, n: int, dy: int, dd: int, yp: int, yq: int,
)
    requires
        (2 * ny == a + 2 * c && 2 * n == b + 2 * d && 2 * dy == e + 2 * g && 2 * dd == f + 2 * h)
            || (ny == a + 2 * c && n == b + 2 * d && dy == e + 2 * g && dd == f + 2 * h),
    ensures
        scaled(av(ny, n, yp, yq), av(dy, dd, yp, yq),
            bil(a, b, c, d, 1, 2, yp, yq), bil(e, f, g, h, 1, 2, yp, yq)),
{
    c_slice_y(a, b, c, d, 1, 2, yp, yq);
    c_slice_y(e, f, g, h, 1, 2, yp, yq);
    assert(bil(a, b, c, d, 1, 2, yp, yq) == (a + 2 * c) * yp + (b + 2 * d) * yq
        && bil(e, f, g, h, 1, 2, yp, yq) == (e + 2 * g) * yp + (f + 2 * h) * yq)
        by (nonlinear_arith)
        requires
            bil(a, b, c, d, 1, 2, yp, yq) == (a * 1 + c * 2) * yp + (b * 1 + d * 2) * yq,
            bil(e, f, g, h, 1, 2, yp, yq) == (e * 1 + g * 2) * yp + (f * 1 + h * 2) * yq;
    if 2 * ny == a + 2 * c && 2 * n == b + 2 * d && 2 * dy == e + 2 * g && 2 * dd == f + 2 * h {
        assert(2 * av(ny, n, yp, yq) == bil(a, b, c, d, 1, 2, yp, yq)
            && 2 * av(dy, dd, yp, yq) == bil(e, f, g, h, 1, 2, yp, yq)) by (nonlinear_arith)
            requires
                av(ny, n, yp, yq) == ny * yp + n * yq,
                av(dy, dd, yp, yq) == dy * yp + dd * yq,
                bil(a, b, c, d, 1, 2, yp, yq) == (a + 2 * c) * yp + (b + 2 * d) * yq,
                bil(e, f, g, h, 1, 2, yp, yq) == (e + 2 * g) * yp + (f + 2 * h) * yq,
                2 * ny == a + 2 * c && 2 * n == b + 2 * d && 2 * dy == e + 2 * g
                    && 2 * dd == f + 2 * h;
        c_parity(av(ny, n, yp, yq), av(dy, dd, yp, yq),
            bil(a, b, c, d, 1, 2, yp, yq), bil(e, f, g, h, 1, 2, yp, yq));
    } else {
        assert(av(ny, n, yp, yq) == bil(a, b, c, d, 1, 2, yp, yq)
            && av(dy, dd, yp, yq) == bil(e, f, g, h, 1, 2, yp, yq)) by (nonlinear_arith)
            requires
                av(ny, n, yp, yq) == ny * yp + n * yq,
                av(dy, dd, yp, yq) == dy * yp + dd * yq,
                bil(a, b, c, d, 1, 2, yp, yq) == (a + 2 * c) * yp + (b + 2 * d) * yq,
                bil(e, f, g, h, 1, 2, yp, yq) == (e + 2 * g) * yp + (f + 2 * h) * yq,
                ny == a + 2 * c && n == b + 2 * d && dy == e + 2 * g && dd == f + 2 * h;
        c_parity(av(ny, n, yp, yq), av(dy, dd, yp, yq),
            bil(a, b, c, d, 1, 2, yp, yq), bil(e, f, g, h, 1, 2, yp, yq));
    }
}

/// The coefficients left at exhaustion of `y`: the mirror along `x`.
proof fn c_slice_x_end(
    a: int, b: int, c: int, d: int, e: int, f: int, g: int, h: int,
    nx: int, n: int, dx: int, dd: int, xp: int, xq: int,
)
    requires
        (2 * nx == a + 2 * b && 2 * n == c + 2 * d && 2 * dx == e + 2 * f && 2 * dd == g + 2 * h)
            || (nx == a + 2 * b && n == c + 2 * d && dx == e + 2 * f && dd == g + 2 * h),
    ensures
        scaled(av(nx, n, xp, xq), av(dx, dd, xp, xq),
            bil(a, b, c, d, xp, xq, 1, 2), bil(e, f, g, h, xp, xq, 1, 2)),
{
    c_slice_x(a, b, c, d, xp, xq, 1, 2);
    c_slice_x(e, f, g, h, xp, xq, 1, 2);
    assert(bil(a, b, c, d, xp, xq, 1, 2) == (a + 2 * b) * xp + (c + 2 * d) * xq
        && bil(e, f, g, h, xp, xq, 1, 2) == (e + 2 * f) * xp + (g + 2 * h) * xq)
        by (nonlinear_arith)
        requires
            bil(a, b, c, d, xp, xq, 1, 2) == (a * 1 + b * 2) * xp + (c * 1 + d * 2) * xq,
            bil(e, f, g, h, xp, xq, 1, 2) == (e * 1 + f * 2) * xp + (g * 1 + h * 2) * xq;
    if 2 * nx == a + 2 * b && 2 * n == c + 2 * d && 2 * dx == e + 2 * f && 2 * dd == g + 2 * h {
        assert(2 * av(nx, n, xp, xq) == bil(a, b, c, d, xp, xq, 1, 2)
            && 2 * av(dx, dd, xp, xq) == bil(e, f, g, h, xp, xq, 1, 2)) by (nonlinear_arith)
            requires
                av(nx, n, xp, xq) == nx * xp + n * xq,
                av(dx, dd, xp, xq) == dx * xp + dd * xq,
                bil(a, b, c, d, xp, xq, 1, 2) == (a + 2 * b) * xp + (c + 2 * d) * xq,
                bil(e, f, g, h, xp, xq, 1, 2) == (e + 2 * f) * xp + (g + 2 * h) * xq,
                2 * nx == a + 2 * b && 2 * n == c + 2 * d && 2 * dx == e + 2 * f
                    && 2 * dd == g + 2 * h;
        c_parity(av(nx, n, xp, xq), av(dx, dd, xp, xq),
            bil(a, b, c, d, xp, xq, 1, 2), bil(e, f, g, h, xp, xq, 1, 2));
    } else {
        assert(av(nx, n, xp, xq) == bil(a, b, c, d, xp, xq, 1, 2)
            && av(dx, dd, xp, xq) == bil(e, f, g, h, xp, xq, 1, 2)) by (nonlinear_arith)
            requires
                av(nx, n, xp, xq) == nx * xp + n * xq,
                av(dx, dd, xp, xq) == dx * xp + dd * xq,
                bil(a, b, c, d, xp, xq, 1, 2) == (a + 2 * b) * xp + (c + 2 * d) * xq,
                bil(e, f, g, h, xp, xq, 1, 2) == (e + 2 * f) * xp + (g + 2 * h) * xq,
                nx == a + 2 * b && n == c + 2 * d && dx == e + 2 * f && dd == g + 2 * h;
        c_parity(av(nx, n, xp, xq), av(dx, dd, xp, xq),
            bil(a, b, c, d, xp, xq, 1, 2), bil(e, f, g, h, xp, xq, 1, 2));
    }
}

/// Transfer an exact value relation through a pair equal up to a positive
/// factor.
proof fn h_transfer(nvn: int, nvd: int, aa: int, bb: int, p0: int, q0: int)
    requires
        nvn * bb == aa * nvd,
        scaled(aa, bb, p0, q0),
        bb != 0,
    ensures
        nvn * q0 == p0 * nvd,
{
    assert((nvn * q0 - p0 * nvd) * bb == 0) by (nonlinear_arith)
        requires nvn * bb == aa * nvd && aa * q0 == p0 * bb;
    assert(nvn * q0 == p0 * nvd) by (nonlinear_arith)
        requires (nvn * q0 - p0 * nvd) * bb == 0 && bb != 0;
}

/// Folding one operand's primer into a coefficient row evaluates, at the
/// inner stream's pair, to the row's value at the operand's pair, up to
/// the sign shared by both rows.
proof fn c_fold_row_x(
    m0: int, m1: int, m2: int, m3: int, f0: int, f1: int, f2: int, f3: int,
    pr: Option<Primer>, cxp: int, cxq: int, xvn: int, xvd: int, yp: int, yq: int,
)
    requires
        match pr {
            None => f0 == m0 && f1 == m1 && f2 == m2 && f3 == m3
                && xvn == cxp && xvd == cxq,
            Some(Primer::Turn) => f0 == m2 && f1 == m3 && f2 == m0 && f3 == m1
                && xvn == cxq && xvd == cxp,
            Some(Primer::Reflect) => f0 == -m0 && f1 == -m1 && f2 == m2 && f3 == m3
                && xvn == -cxp && xvd == cxq,
            Some(Primer::Ground) => f0 == -m2 && f1 == -m3 && f2 == m0 && f3 == m1
                && xvn == -cxq && xvd == cxp,
        },
    ensures
        pr != Some(Primer::Ground)
            ==> bil(f0, f1, f2, f3, cxp, cxq, yp, yq) == bil(m0, m1, m2, m3, xvn, xvd, yp, yq),
        pr == Some(Primer::Ground)
            ==> bil(f0, f1, f2, f3, cxp, cxq, yp, yq) == -bil(m0, m1, m2, m3, xvn, xvd, yp, yq),
{
    c_expand(f0, f1, f2, f3, cxp, cxq, yp, yq);
    c_expand(m0, m1, m2, m3, xvn, xvd, yp, yq);
    match pr {
        None => {},
        Some(Primer::Turn) => {
            assert(m2 * (cxp * yp) + m3 * (cxp * yq) + m0 * (cxq * yp) + m1 * (cxq * yq)
                == m0 * (cxq * yp) + m1 * (cxq * yq) + m2 * (cxp * yp) + m3 * (cxp * yq))
                by (nonlinear_arith);
        },
        Some(Primer::Reflect) => {
            assert((-m0) * (cxp * yp) + (-m1) * (cxp * yq)
                == m0 * ((-cxp) * yp) + m1 * ((-cxp) * yq)) by (nonlinear_arith);
        },
        Some(Primer::Ground) => {
            assert((-m2) * (cxp * yp) + (-m3) * (cxp * yq) + m0 * (cxq * yp) + m1 * (cxq * yq)
                == -(m0 * ((-cxq) * yp) + m1 * ((-cxq) * yq) + m2 * (cxp * yp) + m3 * (cxp * yq)))
                by (nonlinear_arith);
        },
    }
}

/// The mirror along `y`.
proof fn c_fold_row_y(
    m0: int, m1: int, m2: int, m3: int, f0: int, f1: int, f2: int, f3: int,
    pr: Option<Primer>, cyp: int, cyq: int, yvn: int, yvd: int, xp: int, xq: int,
)
    requires
        match pr {
            None => f0 == m0 && f1 == m1 && f2 == m2 && f3 == m3
                && yvn == cyp && yvd == cyq,
            Some(Primer::Turn) => f0 == m1 && f1 == m0 && f2 == m3 && f3 == m2
                && yvn == cyq && yvd == cyp,
            Some(Primer::Reflect) => f0 == -m0 && f1 == m1 && f2 == -m2 && f3 == m3
                && yvn == -cyp && yvd == cyq,
            Some(Primer::Ground) => f0 == -m1 && f1 == m0 && f2 == -m3 && f3 == m2
                && yvn == -cyq && yvd == cyp,
        },
    ensures
        pr != Some(Primer::Ground)
            ==> bil(f0, f1, f2, f3, xp, xq, cyp, cyq) == bil(m0, m1, m2, m3, xp, xq, yvn, yvd),
        pr == Some(Primer::Ground)
            ==> bil(f0, f1, f2, f3, xp, xq, cyp, cyq) == -bil(m0, m1, m2, m3, xp, xq, yvn, yvd),
{
    c_expand(f0, f1, f2, f3, xp, xq, cyp, cyq);
    c_expand(m0, m1, m2, m3, xp, xq, yvn, yvd);
    match pr {
        None => {},
        Some(Primer::Turn) => {
            assert(m1 * (xp * cyp) + m0 * (xp * cyq) + m3 * (xq * cyp) + m2 * (xq * cyq)
                == m0 * (xp * cyq) + m1 * (xp * cyp) + m2 * (xq * cyq) + m3 * (xq * cyp))
                by (nonlinear_arith);
        },
        Some(Primer::Reflect) => {
            assert((-m0) * (xp * cyp) + (-m2) * (xq * cyp)
                == m0 * (xp * (-cyp)) + m2 * (xq * (-cyp))) by (nonlinear_arith);
        },
        Some(Primer::Ground) => {
            assert((-m1) * (xp * cyp) + m0 * (xp * cyq) + (-m3) * (xq * cyp) + m2 * (xq * cyq)
                == -(m0 * (xp * (-cyq)) + m1 * (xp * cyp) + m2 * (xq * (-cyq)) + m3 * (xq * cyp)))
                by (nonlinear_arith);
        },
    }
}

/// A well-formed two-variable transform denotes a value strictly inside
/// (0,1).
pub proof fn lemma_combine_val(cb: Combine)
    requires
        cb.wf(),
    ensures
        0 < cb.vn() < cb.vd(),
    decreases cb,
{
    lemma_clog_val(cb.x);
    lemma_clog_val(cb.y);
    assert(comb_ok(cb.a as int, cb.b as int, cb.c as int, cb.d as int,
        cb.e as int, cb.f as int, cb.g as int, cb.h as int,
        cb.x.vn(), cb.x.vd(), cb.y.vn(), cb.y.vd()));
    h_val_pos(
        bil(cb.a as int, cb.b as int, cb.c as int, cb.d as int,
            cb.x.vn(), cb.x.vd(), cb.y.vn(), cb.y.vd()),
        bil(cb.e as int, cb.f as int, cb.g as int, cb.h as int,
            cb.x.vn(), cb.x.vd(), cb.y.vn(), cb.y.vd()),
    );
}

proof fn h_val_pos(nn: int, dd: int)
    requires
        0 < nn * dd,
        nn * dd < dd * dd,
    ensures
        dd < 0 ==> 0 < -nn < -dd,
        dd >= 0 ==> 0 < nn < dd,
{
    assert((dd > 0 ==> 0 < nn < dd) && (dd < 0 ==> 0 < -nn < -dd) && dd != 0) by (nonlinear_arith)
        requires 0 < nn * dd && nn * dd < dd * dd;
}

/// A two-variable transform over two inner streams.
pub struct Combine {
    x: Clog,
    y: Clog,
    a: isize,
    b: isize,
    c: isize,
    d: isize,
    e: isize,
    f: isize,
    g: isize,
    h: isize,
}

impl Combine {
    /// Structural invariant: both inner streams are well formed and the
    /// primed transform maps the open unit square into the open unit
    /// interval.
    pub closed spec fn wf(self) -> bool
        decreases self,
    {
        self.x.wf() && self.y.wf()
            && comb_inv(self.a as int, self.b as int, self.c as int, self.d as int,
                self.e as int, self.f as int, self.g as int, self.h as int)
    }

    /// Both inner streams are in the value model.
    pub closed spec fn modeled_inner(self) -> bool
        decreases self,
    {
        self.x.modeled() && self.y.modeled()
    }

    /// Numerator of the transform's value at the inner streams' values,
    /// re-signed to a positive denominator.
    pub closed spec fn vn(self) -> int
        decreases self,
    {
        let nn = bil(self.a as int, self.b as int, self.c as int, self.d as int,
            self.x.vn(), self.x.vd(), self.y.vn(), self.y.vd());
        let dd = bil(self.e as int, self.f as int, self.g as int, self.h as int,
            self.x.vn(), self.x.vd(), self.y.vn(), self.y.vd());
        if dd < 0 { -nn } else { nn }
    }

    /// Denominator of the transform's value at the inner streams' values.
    pub closed spec fn vd(self) -> int
        decreases self,
    {
        let dd = bil(self.e as int, self.f as int, self.g as int, self.h as int,
            self.x.vn(), self.x.vd(), self.y.vn(), self.y.vd());
        if dd < 0 { -dd } else { dd }
    }

    /// Nesting depth below this transform.
    pub closed spec fn height(self) -> nat
        decreases self,
    {
        self.x.height() + self.y.height() + 1
    }

    /// The domain test of one singularity over the unit square: all four
    /// corner values of the bilinear form keep one strict sign.
    fn is_domain_amenable(mxy: isize, mx: isize, my: isize, m: isize) -> (r: bool)
        ensures
            r == amen4(mxy as int, mx as int, my as int, m as int),
    {
        let s1: i128 = m as i128;
        let s2: i128 = (m as i128) + (mx as i128);
        let s3: i128 = (m as i128) + (my as i128);
        let s4: i128 = (m as i128) + (mxy as i128) + (mx as i128) + (my as i128);
        s1 != 0 && ((s1 > 0) == (s2 > 0)) && s2 != 0 && ((s1 > 0) == (s3 > 0)) && s3 != 0
            && ((s1 > 0) == (s4 > 0)) && s4 != 0
    }

    fn is_zero_outside_domain(&self) -> (r: bool)
        ensures
            r == amen4(self.a as int, self.b as int, self.c as int, self.d as int),
    {
        Combine::is_domain_amenable(self.a, self.b, self.c, self.d)
    }

    fn is_pole_outside_domain(&self) -> (r: bool)
        ensures
            r == amen4(self.e as int, self.f as int, self.g as int, self.h as int),
    {
        Combine::is_domain_amenable(self.e, self.f, self.g, self.h)
    }

    fn are_singularities_outside_domain(&self) -> (r: bool)
        ensures
            r == (amen4(self.a as int, self.b as int, self.c as int, self.d as int)
                && amen4(self.e as int, self.f as int, self.g as int, self.h as int)),
    {
        self.is_zero_outside_domain() && self.is_pole_outside_domain()
    }

    /// One exact corner value of the transform.
    fn corner(&self, wx: bool, wy: bool) -> (r: (i128, i128))
        ensures
            !wx && !wy ==> r.0 as int == self.d as int && r.1 as int == self.h as int,
            !wx && wy ==> r.0 as int == self.c as int + self.d as int
                && r.1 as int == self.g as int + self.h as int,
            wx && !wy ==> r.0 as int == self.b as int + self.d as int
                && r.1 as int == self.f as int + self.h as int,
            wx && wy ==> r.0 as int == self.a as int + self.b as int + self.c as int + self.d as int
                && r.1 as int == self.e as int + self.f as int + self.g as int + self.h as int,
    {
        let mut nn: i128 = self.d as i128;
        let mut dd: i128 = self.h as i128;
        if wx {
            nn = nn + (self.b as i128);
            dd = dd + (self.f as i128);
        }
        if wy {
            nn = nn + (self.c as i128);
            dd = dd + (self.g as i128);
        }
        if wx && wy {
            nn = nn + (self.a as i128);
            dd = dd + (self.e as i128);
        }
        (nn, dd)
    }

    /// The range of the four corner values: nothing to compare when a
    /// corner is the undefined pair or two corners are opposite infinities,
    /// a fatal error when a corner leaves the coefficient range.
    fn image_extremes(&self) -> (r: Result<Option<(i128, i128, i128, i128)>, Error>)
        ensures
            ({
                let c0n = self.d as int;
                let c0d = self.h as int;
                let c1n = self.c as int + self.d as int;
                let c1d = self.g as int + self.h as int;
                let c2n = self.b as int + self.d as int;
                let c2d = self.f as int + self.h as int;
                let c3n = self.a as int + self.b as int + self.c as int + self.d as int;
                let c3d = self.e as int + self.f as int + self.g as int + self.h as int;
                match r {
                    Ok(Some((a, b, c, d))) => {
                        &&& support::in_rng(a as int) && support::in_rng(b as int)
                        &&& support::in_rng(c as int) && support::in_rng(d as int)
                        &&& non_zero(a as int, b as int) && non_zero(c as int, d as int)
                        &&& non_zero(c0n, c0d) && non_zero(c1n, c1d)
                        &&& non_zero(c2n, c2d) && non_zero(c3n, c3d)
                        &&& ext_le(a as int, b as int, c0n, c0d) && ext_le(c0n, c0d, c as int, d as int)
                        &&& ext_le(a as int, b as int, c1n, c1d) && ext_le(c1n, c1d, c as int, d as int)
                        &&& ext_le(a as int, b as int, c2n, c2d) && ext_le(c2n, c2d, c as int, d as int)
                        &&& ext_le(a as int, b as int, c3n, c3d) && ext_le(c3n, c3d, c as int, d as int)
                    },
                    Ok(None) => true,
                    Err(e) => e == Error::CoefficientOverflow,
                }
            }),
    {
        let (n0, d0) = self.corner(false, false);
        let (n1, d1) = self.corner(false, true);
        let (n2, d2) = self.corner(true, false);
        let (n3, d3) = self.corner(true, true);
        if !fits(n0) || !fits(d0) || !fits(n1) || !fits(d1) || !fits(n2) || !fits(d2)
            || !fits(n3) || !fits(d3) {
            return Err(Error::CoefficientOverflow);
        }
        if (n0 == 0 && d0 == 0) || (n1 == 0 && d1 == 0) || (n2 == 0 && d2 == 0)
            || (n3 == 0 && d3 == 0) {
            return Ok(None);
        }
        let (mut nmin, mut dmin, mut nmax, mut dmax) = (n0, d0, n0, d0);
        if opposed(nmin, dmin, n1, d1) || opposed(nmax, dmax, n1, d1)
            || opposed(nmin, dmin, nmax, dmax) {
            return Ok(None);
        }
        proof { h_seed(nmin as int, dmin as int); }
        let r1 = support::updated_range(nmin, dmin, nmax, dmax, n1, d1);
        nmin = r1.0; dmin = r1.1; nmax = r1.2; dmax = r1.3;
        if opposed(nmin, dmin, n2, d2) || opposed(nmax, dmax, n2, d2)
            || opposed(nmin, dmin, nmax, dmax) {
            return Ok(None);
        }
        let r2 = support::updated_range(nmin, dmin, nmax, dmax, n2, d2);
        proof {
            lemma_ext_le_trans(r2.0 as int, r2.1 as int, r1.0 as int, r1.1 as int, n0 as int, d0 as int);
            lemma_ext_le_trans(r2.0 as int, r2.1 as int, r1.0 as int, r1.1 as int, n1 as int, d1 as int);
            lemma_ext_le_trans(n0 as int, d0 as int, r1.2 as int, r1.3 as int, r2.2 as int, r2.3 as int);
            lemma_ext_le_trans(n1 as int, d1 as int, r1.2 as int, r1.3 as int, r2.2 as int, r2.3 as int);
        }
        nmin = r2.0; dmin = r2.1; nmax = r2.2; dmax = r2.3;
        if opposed(nmin, dmin, n3, d3) || opposed(nmax, dmax, n3, d3)
            || opposed(nmin, dmin, nmax, dmax) {
            return Ok(None);
        }
        let r3 = support::updated_range(nmin, dmin, nmax, dmax, n3, d3);
        proof {
            lemma_ext_le_trans(r3.0 as int, r3.1 as int, r2.0 as int, r2.1 as int, n0 as int, d0 as int);
            lemma_ext_le_trans(r3.0 as int, r3.1 as int, r2.0 as int, r2.1 as int, n1 as int, d1 as int);
            lemma_ext_le_trans(r3.0 as int, r3.1 as int, r2.0 as int, r2.1 as int, n2 as int, d2 as int);
            lemma_ext_le_trans(n0 as int, d0 as int, r2.2 as int, r2.3 as int, r3.2 as int, r3.3 as int);
            lemma_ext_le_trans(n1 as int, d1 as int, r2.2 as int, r2.3 as int, r3.2 as int, r3.3 as int);
            lemma_ext_le_trans(n2 as int, d2 as int, r2.2 as int, r2.3 as int, r3.2 as int, r3.3 as int);
        }
        Ok(Some(r3))
    }

    /// Fold the reciprocate output transform into the coefficients.
    fn turn(&mut self) -> (r: Primer)
        ensures
            final(self).x == old(self).x, final(self).y == old(self).y,
            r == Primer::Turn,
            final(self).a == old(self).e && final(self).b == old(self).f
                && final(self).c == old(self).g && final(self).d == old(self).h
                && final(self).e == old(self).a && final(self).f == old(self).b
                && final(self).g == old(self).c && final(self).h == old(self).d,
    {
        let t = self.a; self.a = self.e; self.e = t;
        let t = self.b; self.b = self.f; self.f = t;
        let t = self.c; self.c = self.g; self.g = t;
        let t = self.d; self.d = self.h; self.h = t;
        Primer::Turn
    }

    /// Fold the negate output transform into the coefficients.
    fn reflect(&mut self) -> (r: Result<Primer, Error>)
        ensures
            final(self).x == old(self).x, final(self).y == old(self).y,
            match r {
                Ok(p) => p == Primer::Reflect
                    && final(self).a as int == -(old(self).a as int)
                    && final(self).b as int == -(old(self).b as int)
                    && final(self).c as int == -(old(self).c as int)
                    && final(self).d as int == -(old(self).d as int)
                    && final(self).e == old(self).e && final(self).f == old(self).f
                    && final(self).g == old(self).g && final(self).h == old(self).h,
                Err(e) => e == Error::CoefficientOverflow,
            },
    {
        let na = match support::csub(0, self.a) { Ok(v) => v, Err(e) => { return Err(e); } };
        let nb = match support::csub(0, self.b) { Ok(v) => v, Err(e) => { return Err(e); } };
        let nc = match support::csub(0, self.c) { Ok(v) => v, Err(e) => { return Err(e); } };
        let nd = match support::csub(0, self.d) { Ok(v) => v, Err(e) => { return Err(e); } };
        self.a = na; self.b = nb; self.c = nc; self.d = nd;
        Ok(Primer::Reflect)
    }

    /// Fold the reciprocate-and-negate output transform into the
    /// coefficients.
    fn ground(&mut self) -> (r: Result<Primer, Error>)
        ensures
            final(self).x == old(self).x, final(self).y == old(self).y,
            match r {
                Ok(p) => p == Primer::Ground
                    && final(self).a as int == -(old(self).e as int)
                    && final(self).b as int == -(old(self).f as int)
                    && final(self).c as int == -(old(self).g as int)
                    && final(self).d as int == -(old(self).h as int)
                    && final(self).e == old(self).a && final(self).f == old(self).b
                    && final(self).g == old(self).c && final(self).h == old(self).d,
                Err(e) => e == Error::CoefficientOverflow,
            },
    {
        let _ = self.turn();
        match self.reflect() {
            Ok(_) => Ok(Primer::Ground),
            Err(e) => Err(e),
        }
    }

    /// Decide the output primer from the image of the square, or report
    /// that more input is needed first.  On a decision the corresponding
    /// output transform is already folded in, and the whole image of the
    /// square is pinned to the region the primer names.
    fn primer_egest(&mut self) -> (r: Result<Option<Option<Primer>>, Error>)
        requires
            amen4(old(self).e as int, old(self).f as int, old(self).g as int, old(self).h as int),
        ensures
            final(self).x == old(self).x, final(self).y == old(self).y,
            ({
                let a0 = old(self).a as int;
                let b0 = old(self).b as int;
                let c0 = old(self).c as int;
                let d0 = old(self).d as int;
                let e0 = old(self).e as int;
                let f0 = old(self).f as int;
                let g0 = old(self).g as int;
                let h0 = old(self).h as int;
                match r {
                    Ok(Some(pr)) => match pr {
                        None => *final(self) == *old(self)
                            && comb_above(a0, b0, c0, d0, e0, f0, g0, h0, 0, 1)
                            && comb_below(a0, b0, c0, d0, e0, f0, g0, h0, 1, 1),
                        Some(Primer::Turn) => final(self).a == old(self).e
                            && final(self).b == old(self).f
                            && final(self).c == old(self).g && final(self).d == old(self).h
                            && final(self).e == old(self).a && final(self).f == old(self).b
                            && final(self).g == old(self).c && final(self).h == old(self).d
                            && comb_above(a0, b0, c0, d0, e0, f0, g0, h0, 1, 1),
                        Some(Primer::Reflect) => final(self).a as int == -a0
                            && final(self).b as int == -b0
                            && final(self).c as int == -c0 && final(self).d as int == -d0
                            && final(self).e == old(self).e && final(self).f == old(self).f
                            && final(self).g == old(self).g && final(self).h == old(self).h
                            && comb_above(a0, b0, c0, d0, e0, f0, g0, h0, -1, 1)
                            && comb_below(a0, b0, c0, d0, e0, f0, g0, h0, 0, 1),
                        Some(Primer::Ground) => final(self).a as int == -e0
                            && final(self).b as int == -f0
                            && final(self).c as int == -g0 && final(self).d as int == -h0
                            && final(self).e == old(self).a && final(self).f == old(self).b
                            && final(self).g == old(self).c && final(self).h == old(self).d
                            && comb_below(a0, b0, c0, d0, e0, f0, g0, h0, -1, 1),
                    },
                    Ok(None) => *final(self) == *old(self),
                    Err(e) => e == Error::CoefficientOverflow,
                }
            }),
    {
        let ghost a0 = self.a as int;
        let ghost b0 = self.b as int;
        let ghost c0 = self.c as int;
        let ghost d0 = self.d as int;
        let ghost e0 = self.e as int;
        let ghost f0 = self.f as int;
        let ghost g0 = self.g as int;
        let ghost h0 = self.h as int;
        let ex = match self.image_extremes() {
            Ok(e) => e,
            Err(e) => { return Err(e); },
        };
        let (nmin, dmin, nmax, dmax) = match ex {
            Some(t) => t,
            None => { return Ok(None); },
        };
        if support::less_than_minus_one(nmax, dmax) {
            proof {
                c_corners(a0, b0, c0, d0, e0, f0, g0, h0, -1, 1,
                    nmin as int, dmin as int, nmax as int, dmax as int, true);
            }
            match self.ground() {
                Ok(p) => Ok(Some(Some(p))),
                Err(e) => Err(e),
            }
        } else if support::greater_than_minus_one(nmin, dmin) && support::less_than_zero(nmax, dmax) {
            proof {
                c_corners(a0, b0, c0, d0, e0, f0, g0, h0, -1, 1,
                    nmin as int, dmin as int, nmax as int, dmax as int, false);
                c_corners(a0, b0, c0, d0, e0, f0, g0, h0, 0, 1,
                    nmin as int, dmin as int, nmax as int, dmax as int, true);
            }
            match self.reflect() {
                Ok(p) => Ok(Some(Some(p))),
                Err(e) => Err(e),
            }
        } else if support::greater_than_zero(nmin, dmin) && support::less_than_one(nmax, dmax) {
            proof {
                c_corners(a0, b0, c0, d0, e0, f0, g0, h0, 0, 1,
                    nmin as int, dmin as int, nmax as int, dmax as int, false);
                c_corners(a0, b0, c0, d0, e0, f0, g0, h0, 1, 1,
                    nmin as int, dmin as int, nmax as int, dmax as int, true);
            }
            Ok(Some(None))
        } else if support::greater_than_one(nmin, dmin) {
            proof {
                c_corners(a0, b0, c0, d0, e0, f0, g0, h0, 1, 1,
                    nmin as int, dmin as int, nmax as int, dmax as int, false);
            }
            Ok(Some(Some(self.turn())))
        } else {
            Ok(None)
        }
    }

    /// The one-variable coefficients left for `y` when `x` exhausts at one
    /// half, halved while the `x`-indexed coefficients are all even.
    fn value_at_end_of_x(&self) -> (r: Result<(isize, isize, isize, isize), Error>)
        ensures
            match r {
                Ok((ny, n, dy, d)) => (2 * (ny as int) == self.a as int + 2 * (self.c as int)
                        && 2 * (n as int) == self.b as int + 2 * (self.d as int)
                        && 2 * (dy as int) == self.e as int + 2 * (self.g as int)
                        && 2 * (d as int) == self.f as int + 2 * (self.h as int))
                    || (ny as int == self.a as int + 2 * (self.c as int)
                        && n as int == self.b as int + 2 * (self.d as int)
                        && dy as int == self.e as int + 2 * (self.g as int)
                        && d as int == self.f as int + 2 * (self.h as int)),
                Err(e) => e == Error::CoefficientOverflow,
            },
    {
        if support::is_even(self.a) && support::is_even(self.b) && support::is_even(self.e)
            && support::is_even(self.f) {
            let ny: i128 = (self.c as i128) + ((support::half(self.a)) as i128);
            let n: i128 = (self.d as i128) + ((support::half(self.b)) as i128);
            let dy: i128 = (self.g as i128) + ((support::half(self.e)) as i128);
            let d: i128 = (self.h as i128) + ((support::half(self.f)) as i128);
            let ny = match support::fit(ny) { Ok(v) => v, Err(e) => { return Err(e); } };
            let n = match support::fit(n) { Ok(v) => v, Err(e) => { return Err(e); } };
            let dy = match support::fit(dy) { Ok(v) => v, Err(e) => { return Err(e); } };
            let d = match support::fit(d) { Ok(v) => v, Err(e) => { return Err(e); } };
            return Ok((ny, n, dy, d));
        }
        let ny: i128 = (self.a as i128) + 2 * (self.c as i128);
        let n: i128 = (self.b as i128) + 2 * (self.d as i128);
        let dy: i128 = (self.e as i128) + 2 * (self.g as i128);
        let d: i128 = (self.f as i128) + 2 * (self.h as i128);
        let ny = match support::fit(ny) { Ok(v) => v, Err(e) => { return Err(e); } };
        let n = match support::fit(n) { Ok(v) => v, Err(e) => { return Err(e); } };
        let dy = match support::fit(dy) { Ok(v) => v, Err(e) => { return Err(e); } };
        let d = match support::fit(d) { Ok(v) => v, Err(e) => { return Err(e); } };
        Ok((ny, n, dy, d))
    }

    /// The one-variable coefficients left for `x` when `y` exhausts at one
    /// half, halved while the `y`-indexed coefficients are all even.
    fn value_at_end_of_y(&self) -> (r: Result<(isize, isize, isize, isize), Error>)
        ensures
            match r {
                Ok((nx, n, dx, d)) => (2 * (nx as int) == self.a as int + 2 * (self.b as int)
                        && 2 * (n as int) == self.c as int + 2 * (self.d as int)
                        && 2 * (dx as int) == self.e as int + 2 * (self.f as int)
                        && 2 * (d as int) == self.g as int + 2 * (self.h as int))
                    || (nx as int == self.a as int + 2 * (self.b as int)
                        && n as int == self.c as int + 2 * (self.d as int)
                        && dx as int == self.e as int + 2 * (self.f as int)
                        && d as int == self.g as int + 2 * (self.h as int)),
                Err(e) => e == Error::CoefficientOverflow,
            },
    {
        if support::is_even(self.a) && support::is_even(self.c) && support::is_even(self.e)
            && support::is_even(self.g) {
            let nx: i128 = (self.b as i128) + ((support::half(self.a)) as i128);
            let n: i128 = (self.d as i128) + ((support::half(self.c)) as i128);
            let dx: i128 = (self.f as i128) + ((support::half(self.e)) as i128);
            let d: i128 = (self.h as i128) + ((support::half(self.g)) as i128);
            let nx = match support::fit(nx) { Ok(v) => v, Err(e) => { return Err(e); } };
            let n = match support::fit(n) { Ok(v) => v, Err(e) => { return Err(e); } };
            let dx = match support::fit(dx) { Ok(v) => v, Err(e) => { return Err(e); } };
            let d = match support::fit(d) { Ok(v) => v, Err(e) => { return Err(e); } };
            return Ok((nx, n, dx, d));
        }
        let nx: i128 = (self.a as i128) + 2 * (self.b as i128);
        let n: i128 = (self.c as i128) + 2 * (self.d as i128);
        let dx: i128 = (self.e as i128) + 2 * (self.f as i128);
        let d: i128 = (self.g as i128) + 2 * (self.h as i128);
        let nx = match support::fit(nx) { Ok(v) => v, Err(e) => { return Err(e); } };
        let n = match support::fit(n) { Ok(v) => v, Err(e) => { return Err(e); } };
        let dx = match support::fit(dx) { Ok(v) => v, Err(e) => { return Err(e); } };
        let d = match support::fit(d) { Ok(v) => v, Err(e) => { return Err(e); } };
        Ok((nx, n, dx, d))
    }

    /// Fold one halving of `x` into the coefficients.
    fn amplify_x(&mut self) -> (r: Result<(), Error>)
        ensures
            final(self).x == old(self).x, final(self).y == old(self).y,
            match r {
                Ok(_) => (2 * (final(self).a as int) == old(self).a as int
                        && 2 * (final(self).b as int) == old(self).b as int
                        && 2 * (final(self).e as int) == old(self).e as int
                        && 2 * (final(self).f as int) == old(self).f as int
                        && final(self).c == old(self).c && final(self).d == old(self).d
                        && final(self).g == old(self).g && final(self).h == old(self).h)
                    || (final(self).a == old(self).a && final(self).b == old(self).b
                        && final(self).e == old(self).e && final(self).f == old(self).f
                        && final(self).c as int == 2 * (old(self).c as int)
                        && final(self).d as int == 2 * (old(self).d as int)
                        && final(self).g as int == 2 * (old(self).g as int)
                        && final(self).h as int == 2 * (old(self).h as int)),
                Err(e) => e == Error::CoefficientOverflow,
            },
    {
        if support::is_even(self.a) && support::is_even(self.b) && support::is_even(self.e)
            && support::is_even(self.f) {
            self.a = support::half(self.a);
            self.b = support::half(self.b);
            self.e = support::half(self.e);
            self.f = support::half(self.f);
        } else {
            let nc = match support::cdbl(self.c) { Ok(v) => v, Err(e) => { return Err(e); } };
            let nd = match support::cdbl(self.d) { Ok(v) => v, Err(e) => { return Err(e); } };
            let ng = match support::cdbl(self.g) { Ok(v) => v, Err(e) => { return Err(e); } };
            let nh = match support::cdbl(self.h) { Ok(v) => v, Err(e) => { return Err(e); } };
            self.c = nc; self.d = nd; self.g = ng; self.h = nh;
        }
        Ok(())
    }

    /// Fold one halving of `y` into the coefficients.
    fn amplify_y(&mut self) -> (r: Result<(), Error>)
        ensures
            final(self).x == old(self).x, final(self).y == old(self).y,
            match r {
                Ok(_) => (2 * (final(self).a as int) == old(self).a as int
                        && 2 * (final(self).c as int) == old(self).c as int
                        && 2 * (final(self).e as int) == old(self).e as int
                        && 2 * (final(self).g as int) == old(self).g as int
                        && final(self).b == old(self).b && final(self).d == old(self).d
                        && final(self).f == old(self).f && final(self).h == old(self).h)
                    || (final(self).a == old(self).a && final(self).c == old(self).c
                        && final(self).e == old(self).e && final(self).g == old(self).g
                        && final(self).b as int == 2 * (old(self).b as int)
                        && final(self).d as int == 2 * (old(self).d as int)
                        && final(self).f as int == 2 * (old(self).f as int)
                        && final(self).h as int == 2 * (old(self).h as int)),
                Err(e) => e == Error::CoefficientOverflow,
            },
    {
        if support::is_even(self.a) && support::is_even(self.c) && support::is_even(self.e)
            && support::is_even(self.g) {
            self.a = support::half(self.a);
            self.c = support::half(self.c);
            self.e = support::half(self.e);
            self.g = support::half(self.g);
        } else {
            let nb = match support::cdbl(self.b) { Ok(v) => v, Err(e) => { return Err(e); } };
            let nd = match support::cdbl(self.d) { Ok(v) => v, Err(e) => { return Err(e); } };
            let nf = match support::cdbl(self.f) { Ok(v) => v, Err(e) => { return Err(e); } };
            let nh = match support::cdbl(self.h) { Ok(v) => v, Err(e) => { return Err(e); } };
            self.b = nb; self.d = nd; self.f = nf; self.h = nh;
        }
        Ok(())
    }

    /// Exchange the two coefficient rows indexed by `x`.
    fn turn_x(&mut self)
        ensures
            final(self).x == old(self).x, final(self).y == old(self).y,
            final(self).a == old(self).c && final(self).b == old(self).d
                && final(self).c == old(self).a && final(self).d == old(self).b
                && final(self).e == old(self).g && final(self).f == old(self).h
                && final(self).g == old(self).e && final(self).h == old(self).f,
    {
        let t = self.a; self.a = self.c; self.c = t;
        let t = self.b; self.b = self.d; self.d = t;
        let t = self.e; self.e = self.g; self.g = t;
        let t = self.f; self.f = self.h; self.h = t;
    }

    /// Exchange the two coefficient columns indexed by `y`.
    fn turn_y(&mut self)
        ensures
            final(self).x == old(self).x, final(self).y == old(self).y,
            final(self).a == old(self).b && final(self).b == old(self).a
                && final(self).c == old(self).d && final(self).d == old(self).c
                && final(self).e == old(self).f && final(self).f == old(self).e
                && final(self).g == old(self).h && final(self).h == old(self).g,
    {
        let t = self.a; self.a = self.b; self.b = t;
        let t = self.c; self.c = self.d; self.d = t;
        let t = self.e; self.e = self.f; self.f = t;
        let t = self.g; self.g = self.h; self.h = t;
    }

    /// Add the `x`-indexed rows into the constant rows.
    fn shift_x(&mut self) -> (r: Result<(), Error>)
        ensures
            final(self).x == old(self).x, final(self).y == old(self).y,
            match r {
                Ok(_) => final(self).a == old(self).a && final(self).b == old(self).b
                    && final(self).e == old(self).e && final(self).f == old(self).f
                    && final(self).c as int == old(self).c as int + old(self).a as int
                    && final(self).d as int == old(self).d as int + old(self).b as int
                    && final(self).g as int == old(self).g as int + old(self).e as int
                    && final(self).h as int == old(self).h as int + old(self).f as int,
                Err(e) => e == Error::CoefficientOverflow,
            },
    {
        let nc = match support::cadd(self.c, self.a) { Ok(v) => v, Err(e) => { return Err(e); } };
        let nd = match support::cadd(self.d, self.b) { Ok(v) => v, Err(e) => { return Err(e); } };
        let ng = match support::cadd(self.g, self.e) { Ok(v) => v, Err(e) => { return Err(e); } };
        let nh = match support::cadd(self.h, self.f) { Ok(v) => v, Err(e) => { return Err(e); } };
        self.c = nc; self.d = nd; self.g = ng; self.h = nh;
        Ok(())
    }

    /// Add the `y`-indexed columns into the constant columns.
    fn shift_y(&mut self) -> (r: Result<(), Error>)
        ensures
            final(self).x == old(self).x, final(self).y == old(self).y,
            match r {
                Ok(_) => final(self).a == old(self).a && final(self).c == old(self).c
                    && final(self).e == old(self).e && final(self).g == old(self).g
                    && final(self).b as int == old(self).b as int + old(self).a as int
                    && final(self).d as int == old(self).d as int + old(self).c as int
                    && final(self).f as int == old(self).f as int + old(self).e as int
                    && final(self).h as int == old(self).h as int + old(self).g as int,
                Err(e) => e == Error::CoefficientOverflow,
            },
    {
        let nb = match support::cadd(self.b, self.a) { Ok(v) => v, Err(e) => { return Err(e); } };
        let nd = match support::cadd(self.d, self.c) { Ok(v) => v, Err(e) => { return Err(e); } };
        let nf = match support::cadd(self.f, self.e) { Ok(v) => v, Err(e) => { return Err(e); } };
        let nh = match support::cadd(self.h, self.g) { Ok(v) => v, Err(e) => { return Err(e); } };
        self.b = nb; self.d = nd; self.f = nf; self.h = nh;
        Ok(())
    }

    /// Fold one reciprocate-and-subtract step of `x` into the coefficients.
    fn uncover_x(&mut self) -> (r: Result<(), Error>)
        ensures
            final(self).x == old(self).x, final(self).y == old(self).y,
            match r {
                Ok(_) => final(self).a == old(self).c && final(self).b == old(self).d
                    && final(self).c as int == old(self).a as int + old(self).c as int
                    && final(self).d as int == old(self).b as int + old(self).d as int
                    && final(self).e == old(self).g && final(self).f == old(self).h
                    && final(self).g as int == old(self).e as int + old(self).g as int
                    && final(self).h as int == old(self).f as int + old(self).h as int,
                Err(e) => e == Error::CoefficientOverflow,
            },
    {
        self.turn_x();
        self.shift_x()
    }

    /// Fold one reciprocate-and-subtract step of `y` into the coefficients.
    fn uncover_y(&mut self) -> (r: Result<(), Error>)
        ensures
            final(self).x == old(self).x, final(self).y == old(self).y,
            match r {
                Ok(_) => final(self).a == old(self).b
                    && final(self).b as int == old(self).a as int + old(self).b as int
                    && final(self).c == old(self).d
                    && final(self).d as int == old(self).c as int + old(self).d as int
                    && final(self).e == old(self).f
                    && final(self).f as int == old(self).e as int + old(self).f as int
                    && final(self).g == old(self).h
                    && final(self).h as int == old(self).g as int + old(self).h as int,
                Err(e) => e == Error::CoefficientOverflow,
            },
    {
        self.turn_y();
        self.shift_y()
    }

    /// Emit a halving of the output value.
    fn amplify(&mut self) -> (r: Result<Reduction, Error>)
        ensures
            final(self).x == old(self).x, final(self).y == old(self).y,
            match r {
                Ok(sym) => sym == Reduction::Amplify
                    && ((final(self).a == old(self).a && final(self).b == old(self).b
                        && final(self).c == old(self).c && final(self).d == old(self).d
                        && 2 * (final(self).e as int) == old(self).e as int
                        && 2 * (final(self).f as int) == old(self).f as int
                        && 2 * (final(self).g as int) == old(self).g as int
                        && 2 * (final(self).h as int) == old(self).h as int)
                    || (final(self).a as int == 2 * (old(self).a as int)
                        && final(self).b as int == 2 * (old(self).b as int)
                        && final(self).c as int == 2 * (old(self).c as int)
                        && final(self).d as int == 2 * (old(self).d as int)
                        && final(self).e == old(self).e && final(self).f == old(self).f
                        && final(self).g == old(self).g && final(self).h == old(self).h)),
                Err(e) => e == Error::CoefficientOverflow,
            },
    {
        if support::is_even(self.e) && support::is_even(self.f) && support::is_even(self.g)
            && support::is_even(self.h) {
            self.e = support::half(self.e);
            self.f = support::half(self.f);
            self.g = support::half(self.g);
            self.h = support::half(self.h);
        } else {
            let na = match support::cdbl(self.a) { Ok(v) => v, Err(e) => { return Err(e); } };
            let nb = match support::cdbl(self.b) { Ok(v) => v, Err(e) => { return Err(e); } };
            let nc = match support::cdbl(self.c) { Ok(v) => v, Err(e) => { return Err(e); } };
            let nd = match support::cdbl(self.d) { Ok(v) => v, Err(e) => { return Err(e); } };
            self.a = na; self.b = nb; self.c = nc; self.d = nd;
        }
        Ok(Reduction::Amplify)
    }

    /// Emit a reciprocate-and-subtract step of the output value.
    fn uncover(&mut self) -> (r: Result<Reduction, Error>)
        ensures
            final(self).x == old(self).x, final(self).y == old(self).y,
            match r {
                Ok(sym) => sym == Reduction::Uncover
                    && final(self).a as int == old(self).e as int - old(self).a as int
                    && final(self).b as int == old(self).f as int - old(self).b as int
                    && final(self).c as int == old(self).g as int - old(self).c as int
                    && final(self).d as int == old(self).h as int - old(self).d as int
                    && final(self).e == old(self).a && final(self).f == old(self).b
                    && final(self).g == old(self).c && final(self).h == old(self).d,
                Err(e) => e == Error::CoefficientOverflow,
            },
    {
        let t = self.a; self.a = self.e; self.e = t;
        let t = self.b; self.b = self.f; self.f = t;
        let t = self.c; self.c = self.g; self.g = t;
        let t = self.d; self.d = self.h; self.h = t;
        let na = match support::csub(self.a, self.e) { Ok(v) => v, Err(e) => { return Err(e); } };
        let nb = match support::csub(self.b, self.f) { Ok(v) => v, Err(e) => { return Err(e); } };
        let nc = match support::csub(self.c, self.g) { Ok(v) => v, Err(e) => { return Err(e); } };
        let nd = match support::csub(self.d, self.h) { Ok(v) => v, Err(e) => { return Err(e); } };
        self.a = na; self.b = nb; self.c = nc; self.d = nd;
        Ok(Reduction::Uncover)
    }

    /// Negate the `x`-indexed coefficient rows.
    fn reflect_x(&mut self) -> (r: Result<(), Error>)
        ensures
            final(self).x == old(self).x, final(self).y == old(self).y,
            match r {
                Ok(_) => final(self).a as int == -(old(self).a as int)
                    && final(self).b as int == -(old(self).b as int)
                    && final(self).e as int == -(old(self).e as int)
                    && final(self).f as int == -(old(self).f as int)
                    && final(self).c == old(self).c && final(self).d == old(self).d
                    && final(self).g == old(self).g && final(self).h == old(self).h,
                Err(e) => e == Error::CoefficientOverflow,
            },
    {
        let na = match support::csub(0, self.a) { Ok(v) => v, Err(e) => { return Err(e); } };
        let nb = match support::csub(0, self.b) { Ok(v) => v, Err(e) => { return Err(e); } };
        let ne = match support::csub(0, self.e) { Ok(v) => v, Err(e) => { return Err(e); } };
        let nf = match support::csub(0, self.f) { Ok(v) => v, Err(e) => { return Err(e); } };
        self.a = na; self.b = nb; self.e = ne; self.f = nf;
        Ok(())
    }

    /// Negate the `y`-indexed coefficient columns.
    fn reflect_y(&mut self) -> (r: Result<(), Error>)
        ensures
            final(self).x == old(self).x, final(self).y == old(self).y,
            match r {
                Ok(_) => final(self).a as int == -(old(self).a as int)
                    && final(self).c as int == -(old(self).c as int)
                    && final(self).e as int == -(old(self).e as int)
                    && final(self).g as int == -(old(self).g as int)
                    && final(self).b == old(self).b && final(self).d == old(self).d
                    && final(self).f == old(self).f && final(self).h == old(self).h,
                Err(e) => e == Error::CoefficientOverflow,
            },
    {
        let na = match support::csub(0, self.a) { Ok(v) => v, Err(e) => { return Err(e); } };
        let nc = match support::csub(0, self.c) { Ok(v) => v, Err(e) => { return Err(e); } };
        let ne = match support::csub(0, self.e) { Ok(v) => v, Err(e) => { return Err(e); } };
        let ng = match support::csub(0, self.g) { Ok(v) => v, Err(e) => { return Err(e); } };
        self.a = na; self.c = nc; self.e = ne; self.g = ng;
        Ok(())
    }

    /// Decide the next output symbol from the image of the square against
    /// one half, or report that more input is needed first.
    fn reduction_egest(&mut self) -> (r: Result<Option<Reduction>, Error>)
        requires
            amen4(old(self).e as int, old(self).f as int, old(self).g as int, old(self).h as int),
        ensures
            final(self).x == old(self).x, final(self).y == old(self).y,
            ({
                let a0 = old(self).a as int;
                let b0 = old(self).b as int;
                let c0 = old(self).c as int;
                let d0 = old(self).d as int;
                let e0 = old(self).e as int;
                let f0 = old(self).f as int;
                let g0 = old(self).g as int;
                let h0 = old(self).h as int;
                match r {
                    Ok(Some(Reduction::Amplify)) => comb_below(a0, b0, c0, d0, e0, f0, g0, h0, 1, 2)
                        && (final(self).a == old(self).a && final(self).b == old(self).b
                                && final(self).c == old(self).c && final(self).d == old(self).d
                                && 2 * (final(self).e as int) == e0
                                && 2 * (final(self).f as int) == f0
                                && 2 * (final(self).g as int) == g0
                                && 2 * (final(self).h as int) == h0
                            || final(self).a as int == 2 * a0 && final(self).b as int == 2 * b0
                                && final(self).c as int == 2 * c0 && final(self).d as int == 2 * d0
                                && final(self).e == old(self).e && final(self).f == old(self).f
                                && final(self).g == old(self).g && final(self).h == old(self).h),
                    Ok(Some(Reduction::Uncover)) => comb_above(a0, b0, c0, d0, e0, f0, g0, h0, 1, 2)
                        && final(self).a as int == e0 - a0 && final(self).b as int == f0 - b0
                        && final(self).c as int == g0 - c0 && final(self).d as int == h0 - d0
                        && final(self).e == old(self).a && final(self).f == old(self).b
                        && final(self).g == old(self).c && final(self).h == old(self).d,
                    Ok(None) => *final(self) == *old(self),
                    Err(e) => e == Error::CoefficientOverflow,
                }
            }),
    {
        let ghost a0 = self.a as int;
        let ghost b0 = self.b as int;
        let ghost c0 = self.c as int;
        let ghost d0 = self.d as int;
        let ghost e0 = self.e as int;
        let ghost f0 = self.f as int;
        let ghost g0 = self.g as int;
        let ghost h0 = self.h as int;
        let ex = match self.image_extremes() {
            Ok(e) => e,
            Err(e) => { return Err(e); },
        };
        let (nmin, dmin, nmax, dmax) = match ex {
            Some(t) => t,
            None => { return Ok(None); },
        };
        if support::less_than_one_half(nmax, dmax) {
            proof {
                c_corners(a0, b0, c0, d0, e0, f0, g0, h0, 1, 2,
                    nmin as int, dmin as int, nmax as int, dmax as int, true);
            }
            match self.amplify() {
                Ok(s) => Ok(Some(s)),
                Err(e) => Err(e),
            }
        } else if support::greater_than_one_half(nmin, dmin) {
            proof {
                c_corners(a0, b0, c0, d0, e0, f0, g0, h0, 1, 2,
                    nmin as int, dmin as int, nmax as int, dmax as int, false);
            }
            match self.uncover() {
                Ok(s) => Ok(Some(s)),
                Err(e) => Err(e),
            }
        } else {
            Ok(None)
        }
    }

    /// Ingest one symbol from each inner stream in turn; when one stream
    /// exhausts, collapse to the one-variable transform over the other.
    fn reduction_ingest(&mut self) -> (r: Result<Option<Number>, Error>)
        requires
            old(self).x.wf(), old(self).y.wf(),
            old(self).x.modeled(), old(self).y.modeled(),
        ensures
            ({
                let p0 = bil(old(self).a as int, old(self).b as int, old(self).c as int, old(self).d as int,
                    old(self).x.vn(), old(self).x.vd(), old(self).y.vn(), old(self).y.vd());
                let q0 = bil(old(self).e as int, old(self).f as int, old(self).g as int, old(self).h as int,
                    old(self).x.vn(), old(self).x.vd(), old(self).y.vn(), old(self).y.vd());
                match r {
                    Ok(None) => final(self).x.wf() && final(self).y.wf()
                        && final(self).x.modeled() && final(self).y.modeled()
                        && final(self).x.height() <= old(self).x.height()
                        && final(self).y.height() <= old(self).y.height()
                        && cl_len(final(self).x.vn(), final(self).x.vd())
                            + cl_len(final(self).y.vn(), final(self).y.vd())
                            < cl_len(old(self).x.vn(), old(self).x.vd())
                                + cl_len(old(self).y.vn(), old(self).y.vd())
                        && scaled(
                            bil(final(self).a as int, final(self).b as int, final(self).c as int, final(self).d as int,
                                final(self).x.vn(), final(self).x.vd(), final(self).y.vn(), final(self).y.vd()),
                            bil(final(self).e as int, final(self).f as int, final(self).g as int, final(self).h as int,
                                final(self).x.vn(), final(self).x.vd(), final(self).y.vn(), final(self).y.vd()),
                            p0, q0)
                        && (comb_inv(old(self).a as int, old(self).b as int, old(self).c as int, old(self).d as int,
                                old(self).e as int, old(self).f as int, old(self).g as int, old(self).h as int)
                            ==> comb_inv(final(self).a as int, final(self).b as int, final(self).c as int, final(self).d as int,
                                final(self).e as int, final(self).f as int, final(self).g as int, final(self).h as int)),
                    Ok(Some(v)) => v.wf() && v.modeled() && v.vd() > 0 && q0 != 0
                        && v.height() <= old(self).x.height() + old(self).y.height() + 2
                        && v.strategy_rank() <= 1
                        && v.vn() * q0 == p0 * v.vd(),
                    Err(e) => (e is DivisionByZero || e is CoefficientOverflow)
                        && (e == Error::DivisionByZero ==> q0 == 0),
                }
            }),
        decreases old(self).x.height() + old(self).y.height() + 1, 7nat,
    {
        proof {
            lemma_clog_val(self.x);
            lemma_clog_val(self.y);
        }
        let ghost a0 = self.a as int;
        let ghost b0 = self.b as int;
        let ghost c0 = self.c as int;
        let ghost d0 = self.d as int;
        let ghost e0 = self.e as int;
        let ghost f0 = self.f as int;
        let ghost g0 = self.g as int;
        let ghost h0 = self.h as int;
        let ghost bxn = self.x.vn();
        let ghost bxd = self.x.vd();
        let ghost byn = self.y.vn();
        let ghost byd = self.y.vd();
        let ghost p0 = bil(a0, b0, c0, d0, bxn, bxd, byn, byd);
        let ghost q0 = bil(e0, f0, g0, h0, bxn, bxd, byn, byd);
        let sx = match self.x.egest() {
            Ok(s) => s,
            Err(e) => { return Err(e); },
        };
        proof {
            lemma_clog_val(self.x);
            if sx is Some {
                crate::rat::lemma_cl_len_step(sx, bxn, bxd, self.x.vn(), self.x.vd());
            }
        }
        match sx {
            None => {
                let (ny, n, dy, d) = match self.value_at_end_of_x() {
                    Ok(t) => t,
                    Err(e) => { return Err(e); },
                };
                let mut taken = Clog::from_strategy(Strategy::One(one::new()));
                core::mem::swap(&mut taken, &mut self.y);
                proof {
                    c_exh_x(a0, b0, c0, d0, e0, f0, g0, h0, bxn, bxd, byn, byd);
                    c_slice_y_end(a0, b0, c0, d0, e0, f0, g0, h0,
                        ny as int, n as int, dy as int, d as int, byn, byd);
                    lemma_scaled_trans(
                        av(ny as int, n as int, byn, byd), av(dy as int, d as int, byn, byd),
                        bil(a0, b0, c0, d0, 1, 2, byn, byd), bil(e0, f0, g0, h0, 1, 2, byn, byd),
                        p0, q0,
                    );
                }
                let num = match homographic::new(Number::Other(None, taken), ny, n, dy, d) {
                    Ok(v) => v,
                    Err(e) => {
                        proof {
                            assert(sgn(av(dy as int, d as int, byn, byd)) == sgn(q0));
                        }
                        return Err(e);
                    },
                };
                proof {
                    h_transfer(num.vn(), num.vd(),
                        av(ny as int, n as int, byn, byd), av(dy as int, d as int, byn, byd),
                        p0, q0);
                }
                return Ok(Some(num));
            },
            Some(Reduction::Amplify) => {
                match self.amplify_x() { Ok(_) => {}, Err(e) => { return Err(e); } }
            },
            Some(Reduction::Uncover) => {
                match self.uncover_x() { Ok(_) => {}, Err(e) => { return Err(e); } }
            },
        }
        proof {
            c_fold_value(a0, b0, c0, d0, e0, f0, g0, h0,
                self.a as int, self.b as int, self.c as int, self.d as int,
                self.e as int, self.f as int, self.g as int, self.h as int,
                bxn, bxd, self.x.vn(), self.x.vd(), byn, byd, true, sx == Some(Reduction::Uncover));
            if comb_inv(a0, b0, c0, d0, e0, f0, g0, h0) {
                assert forall|xp: int, xq: int, yp: int, yq: int| 0 < xp < xq && 0 < yp < yq
                    implies #[trigger] comb_ok(self.a as int, self.b as int, self.c as int, self.d as int,
                        self.e as int, self.f as int, self.g as int, self.h as int, xp, xq, yp, yq) by {
                    if sx == Some(Reduction::Uncover) {
                        assert(comb_ok(a0, b0, c0, d0, e0, f0, g0, h0, xq, xp + xq, yp, yq));
                    } else {
                        assert(comb_ok(a0, b0, c0, d0, e0, f0, g0, h0, xp, 2 * xq, yp, yq));
                    }
                    c_ok_ingest_x(a0, b0, c0, d0, e0, f0, g0, h0,
                        self.a as int, self.b as int, self.c as int, self.d as int,
                        self.e as int, self.f as int, self.g as int, self.h as int,
                        xp, xq, yp, yq, sx == Some(Reduction::Uncover));
                }
            }
        }
        let ghost a1 = self.a as int;
        let ghost b1 = self.b as int;
        let ghost c1 = self.c as int;
        let ghost d1 = self.d as int;
        let ghost e1 = self.e as int;
        let ghost f1 = self.f as int;
        let ghost g1 = self.g as int;
        let ghost h1 = self.h as int;
        let ghost p1 = bil(a1, b1, c1, d1, self.x.vn(), self.x.vd(), byn, byd);
        let ghost q1 = bil(e1, f1, g1, h1, self.x.vn(), self.x.vd(), byn, byd);
        let ghost mxn = self.x.vn();
        let ghost mxd = self.x.vd();
        let sy = match self.y.egest() {
            Ok(s) => s,
            Err(e) => { return Err(e); },
        };
        proof {
            lemma_clog_val(self.y);
            if sy is Some {
                crate::rat::lemma_cl_len_step(sy, byn, byd, self.y.vn(), self.y.vd());
            }
        }
        match sy {
            None => {
                let (nx2, n, dx2, d) = match self.value_at_end_of_y() {
                    Ok(t) => t,
                    Err(e) => { return Err(e); },
                };
                let mut taken = Clog::from_strategy(Strategy::One(one::new()));
                core::mem::swap(&mut taken, &mut self.x);
                proof {
                    c_exh_y(a1, b1, c1, d1, e1, f1, g1, h1, byn, byd, mxn, mxd);
                    c_slice_x_end(a1, b1, c1, d1, e1, f1, g1, h1,
                        nx2 as int, n as int, dx2 as int, d as int, mxn, mxd);
                    lemma_scaled_trans(
                        av(nx2 as int, n as int, mxn, mxd), av(dx2 as int, d as int, mxn, mxd),
                        bil(a1, b1, c1, d1, mxn, mxd, 1, 2), bil(e1, f1, g1, h1, mxn, mxd, 1, 2),
                        p1, q1,
                    );
                    lemma_scaled_trans(
                        av(nx2 as int, n as int, mxn, mxd), av(dx2 as int, d as int, mxn, mxd),
                        p1, q1, p0, q0,
                    );
                }
                let num = match homographic::new(Number::Other(None, taken), nx2, n, dx2, d) {
                    Ok(v) => v,
                    Err(e) => {
                        proof {
                            assert(sgn(av(dx2 as int, d as int, mxn, mxd)) == sgn(q0));
                        }
                        return Err(e);
                    },
                };
                proof {
                    h_transfer(num.vn(), num.vd(),
                        av(nx2 as int, n as int, mxn, mxd), av(dx2 as int, d as int, mxn, mxd),
                        p0, q0);
                }
                return Ok(Some(num));
            },
            Some(Reduction::Amplify) => {
                match self.amplify_y() { Ok(_) => {}, Err(e) => { return Err(e); } }
            },
            Some(Reduction::Uncover) => {
                match self.uncover_y() { Ok(_) => {}, Err(e) => { return Err(e); } }
            },
        }
        proof {
            c_fold_value(a1, b1, c1, d1, e1, f1, g1, h1,
                self.a as int, self.b as int, self.c as int, self.d as int,
                self.e as int, self.f as int, self.g as int, self.h as int,
                byn, byd, self.y.vn(), self.y.vd(), mxn, mxd, false, sy == Some(Reduction::Uncover));
            lemma_scaled_trans(
                bil(self.a as int, self.b as int, self.c as int, self.d as int,
                    mxn, mxd, self.y.vn(), self.y.vd()),
                bil(self.e as int, self.f as int, self.g as int, self.h as int,
                    mxn, mxd, self.y.vn(), self.y.vd()),
                p1, q1, p0, q0,
            );
            if comb_inv(a0, b0, c0, d0, e0, f0, g0, h0) {
                assert forall|xp: int, xq: int, yp: int, yq: int| 0 < xp < xq && 0 < yp < yq
                    implies #[trigger] comb_ok(self.a as int, self.b as int, self.c as int, self.d as int,
                        self.e as int, self.f as int, self.g as int, self.h as int, xp, xq, yp, yq) by {
                    if sy == Some(Reduction::Uncover) {
                        assert(comb_ok(a1, b1, c1, d1, e1, f1, g1, h1, xp, xq, yq, yp + yq));
                    } else {
                        assert(comb_ok(a1, b1, c1, d1, e1, f1, g1, h1, xp, xq, yp, 2 * yq));
                    }
                    c_ok_ingest_y(a1, b1, c1, d1, e1, f1, g1, h1,
                        self.a as int, self.b as int, self.c as int, self.d as int,
                        self.e as int, self.f as int, self.g as int, self.h as int,
                        xp, xq, yp, yq, sy == Some(Reduction::Uncover));
                }
            }
        }
        Ok(None)
    }

    /// Prime the transform: ingest until the image of the square settles in
    /// one region of the line, emitting that region's primer, or collapse
    /// to a one-variable transform when an inner stream exhausts.  The
    /// result denotes exactly the transform's value at the streams' values.
    #[verifier::loop_isolation(false)]
    fn prime(self) -> (r: Result<Number, Error>)
        requires
            self.x.wf(), self.y.wf(),
            self.x.modeled(), self.y.modeled(),
        ensures
            ({
                let p0 = bil(self.a as int, self.b as int, self.c as int, self.d as int,
                    self.x.vn(), self.x.vd(), self.y.vn(), self.y.vd());
                let q0 = bil(self.e as int, self.f as int, self.g as int, self.h as int,
                    self.x.vn(), self.x.vd(), self.y.vn(), self.y.vd());
                match r {
                    Ok(v) => v.wf() && v.modeled() && v.vd() > 0 && v.vn() * q0 == p0 * v.vd(),
                    Err(e) => (e is DivisionByZero || e is CoefficientOverflow)
                        && (e == Error::DivisionByZero ==> q0 == 0),
                }
            }),
        decreases self.x.height() + self.y.height() + 1, 8nat,
    {
        proof {
            lemma_clog_val(self.x);
            lemma_clog_val(self.y);
        }
        let ghost p0 = bil(self.a as int, self.b as int, self.c as int, self.d as int,
            self.x.vn(), self.x.vd(), self.y.vn(), self.y.vd());
        let ghost q0 = bil(self.e as int, self.f as int, self.g as int, self.h as int,
            self.x.vn(), self.x.vd(), self.y.vn(), self.y.vd());
        let mut cb = self;
        loop
            invariant
                cb.x.wf(), cb.y.wf(),
                cb.x.modeled(), cb.y.modeled(),
                cb.x.height() <= self.x.height(),
                cb.y.height() <= self.y.height(),
                scaled(
                    bil(cb.a as int, cb.b as int, cb.c as int, cb.d as int,
                        cb.x.vn(), cb.x.vd(), cb.y.vn(), cb.y.vd()),
                    bil(cb.e as int, cb.f as int, cb.g as int, cb.h as int,
                        cb.x.vn(), cb.x.vd(), cb.y.vn(), cb.y.vd()),
                    p0, q0,
                ),
            decreases cl_len(cb.x.vn(), cb.x.vd()) + cl_len(cb.y.vn(), cb.y.vd()),
        {
            proof {
                lemma_clog_val(cb.x);
                lemma_clog_val(cb.y);
            }
            let ghost xvn = cb.x.vn();
            let ghost xvd = cb.x.vd();
            let ghost yvn = cb.y.vn();
            let ghost yvd = cb.y.vd();
            let ghost ca = cb.a as int;
            let ghost cbb = cb.b as int;
            let ghost cc = cb.c as int;
            let ghost cd = cb.d as int;
            let ghost ce = cb.e as int;
            let ghost cf = cb.f as int;
            let ghost cg = cb.g as int;
            let ghost ch = cb.h as int;
            let ghost aa = bil(ca, cbb, cc, cd, xvn, xvd, yvn, yvd);
            let ghost bb = bil(ce, cf, cg, ch, xvn, xvd, yvn, yvd);
            if cb.are_singularities_outside_domain() {
                let decided = match cb.primer_egest() {
                    Ok(dd) => dd,
                    Err(e) => { return Err(e); },
                };
                if let Some(primer) = decided {
                    proof {
                        assert forall|xp: int, xq: int, yp: int, yq: int|
                            0 < xp < xq && 0 < yp < yq
                            implies #[trigger] comb_ok(cb.a as int, cb.b as int, cb.c as int, cb.d as int,
                                cb.e as int, cb.f as int, cb.g as int, cb.h as int, xp, xq, yp, yq) by {
                            match primer {
                                None => {
                                    assert(comb_cmp(ca, cbb, cc, cd, ce, cf, cg, ch, 0, 1, xp, xq, yp, yq) > 0);
                                    assert(comb_cmp(ca, cbb, cc, cd, ce, cf, cg, ch, 1, 1, xp, xq, yp, yq) < 0);
                                },
                                Some(Primer::Turn) => {
                                    assert(comb_cmp(ca, cbb, cc, cd, ce, cf, cg, ch, 1, 1, xp, xq, yp, yq) > 0);
                                },
                                Some(Primer::Reflect) => {
                                    assert(comb_cmp(ca, cbb, cc, cd, ce, cf, cg, ch, -1, 1, xp, xq, yp, yq) > 0);
                                    assert(comb_cmp(ca, cbb, cc, cd, ce, cf, cg, ch, 0, 1, xp, xq, yp, yq) < 0);
                                },
                                Some(Primer::Ground) => {
                                    assert(comb_cmp(ca, cbb, cc, cd, ce, cf, cg, ch, -1, 1, xp, xq, yp, yq) < 0);
                                },
                            }
                            c_ok_primer(ca, cbb, cc, cd, ce, cf, cg, ch, xp, xq, yp, yq, primer);
                        }
                        match primer {
                            None => {
                                assert(comb_cmp(ca, cbb, cc, cd, ce, cf, cg, ch, 0, 1, xvn, xvd, yvn, yvd) > 0);
                                assert(aa * bb > 0 && bb != 0) by (nonlinear_arith)
                                    requires (aa * 1 - 0 * bb) * bb > 0;
                                crate::strategy::homographic::h_map_none(aa, bb);
                            },
                            Some(Primer::Turn) => {
                                assert(comb_cmp(ca, cbb, cc, cd, ce, cf, cg, ch, 1, 1, xvn, xvd, yvn, yvd) > 0);
                                assert(bb != 0 && aa != 0) by (nonlinear_arith)
                                    requires (aa * 1 - 1 * bb) * bb > 0;
                                crate::strategy::homographic::h_map_turn(aa, bb);
                            },
                            Some(Primer::Reflect) => {
                                assert(comb_cmp(ca, cbb, cc, cd, ce, cf, cg, ch, 0, 1, xvn, xvd, yvn, yvd) < 0);
                                assert(aa * bb < 0 && bb != 0) by (nonlinear_arith)
                                    requires (aa * 1 - 0 * bb) * bb < 0;
                                crate::strategy::homographic::h_map_reflect(aa, bb);
                                c_neg_row(ca, cbb, cc, cd, xvn, xvd, yvn, yvd);
                            },
                            Some(Primer::Ground) => {
                                assert(comb_cmp(ca, cbb, cc, cd, ce, cf, cg, ch, -1, 1, xvn, xvd, yvn, yvd) < 0);
                                assert(bb != 0 && aa != 0) by (nonlinear_arith)
                                    requires (aa * 1 - (-1) * bb) * bb < 0;
                                crate::strategy::homographic::h_map_ground(aa, bb);
                                c_neg_row(ce, cf, cg, ch, xvn, xvd, yvn, yvd);
                            },
                        }
                        assert(cb.x.vn() == xvn && cb.x.vd() == xvd
                            && cb.y.vn() == yvn && cb.y.vd() == yvd);
                    }
                    let v = Number::Other(primer, Clog::from_strategy(
                        Strategy::Combine(Box::new(cb)),
                    ));
                    proof {
                        assert(v.wf());
                        assert(v.vn() * bb == aa * v.vd() && v.vd() > 0);
                        h_transfer(v.vn(), v.vd(), aa, bb, p0, q0);
                    }
                    return Ok(v);
                }
            }
            match cb.reduction_ingest() {
                Ok(Some(num)) => {
                    proof {
                        h_transfer(num.vn(), num.vd(), aa, bb, p0, q0);
                    }
                    return Ok(num);
                },
                Ok(None) => {
                    proof {
                        lemma_scaled_trans(
                            bil(cb.a as int, cb.b as int, cb.c as int, cb.d as int,
                                cb.x.vn(), cb.x.vd(), cb.y.vn(), cb.y.vd()),
                            bil(cb.e as int, cb.f as int, cb.g as int, cb.h as int,
                                cb.x.vn(), cb.x.vd(), cb.y.vn(), cb.y.vd()),
                            aa, bb, p0, q0,
                        );
                    }
                },
                Err(e) => {
                    proof {
                        if e == Error::DivisionByZero {
                            assert(sgn(bb) == sgn(q0));
                        }
                    }
                    return Err(e);
                },
            }
        }
    }

    /// Pull the next output symbol, or hand off to the one-variable
    /// transform over the surviving stream when the other exhausts.  An
    /// emitted symbol relates the old and new denoted values exactly; a
    /// hand-off keeps the denoted value.
    #[verifier::loop_isolation(false)]
    pub(crate) fn egest(&mut self) -> (r: Result<Step, Error>)
        requires
            old(self).wf(),
            old(self).modeled_inner(),
        ensures
            match r {
                Ok(Step::Emit(sym)) => final(self).wf() && final(self).modeled_inner()
                    && final(self).height() <= old(self).height()
                    && step_rel(sym, old(self).vn(), old(self).vd(), final(self).vn(), final(self).vd()),
                Ok(Step::Become(st)) => st.wf() && st.modeled()
                    && crate::strategy::rank(st) <= 1
                    && crate::strategy::height(st) <= old(self).height()
                    && rat_eq(st.vn(), st.vd(), old(self).vn(), old(self).vd())
                    && st.vd() > 0,
                Err(e) => e == Error::CoefficientOverflow,
            },
        decreases old(self).height(), 8nat,
    {
        proof {
            lemma_combine_val(*old(self));
        }
        loop
            invariant
                self.wf(),
                self.x.modeled(), self.y.modeled(),
                self.x.height() <= old(self).x.height(),
                self.y.height() <= old(self).y.height(),
                rat_eq(self.vn(), self.vd(), old(self).vn(), old(self).vd()),
            decreases cl_len(self.x.vn(), self.x.vd()) + cl_len(self.y.vn(), self.y.vd()),
        {
            proof {
                lemma_clog_val(self.x);
                lemma_clog_val(self.y);
                lemma_combine_val(*self);
            }
            let ghost xvn = self.x.vn();
            let ghost xvd = self.x.vd();
            let ghost yvn = self.y.vn();
            let ghost yvd = self.y.vd();
            let ghost ca = self.a as int;
            let ghost cbb = self.b as int;
            let ghost cc = self.c as int;
            let ghost cd = self.d as int;
            let ghost ce = self.e as int;
            let ghost cf = self.f as int;
            let ghost cg = self.g as int;
            let ghost ch = self.h as int;
            let ghost aa = bil(ca, cbb, cc, cd, xvn, xvd, yvn, yvd);
            let ghost bb = bil(ce, cf, cg, ch, xvn, xvd, yvn, yvd);
            let ghost cvn = self.vn();
            let ghost cvd = self.vd();
            proof {
                assert(comb_ok(ca, cbb, cc, cd, ce, cf, cg, ch, xvn, xvd, yvn, yvd));
            }
            if self.are_singularities_outside_domain() {
                let decided = match self.reduction_egest() {
                    Ok(dd) => dd,
                    Err(e) => { return Err(e); },
                };
                if let Some(sym) = decided {
                    proof {
                        assert(cvn == crate::rat::pn(aa, bb) && cvd == crate::rat::pd(aa, bb));
                        match sym {
                            Reduction::Amplify => {
                                assert(comb_cmp(ca, cbb, cc, cd, ce, cf, cg, ch, 1, 2, xvn, xvd, yvn, yvd) < 0);
                                if self.a as int == ca && self.b as int == cbb
                                    && self.c as int == cc && self.d as int == cd
                                    && 2 * (self.e as int) == ce && 2 * (self.f as int) == cf
                                    && 2 * (self.g as int) == cg && 2 * (self.h as int) == ch {
                                    c_half_row(ce, cf, cg, ch,
                                        self.e as int, self.f as int, self.g as int, self.h as int,
                                        xvn, xvd, yvn, yvd);
                                } else {
                                    c_half_row(self.a as int, self.b as int, self.c as int, self.d as int,
                                        ca, cbb, cc, cd, xvn, xvd, yvn, yvd);
                                }
                                crate::strategy::homographic::h_emit_amp(aa, bb,
                                    bil(self.a as int, self.b as int, self.c as int, self.d as int,
                                        xvn, xvd, yvn, yvd),
                                    bil(self.e as int, self.f as int, self.g as int, self.h as int,
                                        xvn, xvd, yvn, yvd));
                                assert forall|xp: int, xq: int, yp: int, yq: int|
                                    0 < xp < xq && 0 < yp < yq
                                    implies #[trigger] comb_ok(self.a as int, self.b as int, self.c as int, self.d as int,
                                        self.e as int, self.f as int, self.g as int, self.h as int, xp, xq, yp, yq) by {
                                    assert(comb_ok(ca, cbb, cc, cd, ce, cf, cg, ch, xp, xq, yp, yq));
                                    assert(comb_cmp(ca, cbb, cc, cd, ce, cf, cg, ch, 1, 2, xp, xq, yp, yq) < 0);
                                    c_ok_amp(ca, cbb, cc, cd, ce, cf, cg, ch,
                                        self.a as int, self.b as int, self.c as int, self.d as int,
                                        self.e as int, self.f as int, self.g as int, self.h as int,
                                        xp, xq, yp, yq);
                                }
                            },
                            Reduction::Uncover => {
                                assert(comb_cmp(ca, cbb, cc, cd, ce, cf, cg, ch, 1, 2, xvn, xvd, yvn, yvd) > 0);
                                c_sub_row(ce, cf, cg, ch, ca, cbb, cc, cd, xvn, xvd, yvn, yvd);
                                crate::strategy::homographic::h_emit_unc(aa, bb,
                                    bil(self.a as int, self.b as int, self.c as int, self.d as int,
                                        xvn, xvd, yvn, yvd),
                                    bil(self.e as int, self.f as int, self.g as int, self.h as int,
                                        xvn, xvd, yvn, yvd));
                                assert forall|xp: int, xq: int, yp: int, yq: int|
                                    0 < xp < xq && 0 < yp < yq
                                    implies #[trigger] comb_ok(self.a as int, self.b as int, self.c as int, self.d as int,
                                        self.e as int, self.f as int, self.g as int, self.h as int, xp, xq, yp, yq) by {
                                    assert(comb_ok(ca, cbb, cc, cd, ce, cf, cg, ch, xp, xq, yp, yq));
                                    assert(comb_cmp(ca, cbb, cc, cd, ce, cf, cg, ch, 1, 2, xp, xq, yp, yq) > 0);
                                    c_sub_row(ce, cf, cg, ch, ca, cbb, cc, cd, xp, xq, yp, yq);
                                    c_ok_unc(ca, cbb, cc, cd, ce, cf, cg, ch, xp, xq, yp, yq);
                                }
                            },
                        }
                        assert(self.wf());
                        lemma_combine_val(*self);
                        assert(self.vn() == crate::rat::pn(
                            bil(self.a as int, self.b as int, self.c as int, self.d as int,
                                xvn, xvd, yvn, yvd),
                            bil(self.e as int, self.f as int, self.g as int, self.h as int,
                                xvn, xvd, yvn, yvd)));
                        assert(step_rel(Some(sym), cvn, cvd, self.vn(), self.vd()));
                        crate::rat::lemma_step_congr(Some(sym), cvn, cvd,
                            old(self).vn(), old(self).vd(), self.vn(), self.vd());
                    }
                    return Ok(Step::Emit(Some(sym)));
                }
            }
            match self.reduction_ingest() {
                Ok(Some(num)) => {
                    proof {
                        h_unit(num.vn(), num.vd(), aa, bb);
                        h_shape(num);
                    }
                    match num {
                        Number::Other(None, clog) => {
                            proof {
                                assert(cvn == crate::rat::pn(aa, bb) && cvd == crate::rat::pd(aa, bb));
                                h_to_norm(clog.vn(), clog.vd(), aa, bb);
                                crate::rat::lemma_rat_eq_trans(
                                    clog.vn(), clog.vd(), cvn, cvd,
                                    old(self).vn(), old(self).vd());
                            }
                            return Ok(Step::Become(clog.strategy));
                        },
                        Number::Other(Some(_), _) => {
                            proof {
                                assert(false);
                            }
                            return Err(Error::Internal);
                        },
                        Number::Special(_) => {
                            proof {
                                assert(false);
                            }
                            return Err(Error::Internal);
                        },
                    }
                },
                Ok(None) => {
                    proof {
                        h_scaled_pair(
                            bil(self.a as int, self.b as int, self.c as int, self.d as int,
                                self.x.vn(), self.x.vd(), self.y.vn(), self.y.vd()),
                            bil(self.e as int, self.f as int, self.g as int, self.h as int,
                                self.x.vn(), self.x.vd(), self.y.vn(), self.y.vd()),
                            aa, bb);
                        crate::rat::lemma_rat_eq_trans(
                            self.vn(), self.vd(), cvn, cvd, old(self).vn(), old(self).vd());
                    }
                },
                Err(e) => {
                    proof {
                        if e == Error::DivisionByZero {
                            assert(false);
                        }
                    }
                    return Err(e);
                },
            }
        }
    }
}

/// A returned value with the unit-interval bound must be a bare stream.
proof fn h_shape(v: Number)
    requires
        v.wf(),
        0 < v.vn() < v.vd(),
    ensures
        v matches Number::Other(None, _),
{
    match v {
        Number::Special(_) => {},
        Number::Other(pr, c) => {
            lemma_clog_val(c);
        },
    }
}

/// A value pair tied to a pair inside the unit interval is inside it too.
proof fn h_unit(vn: int, vd: int, aa: int, bb: int)
    requires
        vn * bb == aa * vd,
        vd > 0,
        0 < aa * bb,
        aa * bb < bb * bb,
    ensures
        0 < vn < vd,
{
    assert((vn * bb) * bb == (aa * bb) * vd && 0 < vn * (bb * bb)
        && vn * (bb * bb) < vd * (bb * bb)) by (nonlinear_arith)
        requires vn * bb == aa * vd && vd > 0 && 0 < aa * bb && aa * bb < bb * bb;
    assert(0 < vn && vn < vd) by (nonlinear_arith)
        requires 0 < vn * (bb * bb) && vn * (bb * bb) < vd * (bb * bb) && bb != 0;
}

/// A cross relation against a pair carries over to its re-signed form.
proof fn h_to_norm(nvn: int, nvd: int, aa: int, bb: int)
    requires
        nvn * bb == aa * nvd,
        bb != 0,
    ensures
        nvn * crate::rat::pd(aa, bb) == crate::rat::pn(aa, bb) * nvd,
{
    if bb < 0 {
        assert(nvn * (-bb) == (-aa) * nvd) by (nonlinear_arith)
            requires nvn * bb == aa * nvd;
    }
}

/// The current pair keeps the normalized value it is scaled from.
proof fn h_scaled_pair(an: int, ad: int, aa: int, bb: int)
    requires
        scaled(an, ad, aa, bb),
        bb != 0,
    ensures
        ad != 0,
        rat_eq(crate::rat::pn(an, ad), crate::rat::pd(an, ad),
            crate::rat::pn(aa, bb), crate::rat::pd(aa, bb)),
{
    crate::rat::lemma_pos_cross(an, ad, aa, bb);
}

/// The wide value fits the coefficient range.
fn fits(v: i128) -> (r: bool)
    ensures
        r == (isize::MIN as int <= v as int <= isize::MAX as int),
{
    v >= (isize::MIN as i128) && v <= (isize::MAX as i128)
}

/// The two pairs are opposite infinities.
fn opposed(an: i128, ad: i128, bn: i128, bd: i128) -> (r: bool)
    requires
        crate::rat::non_zero(an as int, ad as int),
        crate::rat::non_zero(bn as int, bd as int),
    ensures
        !r ==> crate::rat::compat(an as int, ad as int, bn as int, bd as int),
        !r ==> crate::rat::compat(bn as int, bd as int, an as int, ad as int),
{
    let r = ad == 0 && bd == 0 && ((an > 0) != (bn > 0));
    proof {
        if ad == 0 && bd == 0 && !r {
            assert((an as int) != 0 && (bn as int) != 0);
            assert(((an as int) > 0) == ((bn as int) > 0)
                ==> (an as int) * (bn as int) >= 0 && (bn as int) * (an as int) >= 0)
                by (nonlinear_arith)
                requires (an as int) != 0 && (bn as int) != 0;
        }
    }
    r
}

proof fn h_seed(a: int, b: int)
    requires
        crate::rat::non_zero(a, b),
    ensures
        crate::rat::ext_le(a, b, a, b),
        crate::rat::compat(a, b, a, b),
{
    crate::rat::lemma_ext_total(a, b, a, b);
    if b == 0 {
        assert(!(a * a < 0)) by (nonlinear_arith);
    }
}

/// Construct the number
/// `(nxy·xy + nx·x + ny·y + n) / (dxy·xy + dx·x + dy·y + d)` over two
/// existing numbers: the lazy two-variable transform.  A boundary value of
/// either operand substitutes its closed form and collapses to the
/// one-variable transform over the other.
pub fn new(
    x: Number, y: Number,
    nxy: isize, nx: isize, ny: isize, n: isize,
    dxy: isize, dx: isize, dy: isize, d: isize,
) -> (r: Result<Number, Error>)
    requires
        x.wf(), y.wf(),
        x.modeled(), y.modeled(),
    ensures
        ({
            let bn = bil(nxy as int, nx as int, ny as int, n as int, x.vn(), x.vd(), y.vn(), y.vd());
            let bd = bil(dxy as int, dx as int, dy as int, d as int, x.vn(), x.vd(), y.vn(), y.vd());
            match r {
                Ok(v) => v.wf() && v.modeled() && v.vd() > 0 && v.vn() * bd == bn * v.vd(),
                Err(e) => (e is DivisionByZero || e is CoefficientOverflow)
                    && (e == Error::DivisionByZero ==> bd == 0),
            }
        }),
{
    let (a, b, c, d2, e, f, g, h) = (nxy, nx, ny, n, dxy, dx, dy, d);
    proof {
        h_num_shape(x);
        h_num_shape(y);
    }
    match x {
        Number::Special(sx) => {
            let (p0, p1, q0, q1) = match sx {
                Special::NegOne => {
                    let p0 = match support::csub(c, a) { Ok(v) => v, Err(er) => { return Err(er); } };
                    let p1 = match support::csub(d2, b) { Ok(v) => v, Err(er) => { return Err(er); } };
                    let q0 = match support::csub(g, e) { Ok(v) => v, Err(er) => { return Err(er); } };
                    let q1 = match support::csub(h, f) { Ok(v) => v, Err(er) => { return Err(er); } };
                    (p0, p1, q0, q1)
                },
                Special::Zero => (c, d2, g, h),
                Special::PosOne => {
                    let p0 = match support::cadd(c, a) { Ok(v) => v, Err(er) => { return Err(er); } };
                    let p1 = match support::cadd(d2, b) { Ok(v) => v, Err(er) => { return Err(er); } };
                    let q0 = match support::cadd(g, e) { Ok(v) => v, Err(er) => { return Err(er); } };
                    let q1 = match support::cadd(h, f) { Ok(v) => v, Err(er) => { return Err(er); } };
                    (p0, p1, q0, q1)
                },
            };
            proof {
                h_bil_subst_x(a as int, b as int, c as int, d2 as int, x.vn(),
                    y.vn(), y.vd(), p0 as int, p1 as int);
                h_bil_subst_x(e as int, f as int, g as int, h as int, x.vn(),
                    y.vn(), y.vd(), q0 as int, q1 as int);
            }
            homographic::new(y, p0, p1, q0, q1)
        },
        Number::Other(px, cx) => {
            match y {
                Number::Special(sy) => {
                    let (p0, p1, q0, q1) = match sy {
                        Special::NegOne => {
                            let p0 = match support::csub(b, a) { Ok(v) => v, Err(er) => { return Err(er); } };
                            let p1 = match support::csub(d2, c) { Ok(v) => v, Err(er) => { return Err(er); } };
                            let q0 = match support::csub(f, e) { Ok(v) => v, Err(er) => { return Err(er); } };
                            let q1 = match support::csub(h, g) { Ok(v) => v, Err(er) => { return Err(er); } };
                            (p0, p1, q0, q1)
                        },
                        Special::Zero => (b, d2, f, h),
                        Special::PosOne => {
                            let p0 = match support::cadd(b, a) { Ok(v) => v, Err(er) => { return Err(er); } };
                            let p1 = match support::cadd(d2, c) { Ok(v) => v, Err(er) => { return Err(er); } };
                            let q0 = match support::cadd(f, e) { Ok(v) => v, Err(er) => { return Err(er); } };
                            let q1 = match support::cadd(h, g) { Ok(v) => v, Err(er) => { return Err(er); } };
                            (p0, p1, q0, q1)
                        },
                    };
                    proof {
                        h_bil_subst_y(a as int, b as int, c as int, d2 as int,
                            Number::Other(px, cx).vn(), Number::Other(px, cx).vd(),
                            y.vn(), p0 as int, p1 as int);
                        h_bil_subst_y(e as int, f as int, g as int, h as int,
                            Number::Other(px, cx).vn(), Number::Other(px, cx).vd(),
                            y.vn(), q0 as int, q1 as int);
                    }
                    homographic::new(Number::Other(px, cx), p0, p1, q0, q1)
                },
                Number::Other(py, cy) => {
                    proof {
                        lemma_clog_val(cx);
                        lemma_clog_val(cy);
                    }
                    let ghost xvn = x.vn();
                    let ghost xvd = x.vd();
                    let ghost yvn = y.vn();
                    let ghost yvd = y.vd();
                    let ghost bn0 = bil(a as int, b as int, c as int, d2 as int, xvn, xvd, yvn, yvd);
                    let ghost bd0 = bil(e as int, f as int, g as int, h as int, xvn, xvd, yvn, yvd);
                    let mut cb = Combine { x: cx, y: cy, a, b, c, d: d2, e, f, g, h };
                    match px {
                        Some(Primer::Turn) => { cb.turn_x(); },
                        Some(Primer::Reflect) => {
                            match cb.reflect_x() { Ok(_) => {}, Err(er) => { return Err(er); } }
                        },
                        Some(Primer::Ground) => {
                            cb.turn_x();
                            match cb.reflect_x() { Ok(_) => {}, Err(er) => { return Err(er); } }
                        },
                        None => {},
                    }
                    proof {
                        c_fold_row_x(a as int, b as int, c as int, d2 as int,
                            cb.a as int, cb.b as int, cb.c as int, cb.d as int,
                            px, cb.x.vn(), cb.x.vd(), xvn, xvd, yvn, yvd);
                        c_fold_row_x(e as int, f as int, g as int, h as int,
                            cb.e as int, cb.f as int, cb.g as int, cb.h as int,
                            px, cb.x.vn(), cb.x.vd(), xvn, xvd, yvn, yvd);
                    }
                    let ghost a1 = cb.a as int;
                    let ghost b1 = cb.b as int;
                    let ghost c1 = cb.c as int;
                    let ghost d1 = cb.d as int;
                    let ghost e1 = cb.e as int;
                    let ghost f1 = cb.f as int;
                    let ghost g1 = cb.g as int;
                    let ghost h1 = cb.h as int;
                    let ghost cxn = cb.x.vn();
                    let ghost cxd = cb.x.vd();
                    let ghost bn1 = bil(a1, b1, c1, d1, cxn, cxd, yvn, yvd);
                    let ghost bd1 = bil(e1, f1, g1, h1, cxn, cxd, yvn, yvd);
                    match py {
                        Some(Primer::Turn) => { cb.turn_y(); },
                        Some(Primer::Reflect) => {
                            match cb.reflect_y() { Ok(_) => {}, Err(er) => { return Err(er); } }
                        },
                        Some(Primer::Ground) => {
                            cb.turn_y();
                            match cb.reflect_y() { Ok(_) => {}, Err(er) => { return Err(er); } }
                        },
                        None => {},
                    }
                    proof {
                        c_fold_row_y(a1, b1, c1, d1,
                            cb.a as int, cb.b as int, cb.c as int, cb.d as int,
                            py, cb.y.vn(), cb.y.vd(), yvn, yvd, cxn, cxd);
                        c_fold_row_y(e1, f1, g1, h1,
                            cb.e as int, cb.f as int, cb.g as int, cb.h as int,
                            py, cb.y.vn(), cb.y.vd(), yvn, yvd, cxn, cxd);
                    }
                    let ghost pp = bil(cb.a as int, cb.b as int, cb.c as int, cb.d as int,
                        cb.x.vn(), cb.x.vd(), cb.y.vn(), cb.y.vd());
                    let ghost qq = bil(cb.e as int, cb.f as int, cb.g as int, cb.h as int,
                        cb.x.vn(), cb.x.vd(), cb.y.vn(), cb.y.vd());
                    proof {
                        assert((pp == bn0 && qq == bd0) || (pp == -bn0 && qq == -bd0));
                    }
                    let r = cb.prime();
                    proof {
                        if r is Ok {
                            let v = r->Ok_0;
                            assert(v.vn() * bd0 == bn0 * v.vd()) by (nonlinear_arith)
                                requires v.vn() * qq == pp * v.vd()
                                    && ((pp == bn0 && qq == bd0) || (pp == -bn0 && qq == -bd0));
                        } else if r->Err_0 == Error::DivisionByZero {
                            assert(bd0 == 0);
                        }
                    }
                    r
                },
            }
        },
    }
}

/// The value pair of a number, for each of its shapes.
proof fn h_num_shape(x: Number)
    requires
        x.wf(),
    ensures
        x.vd() > 0,
        x is Special ==> x.vd() == 1 && (x.vn() == -1 || x.vn() == 0 || x.vn() == 1),
{
    match x {
        Number::Special(_) => {},
        Number::Other(_, c) => {
            lemma_clog_val(c);
        },
    }
}

/// Substituting a boundary value for one operand turns the bilinear form
/// into the one-variable form over the other operand.
proof fn h_bil_subst_x(
    a: int, b: int, c: int, d2: int, xv: int, yp: int, yq: int, p0: int, p1: int,
)
    requires
        xv == -1 ==> p0 == c - a && p1 == d2 - b,
        xv == 0 ==> p0 == c && p1 == d2,
        xv == 1 ==> p0 == c + a && p1 == d2 + b,
        xv == -1 || xv == 0 || xv == 1,
    ensures
        bil(a, b, c, d2, xv, 1, yp, yq) == av(p0, p1, yp, yq),
{
    assert(a * xv * yp + b * xv * yq + c * 1 * yp + d2 * 1 * yq == p0 * yp + p1 * yq)
        by (nonlinear_arith)
        requires
            (xv == -1 && p0 == c - a && p1 == d2 - b)
                || (xv == 0 && p0 == c && p1 == d2)
                || (xv == 1 && p0 == c + a && p1 == d2 + b);
}

/// Substituting a boundary value for the second operand turns the bilinear
/// form into the one-variable form over the first.
proof fn h_bil_subst_y(
    a: int, b: int, c: int, d2: int, xp: int, xq: int, yv: int, p0: int, p1: int,
)
    requires
        yv == -1 ==> p0 == b - a && p1 == d2 - c,
        yv == 0 ==> p0 == b && p1 == d2,
        yv == 1 ==> p0 == b + a && p1 == d2 + c,
        yv == -1 || yv == 0 || yv == 1,
    ensures
        bil(a, b, c, d2, xp, xq, yv, 1) == av(p0, p1, xp, xq),
{
    assert(a * xp * yv + b * xp * 1 + c * xq * yv + d2 * xq * 1 == p0 * xp + p1 * xq)
        by (nonlinear_arith)
        requires
            (yv == -1 && p0 == b - a && p1 == d2 - c)
                || (yv == 0 && p0 == b && p1 == d2)
                || (yv == 1 && p0 == b + a && p1 == d2 + c);
}

} // verus!
