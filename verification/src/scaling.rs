//! One side of an image scaled to a pixel budget, counted in token units.
//!
//! An image of `area` pixels fits a budget of `pixels` when each of its sides is multiplied by
//! the square root of `pixels / area`. The scale factor, the scaled side and its quotient by the
//! token side are binary64 numbers, each rounded once. The lemmas bound what these roundings do:
//! the square of the length that is counted is within one part in `2^48` of the exact one.

use crate::binary64;
use crate::binary64::{Binary64, BIAS, MANT_HI, MANT_LO};
use vstd::arithmetic::power::*;
use vstd::arithmetic::power2::*;
use vstd::prelude::*;

verus! {

/// `2^48`: squares of scaled sides are exact to one part in this many.
pub const PRECISION: u64 = 0x1_0000_0000_0000;

/// Side `x` of an image of `area` pixels, shrunk to a budget of `pixels`, in units of `f`.
pub open spec fn shrunk_length(x: nat, area: nat, pixels: nat, f: nat) -> binary64::Float {
    let beta = binary64::of_int(area).over(binary64::of_int(pixels)).root();
    binary64::of_int(x).over(beta).over(binary64::of_int(f))
}

/// Whole units of `f` in the shrunk side; none when the budget is empty.
pub open spec fn shrunk_units(x: nat, area: nat, pixels: nat, f: nat) -> nat {
    if pixels == 0 {
        0
    } else {
        shrunk_length(x, area, pixels, f).floor()
    }
}

/// Side `x` of an image of `area` pixels, grown to a budget of `pixels`, in units of `f`.
pub open spec fn grown_length(x: nat, area: nat, pixels: nat, f: nat) -> binary64::Float {
    let beta = binary64::of_int(pixels).over(binary64::of_int(area)).root();
    binary64::of_int(x).times(beta).over(binary64::of_int(f))
}

/// Units of `f` that cover the grown side.
pub open spec fn grown_units(x: nat, area: nat, pixels: nat, f: nat) -> nat {
    grown_length(x, area, pixels, f).ceil()
}

/// `v / u` is within the precision of the length, in units of `f`, that side `x` has when an
/// image with sides `x` and `y` is scaled to `pixels`: `(v / u * f)^2` is about `x * pixels / y`.
pub open spec fn is_scaled(v: nat, u: nat, x: nat, y: nat, pixels: nat, f: nat) -> bool {
    let z = v * f;
    (PRECISION - 1) * (x * pixels * (u * u)) <= PRECISION * (z * z * y) <= (PRECISION + 1) * (x
        * pixels * (u * u))
}

/// `2^53 - 1`, over `2^53` the most that a rounding takes away.
spec fn low() -> int {
    MANT_HI - 1
}

/// `2^53 + 1`, over `2^53` the most that a rounding adds.
spec fn high() -> int {
    MANT_HI + 1
}

/// `a` and `b` are `n` roundings apart, or less.
spec fn near(n: nat, a: int, b: int) -> bool {
    &&& a >= 0
    &&& b >= 0
    &&& a * pow(low(), n) <= b * pow(high(), n)
    &&& b * pow(low(), n) <= a * pow(high(), n)
}

/// Multiplies two inequalities between nonnegative numbers.
proof fn lemma_mul_le(a: int, b: int, c: int, d: int)
    requires
        0 <= a <= b,
        0 <= c <= d,
    ensures
        a * c <= b * d,
{
    assert(a * c <= b * d) by (nonlinear_arith)
        requires
            0 <= a <= b,
            0 <= c <= d,
    ;
}

/// Products of near numbers are near.
proof fn lemma_near_mul(n: nat, a: int, b: int, m: nat, c: int, d: int)
    requires
        near(n, a, b),
        near(m, c, d),
    ensures
        near(n + m, a * c, b * d),
{
    lemma_pow_positive(low(), n);
    lemma_pow_positive(low(), m);
    lemma_pow_adds(low(), n, m);
    lemma_pow_adds(high(), n, m);
    let (ln, lm, hn, hm) = (pow(low(), n), pow(low(), m), pow(high(), n), pow(high(), m));
    assert(a * ln >= 0 && c * lm >= 0 && b * ln >= 0 && d * lm >= 0 && a * c >= 0 && b * d >= 0)
        by (nonlinear_arith)
        requires
            a >= 0,
            b >= 0,
            c >= 0,
            d >= 0,
            ln > 0,
            lm > 0,
    ;
    lemma_mul_le(a * ln, b * hn, c * lm, d * hm);
    lemma_mul_le(b * ln, a * hn, d * lm, c * hm);
    assert((a * c) * (ln * lm) == (a * ln) * (c * lm)) by (nonlinear_arith);
    assert((b * d) * (hn * hm) == (b * hn) * (d * hm)) by (nonlinear_arith);
    assert((b * d) * (ln * lm) == (b * ln) * (d * lm)) by (nonlinear_arith);
    assert((a * c) * (hn * hm) == (a * hn) * (c * hm)) by (nonlinear_arith);
}

/// A positive factor of both numbers can be taken out.
proof fn lemma_near_cancel(n: nat, a: int, b: int, c: int)
    requires
        near(n, a * c, b * c),
        c > 0,
    ensures
        near(n, a, b),
{
    let (ln, hn) = (pow(low(), n), pow(high(), n));
    assert(a >= 0 && b >= 0 && a * ln <= b * hn && b * ln <= a * hn) by (nonlinear_arith)
        requires
            a * c >= 0,
            b * c >= 0,
            a * c * ln <= b * c * hn,
            b * c * ln <= a * c * hn,
            c > 0,
    ;
}

/// A number is near itself.
proof fn lemma_near_refl(a: int)
    requires
        a >= 0,
    ensures
        near(0, a, a),
{
    lemma_pow0(low());
    lemma_pow0(high());
}

/// Multiplies two near numbers by the same factor.
proof fn lemma_near_scale(n: nat, a: int, b: int, c: int)
    requires
        near(n, a, b),
        c >= 0,
    ensures
        near(n, a * c, b * c),
{
    lemma_near_refl(c);
    lemma_near_mul(n, a, b, 0, c, c);
}

/// Roundings add up.
proof fn lemma_near_trans(n: nat, a: int, b: int, m: nat, c: int)
    requires
        near(n, a, b),
        near(m, b, c),
        b > 0,
    ensures
        near(n + m, a, c),
{
    lemma_near_mul(n, a, b, m, b, c);
    assert(b * c == c * b) by (nonlinear_arith);
    lemma_near_cancel(n + m, a, c, b);
}

/// One rounding of `e` gives a number near `e`.
proof fn lemma_near_rounded(v: int, e: int)
    requires
        v >= 0,
        e >= 0,
        low() * e <= MANT_HI * v <= high() * e,
    ensures
        near(1, v, e),
{
    lemma_pow1(low());
    lemma_pow1(high());
    assert(v * low() <= e * high() && e * low() <= v * high()) by (nonlinear_arith)
        requires
            low() * e <= MANT_HI * v <= high() * e,
            low() == MANT_HI - 1,
            high() == MANT_HI + 1,
            v >= 0,
    ;
}

/// The square of a rounded root is near the radicand.
proof fn lemma_near_squared(v: int, e: int)
    requires
        v >= 0,
        e >= 0,
        low() * low() * e <= MANT_HI * MANT_HI * v <= high() * high() * e,
    ensures
        near(2, v, e),
{
    lemma_pow1(low());
    lemma_pow1(high());
    lemma_pow_adds(low(), 1, 1);
    lemma_pow_adds(high(), 1, 1);
    let (l2, k2, h2) = (low() * low(), MANT_HI * MANT_HI, high() * high());
    assert(l2 <= k2 <= h2) by (nonlinear_arith)
        requires
            l2 == (MANT_HI - 1) * (MANT_HI - 1),
            k2 == MANT_HI * MANT_HI,
            h2 == (MANT_HI + 1) * (MANT_HI + 1),
            MANT_HI > 1,
    ;
    assert(v * l2 <= e * h2 && e * l2 <= v * h2) by (nonlinear_arith)
        requires
            l2 * e <= k2 * v <= h2 * e,
            l2 <= k2 <= h2,
            v >= 0,
    ;
}

/// Eleven roundings stay within the precision.
proof fn lemma_near_precision(a: int, b: int)
    requires
        near(11, a, b),
    ensures
        (PRECISION - 1) * b <= PRECISION * a <= (PRECISION + 1) * b,
{
    let (l, h) = (pow(low(), 11), pow(high(), 11));
    reveal_with_fuel(pow, 12);
    let (lo, hi) = (low(), high());
    assert(l == lo * (lo * (lo * (lo * (lo * (lo * (lo * (lo * (lo * (lo * (lo * 1)))))))))));
    assert(h == hi * (hi * (hi * (hi * (hi * (hi * (hi * (hi * (hi * (hi * (hi * 1)))))))))));
    let j = PRECISION as int;
    assert(0 < l && j * h <= (j + 1) * l && (j - 1) * h <= j * l) by (nonlinear_arith)
        requires
            l == lo * (lo * (lo * (lo * (lo * (lo * (lo * (lo * (lo * (lo * (lo * 1)))))))))),
            h == hi * (hi * (hi * (hi * (hi * (hi * (hi * (hi * (hi * (hi * (hi * 1)))))))))),
            lo == 0x1f_ffff_ffff_ffff,
            hi == 0x20_0000_0000_0001,
            j == 0x1_0000_0000_0000,
    ;
    assert((j - 1) * b <= j * a <= (j + 1) * b) by (nonlinear_arith)
        requires
            0 < l,
            l <= h,
            j * h <= (j + 1) * l,
            (j - 1) * h <= j * l,
            a * l <= b * h,
            b * l <= a * h,
            a >= 0,
            b >= 0,
            j > 1,
    ;
}

/// Sides below `2^32`, and a token side and a budget of 64 bits that are not zero.
pub open spec fn in_range(x: nat, y: nat, pixels: nat, f: nat) -> bool {
    &&& 0 < x <= u32::MAX
    &&& 0 < y <= u32::MAX
    &&& 0 < pixels <= u64::MAX
    &&& 0 < f <= u64::MAX
}

/// The area of an image is a positive number of 64 bits.
pub proof fn lemma_area(x: nat, y: nat)
    requires
        0 < x <= u32::MAX,
        0 < y <= u32::MAX,
    ensures
        0 < x * y <= u64::MAX,
{
    assert(0 < x * y <= u64::MAX) by (nonlinear_arith)
        requires
            0 < x <= u32::MAX,
            0 < y <= u32::MAX,
    ;
}

/// The rounded quotient of `n` and `d`, each near an integer, is near the quotient of these.
proof fn lemma_near_ratio(n: int, d: int, t: int, ni: int, di: int, u: int)
    requires
        near(1, n, ni * u),
        near(1, d, di * u),
        near(1, t * d, n * u),
        n > 0,
        d > 0,
        t > 0,
        u > 0,
    ensures
        near(3, t * di, ni * u),
{
    lemma_near_scale(1, d, di * u, t);
    lemma_near_scale(1, n, ni * u, u);
    assert(d * t == t * d && di * u * t == t * di * u) by (nonlinear_arith);
    assert(t * d > 0 && n * u > 0) by (nonlinear_arith)
        requires
            t > 0,
            d > 0,
            n > 0,
            u > 0,
    ;
    lemma_near_trans(1, t * di * u, t * d, 1, n * u);
    lemma_near_trans(2, t * di * u, n * u, 1, ni * u * u);
    lemma_near_cancel(3, t * di, ni * u, u);
}

/// A rounded quotient `v` of `a` and a divisor near the integer `f`, multiplied by that integer,
/// is near `a`.
proof fn lemma_near_quotient(v: int, d: int, f: int, a: int, u: int)
    requires
        near(1, v * d, a * u),
        near(1, d, f * u),
        v > 0,
        d > 0,
        u > 0,
    ensures
        near(2, v * f, a),
{
    lemma_near_scale(1, d, f * u, v);
    assert(d * v == v * d && f * u * v == v * f * u) by (nonlinear_arith);
    assert(v * d > 0) by (nonlinear_arith)
        requires
            v > 0,
            d > 0,
    ;
    lemma_near_trans(1, v * f * u, v * d, 1, a * u);
    lemma_near_cancel(2, v * f, a, u);
}

/// The roundings of a shrunk side: area `p` over budget `m` is `t`, its root is `s`, side
/// `x` over that is `a`, and `z` is what the count of units stands for.
proof fn lemma_shrunk_near(
    x: int,
    y: int,
    px: int,
    u: int,
    p: int,
    m: int,
    t: int,
    s: int,
    a: int,
    z: int,
)
    requires
        x > 0,
        y > 0,
        px > 0,
        u > 0,
        p > 0,
        m > 0,
        t > 0,
        s > 0,
        a > 0,
        z > 0,
        near(1, p, x * y * u),
        near(1, m, px * u),
        near(1, t * m, p * u),
        near(2, s * s, t * u),
        near(1, a * s, x * u * u),
        near(2, z, a),
    ensures
        near(11, z * z * y, x * px * (u * u)),
{
    lemma_near_ratio(p, m, t, x * y, px, u);
    // z * s is near x * u * u
    lemma_near_scale(2, z, a, s);
    assert(a * s > 0) by (nonlinear_arith)
        requires
            a > 0,
            s > 0,
    ;
    let e = x * u * u;
    lemma_near_trans(2, z * s, a * s, 1, e);
    lemma_near_mul(3, z * s, e, 3, z * s, e);
    // z * z * t * u is near its square
    let zz = z * z;
    assert(zz > 0 && zz * (s * s) > 0) by (nonlinear_arith)
        requires
            zz == z * z,
            z > 0,
            s > 0,
    ;
    lemma_near_scale(2, s * s, t * u, zz);
    let g = zz * (t * u);
    assert(s * s * zz == z * s * (z * s) && t * u * zz == g && s * s * zz > 0) by (nonlinear_arith)
        requires
            zz == z * z,
            g == zz * (t * u),
            z > 0,
            s > 0,
    ;
    lemma_near_trans(2, g, z * s * (z * s), 6, e * e);
    // times the budget, which turns t into the area
    lemma_near_scale(8, g, e * e, px);
    let w = zz * u;
    assert(w > 0) by (nonlinear_arith)
        requires
            w == zz * u,
            zz > 0,
            u > 0,
    ;
    lemma_near_scale(3, t * px, x * y * u, w);
    assert(t * px * w == g * px) by (nonlinear_arith)
        requires
            w == zz * u,
            g == zz * (t * u),
    ;
    assert(g * px > 0) by (nonlinear_arith)
        requires
            g == zz * (t * u),
            zz > 0,
            t > 0,
            u > 0,
            px > 0,
    ;
    lemma_near_trans(3, x * y * u * w, g * px, 8, e * e * px);
    // the area takes out a side
    let c = x * (u * u);
    assert(c > 0) by (nonlinear_arith)
        requires
            c == x * (u * u),
            x > 0,
            u > 0,
    ;
    assert(x * y * u * w == zz * y * c) by (nonlinear_arith)
        requires
            w == zz * u,
            c == x * (u * u),
    ;
    assert(e * e * px == x * px * (u * u) * c) by (nonlinear_arith)
        requires
            e == x * u * u,
            c == x * (u * u),
    ;
    lemma_near_cancel(11, zz * y, x * px * (u * u), c);
}

/// The roundings of a grown side: budget `m` over area `p` is `t`, its root is `s`, side `x`
/// times that is `a`, and `z` is what the count of units stands for.
proof fn lemma_grown_near(
    x: int,
    y: int,
    px: int,
    u: int,
    p: int,
    m: int,
    t: int,
    s: int,
    a: int,
    z: int,
)
    requires
        x > 0,
        y > 0,
        px > 0,
        u > 0,
        p > 0,
        m > 0,
        t > 0,
        s > 0,
        a > 0,
        z > 0,
        near(1, p, x * y * u),
        near(1, m, px * u),
        near(1, t * p, m * u),
        near(2, s * s, t * u),
        near(1, a, x * s),
        near(2, z, a),
    ensures
        near(11, z * z * y, x * px * (u * u)),
{
    lemma_near_ratio(m, p, t, px, x * y, u);
    // z is near x * s
    lemma_near_trans(2, z, a, 1, x * s);
    lemma_near_mul(3, z, x * s, 3, z, x * s);
    let zz = z * z;
    let xx = x * x;
    assert(xx > 0) by (nonlinear_arith)
        requires
            xx == x * x,
            x > 0,
    ;
    lemma_near_scale(2, s * s, t * u, xx);
    assert(s * s * xx == x * s * (x * s) && s * s * xx > 0) by (nonlinear_arith)
        requires
            xx == x * x,
            x > 0,
            s > 0,
    ;
    lemma_near_trans(6, zz, x * s * (x * s), 2, t * u * xx);
    // times the area, which turns t into the budget
    let area = x * y;
    assert(area > 0) by (nonlinear_arith)
        requires
            area == x * y,
            x > 0,
            y > 0,
    ;
    lemma_near_scale(8, zz, t * u * xx, area);
    let w = u * xx;
    assert(w > 0) by (nonlinear_arith)
        requires
            w == u * xx,
            u > 0,
            xx > 0,
    ;
    lemma_near_scale(3, t * area, px * u, w);
    assert(t * u * xx * area == t * area * w) by (nonlinear_arith)
        requires
            w == u * xx,
    ;
    assert(t * area * w > 0) by (nonlinear_arith)
        requires
            t > 0,
            area > 0,
            w > 0,
    ;
    lemma_near_trans(8, zz * area, t * area * w, 3, px * u * w);
    assert(zz * area == zz * y * x) by (nonlinear_arith)
        requires
            area == x * y,
    ;
    assert(px * u * w == x * px * (u * u) * x) by (nonlinear_arith)
        requires
            w == u * xx,
            xx == x * x,
    ;
    lemma_near_cancel(11, zz * y, x * px * (u * u), x);
}

/// A shrunk side is within the precision.
pub proof fn lemma_shrunk_scaled(x: nat, y: nat, pixels: nat, f: nat)
    requires
        in_range(x, y, pixels, f),
    ensures
        is_scaled(shrunk_length(x, x * y, pixels, f).num(), binary64::unit(), x, y, pixels, f),
        shrunk_length(x, x * y, pixels, f).normal(),
{
    let area = x * y;
    lemma_area(x, y);
    let (fp, fm) = (binary64::of_int(area), binary64::of_int(pixels));
    let (fx, ff) = (binary64::of_int(x), binary64::of_int(f));
    binary64::lemma_of_int_error(area);
    binary64::lemma_of_int_error(pixels);
    binary64::lemma_of_int_error(x);
    binary64::lemma_of_int_error(f);
    binary64::lemma_of_int_exact(x);
    let ft = fp.over(fm);
    binary64::lemma_over_error(fp, fm);
    let fs = ft.root();
    binary64::lemma_root_error(ft);
    let fa = fx.over(fs);
    binary64::lemma_over_error(fx, fs);
    let fv = fa.over(ff);
    binary64::lemma_over_error(fa, ff);
    lemma_pow2_pos(BIAS as nat);
    binary64::lemma_num_pos(fp);
    binary64::lemma_num_pos(fm);
    binary64::lemma_num_pos(ft);
    binary64::lemma_num_pos(fs);
    binary64::lemma_num_pos(fa);
    binary64::lemma_num_pos(ff);
    binary64::lemma_num_pos(fv);
    let u = binary64::unit() as int;
    let (p, m, t, s) = (fp.num() as int, fm.num() as int, ft.num() as int, fs.num() as int);
    let (a, d, v) = (fa.num() as int, ff.num() as int, fv.num() as int);
    let z = v * f;
    lemma_near_rounded(p, area * u);
    lemma_near_rounded(m, pixels * u);
    lemma_near_rounded(t * m, p * u);
    lemma_near_squared(s * s, t * u);
    lemma_near_rounded(a * s, x * u * u);
    lemma_near_rounded(v * d, a * u);
    lemma_near_rounded(d, f * u);
    lemma_near_quotient(v, d, f as int, a, u);
    assert(z > 0) by (nonlinear_arith)
        requires
            z == v * f,
            v > 0,
            f > 0,
    ;
    lemma_shrunk_near(x as int, y as int, pixels as int, u, p, m, t, s, a, z);
    lemma_near_precision(z * z * y, x * pixels * (u * u));
}

/// A grown side is within the precision.
pub proof fn lemma_grown_scaled(x: nat, y: nat, pixels: nat, f: nat)
    requires
        in_range(x, y, pixels, f),
    ensures
        is_scaled(grown_length(x, x * y, pixels, f).num(), binary64::unit(), x, y, pixels, f),
        grown_length(x, x * y, pixels, f).normal(),
{
    let area = x * y;
    lemma_area(x, y);
    let (fp, fm) = (binary64::of_int(area), binary64::of_int(pixels));
    let (fx, ff) = (binary64::of_int(x), binary64::of_int(f));
    binary64::lemma_of_int_error(area);
    binary64::lemma_of_int_error(pixels);
    binary64::lemma_of_int_error(x);
    binary64::lemma_of_int_error(f);
    binary64::lemma_of_int_exact(x);
    let ft = fm.over(fp);
    binary64::lemma_over_error(fm, fp);
    let fs = ft.root();
    binary64::lemma_root_error(ft);
    let fa = fx.times(fs);
    binary64::lemma_times_error(fx, fs);
    let fv = fa.over(ff);
    binary64::lemma_over_error(fa, ff);
    lemma_pow2_pos(BIAS as nat);
    binary64::lemma_num_pos(fp);
    binary64::lemma_num_pos(fm);
    binary64::lemma_num_pos(ft);
    binary64::lemma_num_pos(fs);
    binary64::lemma_num_pos(fa);
    binary64::lemma_num_pos(ff);
    binary64::lemma_num_pos(fv);
    let u = binary64::unit() as int;
    let (p, m, t, s) = (fp.num() as int, fm.num() as int, ft.num() as int, fs.num() as int);
    let (a, d, v) = (fa.num() as int, ff.num() as int, fv.num() as int);
    let z = v * f;
    lemma_near_rounded(p, area * u);
    lemma_near_rounded(m, pixels * u);
    lemma_near_rounded(t * p, m * u);
    lemma_near_squared(s * s, t * u);
    assert(x * u * s == x * s * u) by (nonlinear_arith);
    lemma_near_rounded(a * u, x * s * u);
    lemma_near_cancel(1, a, x * s, u);
    lemma_near_rounded(v * d, a * u);
    lemma_near_rounded(d, f * u);
    lemma_near_quotient(v, d, f as int, a, u);
    assert(z > 0) by (nonlinear_arith)
        requires
            z == v * f,
            v > 0,
            f > 0,
    ;
    lemma_grown_near(x as int, y as int, pixels as int, u, p, m, t, s, a, z);
    lemma_near_precision(z * z * y, x * pixels * (u * u));
}

/// Units of `f` that a scaled length holds are at most those that the exact length holds, within
/// the precision.
proof fn lemma_units_at_most(v: nat, x: nat, y: nat, pixels: nat, f: nat, u: nat)
    requires
        in_range(x, y, pixels, f),
        is_scaled(v, binary64::unit(), x, y, pixels, f),
        u * binary64::unit() <= v,
    ensures
        PRECISION * (u * f * (u * f) * y) <= (PRECISION + 1) * (x * pixels),
        u * f < 0x2_0000_0000_0000,
{
    let q = binary64::unit();
    lemma_pow2_pos(BIAS as nat);
    let side = u * f;
    let z = v * f;
    assert(side * q <= z) by (nonlinear_arith)
        requires
            side == u * f,
            z == v * f,
            u * q <= v,
    ;
    let (j, b) = (PRECISION as int, x * pixels);
    assert(j * (side * side * y) * (q * q) <= j * (z * z * y)) by (nonlinear_arith)
        requires
            side * q <= z,
            j > 0,
    ;
    assert(j * (side * side * y) <= (j + 1) * b) by (nonlinear_arith)
        requires
            j * (side * side * y) * (q * q) <= j * (z * z * y),
            j * (z * z * y) <= (j + 1) * (b * (q * q)),
            q > 0,
    ;
    assert(b <= u32::MAX * u64::MAX) by (nonlinear_arith)
        requires
            b == x * pixels,
            x <= u32::MAX,
            pixels <= u64::MAX,
    ;
    assert(side < 0x2_0000_0000_0000) by (nonlinear_arith)
        requires
            j * (side * side * y) <= (j + 1) * b,
            j == 0x1_0000_0000_0000,
            b <= u32::MAX * u64::MAX,
            y >= 1,
    ;
}

/// Units of `f` that cover a scaled length are at least those that the exact length needs, within
/// the precision.
proof fn lemma_units_at_least(v: nat, x: nat, y: nat, pixels: nat, f: nat, u: nat)
    requires
        in_range(x, y, pixels, f),
        is_scaled(v, binary64::unit(), x, y, pixels, f),
        v <= u * binary64::unit(),
    ensures
        (PRECISION - 1) * (x * pixels) <= PRECISION * (u * f * (u * f) * y),
{
    let q = binary64::unit();
    lemma_pow2_pos(BIAS as nat);
    let side = u * f;
    let z = v * f;
    assert(z <= side * q) by (nonlinear_arith)
        requires
            side == u * f,
            z == v * f,
            v <= u * q,
    ;
    let (j, b) = (PRECISION as int, x * pixels);
    assert(j * (z * z * y) <= j * (side * side * y) * (q * q)) by (nonlinear_arith)
        requires
            0 <= z <= side * q,
            j > 0,
            y >= 0,
    ;
    assert((j - 1) * b <= j * (side * side * y)) by (nonlinear_arith)
        requires
            j * (z * z * y) <= j * (side * side * y) * (q * q),
            (j - 1) * (b * (q * q)) <= j * (z * z * y),
            q > 0,
    ;
}

/// A normal number below `2^53` has an exponent at most the bias.
proof fn lemma_small_exponent(a: binary64::Float)
    requires
        a.normal(),
        a.num() < MANT_HI * binary64::unit(),
    ensures
        a.exp <= BIAS,
{
    if a.exp > BIAS {
        lemma_pow2_unfold((BIAS + 1) as nat);
        if a.exp > BIAS + 1 {
            lemma_pow2_strictly_increases((BIAS + 1) as nat, a.exp);
        }
        let e = pow2(a.exp);
        assert(a.mant * e >= MANT_LO * e) by (nonlinear_arith)
            requires
                a.mant >= MANT_LO,
        ;
    }
}

/// The whole units in a shrunk side: as many as the exact length holds, within the precision.
pub proof fn lemma_shrunk_units(x: nat, y: nat, pixels: nat, f: nat)
    requires
        in_range(x, y, pixels, f),
    ensures
        shrunk_length(x, x * y, pixels, f).exp <= BIAS,
        ({
            let u = shrunk_units(x, x * y, pixels, f);
            &&& PRECISION * (u * f * (u * f) * y) <= (PRECISION + 1) * (x * pixels)
            &&& (PRECISION - 1) * (x * pixels) <= PRECISION * ((u + 1) * f * ((u + 1) * f) * y)
            &&& u * f < 0x2_0000_0000_0000
        }),
{
    lemma_shrunk_scaled(x, y, pixels, f);
    lemma_pow2_pos(BIAS as nat);
    let a = shrunk_length(x, x * y, pixels, f);
    let q = binary64::unit();
    let u = a.floor();
    vstd::arithmetic::div_mod::lemma_fundamental_div_mod(a.num() as int, q as int);
    assert(u * q == q * u && (u + 1) * q == q * u + q) by (nonlinear_arith);
    lemma_units_at_most(a.num(), x, y, pixels, f, u);
    lemma_units_at_least(a.num(), x, y, pixels, f, u + 1);
    assert(u <= u * f) by (nonlinear_arith)
        requires
            f >= 1,
    ;
    assert((u + 1) * q <= MANT_HI * q) by (nonlinear_arith)
        requires
            u + 1 <= MANT_HI,
    ;
    lemma_small_exponent(a);
}

/// The units that cover a grown side: as many as the exact length needs, within the precision.
pub proof fn lemma_grown_units(x: nat, y: nat, pixels: nat, f: nat)
    requires
        in_range(x, y, pixels, f),
    ensures
        grown_length(x, x * y, pixels, f).exp <= BIAS,
        ({
            let u = grown_units(x, x * y, pixels, f);
            &&& u >= 1
            &&& PRECISION * ((u - 1) * f * ((u - 1) * f) * y) <= (PRECISION + 1) * (x * pixels)
            &&& (PRECISION - 1) * (x * pixels) <= PRECISION * (u * f * (u * f) * y)
            &&& (u - 1) * f < 0x2_0000_0000_0000
        }),
{
    lemma_grown_scaled(x, y, pixels, f);
    lemma_pow2_pos(BIAS as nat);
    let a = grown_length(x, x * y, pixels, f);
    binary64::lemma_num_pos(a);
    let q = binary64::unit();
    let u = a.ceil();
    let n = a.num() + q - 1;
    vstd::arithmetic::div_mod::lemma_fundamental_div_mod(n, q as int);
    let k = n / q as int;
    assert(k >= 1) by (nonlinear_arith)
        requires
            n >= q,
            n < q * k + q,
            q > 0,
    ;
    assert(u == k);
    let below = (u - 1) as nat;
    assert(u * q == q * u && below * q == q * u - q) by (nonlinear_arith)
        requires
            below == u - 1,
    ;
    lemma_units_at_most(a.num(), x, y, pixels, f, below);
    lemma_units_at_least(a.num(), x, y, pixels, f, u);
    assert(below <= below * f) by (nonlinear_arith)
        requires
            f >= 1,
    ;
    assert(u * q < MANT_HI * q) by (nonlinear_arith)
        requires
            u < MANT_HI,
            q > 0,
    ;
    lemma_small_exponent(a);
}

/// The ratio of two integers, rounded, is that of four times each.
proof fn lemma_ratio_quadrupled(n: nat, d: nat)
    requires
        0 < n <= u64::MAX,
        0 < d <= u64::MAX,
    ensures
        binary64::of_int(4 * n).over(binary64::of_int(4 * d)) == binary64::of_int(n).over(
            binary64::of_int(d),
        ),
{
    let (a, b) = (binary64::of_int(n), binary64::of_int(d));
    binary64::lemma_of_int_error(n);
    binary64::lemma_of_int_error(d);
    binary64::lemma_of_int_doubled(n);
    binary64::lemma_of_int_doubled(2 * n);
    binary64::lemma_of_int_doubled(d);
    binary64::lemma_of_int_doubled(2 * d);
    binary64::lemma_over_doubled(a, b);
    binary64::lemma_over_doubled(a.doubled(), b.doubled());
    assert(2 * (2 * n) == 4 * n && 2 * (2 * d) == 4 * d);
}

/// An image of twice the size, shrunk to four times the budget, has as many units of twice the
/// length.
pub proof fn lemma_shrunk_doubled(x: nat, area: nat, pixels: nat, f: nat)
    requires
        0 < x <= u64::MAX,
        0 < area <= u64::MAX,
        0 < pixels <= u64::MAX,
        0 < f <= u64::MAX,
    ensures
        shrunk_units(2 * x, 4 * area, 4 * pixels, 2 * f) == shrunk_units(x, area, pixels, f),
{
    let (fp, fm) = (binary64::of_int(area), binary64::of_int(pixels));
    let (fx, ff) = (binary64::of_int(x), binary64::of_int(f));
    binary64::lemma_of_int_error(area);
    binary64::lemma_of_int_error(pixels);
    binary64::lemma_of_int_error(x);
    binary64::lemma_of_int_error(f);
    lemma_ratio_quadrupled(area, pixels);
    binary64::lemma_of_int_doubled(x);
    binary64::lemma_of_int_doubled(f);
    binary64::lemma_over_error(fp, fm);
    let fs = fp.over(fm).root();
    binary64::lemma_root_error(fp.over(fm));
    binary64::lemma_over_error(fx, fs);
    binary64::lemma_over_doubled(fx, fs);
    binary64::lemma_over_doubled(fx.over(fs), ff);
}

/// An image of twice the size, grown to four times the budget, is covered by as many units of
/// twice the length.
pub proof fn lemma_grown_doubled(x: nat, area: nat, pixels: nat, f: nat)
    requires
        0 < x <= u64::MAX,
        0 < area <= u64::MAX,
        0 < pixels <= u64::MAX,
        0 < f <= u64::MAX,
    ensures
        grown_units(2 * x, 4 * area, 4 * pixels, 2 * f) == grown_units(x, area, pixels, f),
{
    let (fp, fm) = (binary64::of_int(area), binary64::of_int(pixels));
    let (fx, ff) = (binary64::of_int(x), binary64::of_int(f));
    binary64::lemma_of_int_error(area);
    binary64::lemma_of_int_error(pixels);
    binary64::lemma_of_int_error(x);
    binary64::lemma_of_int_error(f);
    lemma_ratio_quadrupled(pixels, area);
    binary64::lemma_of_int_doubled(x);
    binary64::lemma_of_int_doubled(f);
    binary64::lemma_over_error(fm, fp);
    let fs = fm.over(fp).root();
    binary64::lemma_root_error(fm.over(fp));
    binary64::lemma_times_error(fx, fs);
    binary64::lemma_times_doubled(fx, fs);
    binary64::lemma_over_doubled(fx.times(fs), ff);
}

/// The quotient of a 32-bit side and a unit of more than 53 bits is less than one half.
pub proof fn lemma_tiny_quotient(x: nat, f: nat)
    requires
        0 < x <= u32::MAX,
        MANT_HI <= f <= u64::MAX,
    ensures
        2 * binary64::of_int(x).over(binary64::of_int(f)).num() < binary64::unit(),
{
    let (a, b) = (binary64::of_int(x), binary64::of_int(f));
    binary64::lemma_of_int_error(x);
    binary64::lemma_of_int_error(f);
    binary64::lemma_of_int_exact(x);
    binary64::lemma_over_error(a, b);
    lemma_pow2_pos(BIAS as nat);
    let (u, v, d) = (binary64::unit() as int, a.over(b).num() as int, b.num() as int);
    let k = MANT_HI as int;
    // the divisor is at least 2^52, so the quotient is at most 2^-19
    let floor = 0x10_0000_0000_0000 * u;
    assert(d >= floor) by (nonlinear_arith)
        requires
            (k - 1) * (f * u) <= k * d,
            floor == 0x10_0000_0000_0000 * u,
            k == 0x20_0000_0000_0000,
            f >= k,
            u > 0,
    ;
    assert(k * (v * floor) <= k * (v * d)) by (nonlinear_arith)
        requires
            d >= floor,
            v >= 0,
            k > 0,
    ;
    assert(2 * v < u) by (nonlinear_arith)
        requires
            k * (v * floor) <= (k + 1) * (x * u * u),
            floor == 0x10_0000_0000_0000 * u,
            k == 0x20_0000_0000_0000,
            x <= u32::MAX,
            u > 0,
            v >= 0,
    ;
}

/// A quotient has the integer part of the exact one.
proof fn lemma_floor_of_quotient(x: nat, f: nat)
    requires
        0 < x <= u32::MAX,
        0 < f <= u64::MAX,
    ensures
        binary64::of_int(x).over(binary64::of_int(f)).floor() == x / f,
{
    if f < MANT_HI {
        lemma_floor_of_exact(x, f);
    } else {
        lemma_tiny_quotient(x, f);
        let v = binary64::of_int(x).over(binary64::of_int(f)).num();
        vstd::arithmetic::div_mod::lemma_basic_div(v as int, binary64::unit() as int);
        vstd::arithmetic::div_mod::lemma_basic_div(x as int, f as int);
    }
}

/// [`lemma_floor_of_quotient`] for a divisor of at most 53 bits, which is not rounded itself.
proof fn lemma_floor_of_exact(x: nat, f: nat)
    requires
        0 < x <= u32::MAX,
        0 < f < MANT_HI,
    ensures
        binary64::of_int(x).over(binary64::of_int(f)).floor() == x / f,
{
    let (a, b) = (binary64::of_int(x), binary64::of_int(f));
    binary64::lemma_of_int_error(x);
    binary64::lemma_of_int_error(f);
    binary64::lemma_of_int_exact(x);
    binary64::lemma_of_int_exact(f);
    binary64::lemma_over_error(a, b);
    lemma_pow2_pos(BIAS as nat);
    let (u, v) = (binary64::unit() as int, a.over(b).num() as int);
    let q = (x / f) as int;
    let k = MANT_HI as int;
    vstd::arithmetic::div_mod::lemma_fundamental_div_mod(x as int, f as int);
    assert((k - 1) * (x * u) <= k * (v * f) <= (k + 1) * (x * u)) by (nonlinear_arith)
        requires
            (k - 1) * (x * u * u) <= k * (v * (f * u)) <= (k + 1) * (x * u * u),
            u > 0,
    ;
    assert(v * f < (x + 1) * u && v * f > (x - 1) * u) by (nonlinear_arith)
        requires
            (k - 1) * (x * u) <= k * (v * f) <= (k + 1) * (x * u),
            0 < x < k,
            u > 0,
    ;
    assert(v < (q + 1) * u) by (nonlinear_arith)
        requires
            v * f < (x + 1) * u,
            x + 1 <= f * q + f,
            f > 0,
            u > 0,
    ;
    if x == f * q {
        assert(2 * x == (2 * q) * f) by (nonlinear_arith)
            requires
                x == f * q,
        ;
        binary64::lemma_halves_exact(x, f, (2 * q) as nat);
        assert((2 * q) * u == 2 * (q * u)) by (nonlinear_arith);
    } else {
        assert(v >= q * u) by (nonlinear_arith)
            requires
                v * f > (x - 1) * u,
                x - 1 >= f * q,
                f > 0,
                u > 0,
        ;
    }
    let r = v - q * u;
    assert(0 <= r < u) by (nonlinear_arith)
        requires
            r == v - q * u,
            q * u <= v < (q + 1) * u,
    ;
    vstd::arithmetic::div_mod::lemma_fundamental_div_mod_converse(v, u, q, r);
}

/// A square image shrunk to a budget that is itself a square, of a power of two: its sides are cut
/// from exactly that power.
pub proof fn lemma_shrunk_square(n: nat, k: nat, f: nat)
    requires
        0 < n <= u32::MAX,
        k < 32,
        0 < f <= u64::MAX,
    ensures
        shrunk_units(n, n * n, pow2(2 * k), f) == pow2(k) / f,
{
    let (a, b) = (binary64::of_int(n * n), binary64::of_int(n));
    let c = binary64::of_int(pow2(2 * k));
    lemma_area(n, n);
    binary64::lemma_of_int_error(n * n);
    binary64::lemma_of_int_error(n);
    binary64::lemma_of_int_pow2(2 * k);
    binary64::lemma_of_int_pow2(k);
    binary64::lemma_over_pow2(a, c);
    binary64::lemma_root_of_square(n, k);
    let beta = a.over(c).root();
    binary64::lemma_over_same_mant(b, beta);
    assert(b.over(beta) == binary64::of_int(pow2(k)));
    lemma_pow2_pos(k);
    lemma_pow2_pos(2 * k);
    lemma2_to64();
    if k < 31 {
        lemma_pow2_strictly_increases(k, 31);
    }
    lemma_floor_of_quotient(pow2(k), f);
}

/// The square root of `n / d`, both positive.
fn root_of_ratio(n: u64, d: u64) -> (beta: Binary64)
    requires
        n > 0,
        d > 0,
    ensures
        beta.wf(),
        beta@ == binary64::of_int(n as nat).over(binary64::of_int(d as nat)).root(),
        990 <= beta.exp <= 1056,
{
    proof {
        let (fnum, fden) = (binary64::of_int(n as nat), binary64::of_int(d as nat));
        binary64::lemma_of_int_error(n as nat);
        binary64::lemma_of_int_error(d as nat);
        binary64::lemma_over_error(fnum, fden);
        binary64::lemma_root_error(fnum.over(fden));
    }
    Binary64::from_u64(n).div(Binary64::from_u64(d)).sqrt()
}

/// Sides `x` and `y` of an image shrunk to `pixels`, in whole units of `f`.
pub fn shrink(x: u64, y: u64, pixels: u64, f: u64) -> (units: (u64, u64))
    requires
        0 < x <= u32::MAX,
        0 < y <= u32::MAX,
        0 < f,
    ensures
        units.0 == shrunk_units(x as nat, (x * y) as nat, pixels as nat, f as nat),
        units.1 == shrunk_units(y as nat, (x * y) as nat, pixels as nat, f as nat),
{
    if pixels == 0 {
        return (0, 0);
    }
    proof {
        lemma_area(x as nat, y as nat);
        assert(x * y == y * x) by (nonlinear_arith);
        lemma_shrunk_units(x as nat, y as nat, pixels as nat, f as nat);
        lemma_shrunk_units(y as nat, x as nat, pixels as nat, f as nat);
        binary64::lemma_of_int_error(x as nat);
        binary64::lemma_of_int_error(y as nat);
        binary64::lemma_of_int_error(f as nat);
    }
    let beta = root_of_ratio(x * y, pixels);
    let unit = Binary64::from_u64(f);
    proof {
        binary64::lemma_over_error(binary64::of_int(x as nat), beta@);
        binary64::lemma_over_error(binary64::of_int(y as nat), beta@);
    }
    let a = Binary64::from_u64(x).div(beta).div(unit).floor();
    let b = Binary64::from_u64(y).div(beta).div(unit).floor();
    (a, b)
}

/// Sides `x` and `y` of an image grown to `pixels`, in units of `f` that cover them.
pub fn grow(x: u64, y: u64, pixels: u64, f: u64) -> (units: (u64, u64))
    requires
        0 < x <= u32::MAX,
        0 < y <= u32::MAX,
        0 < pixels,
        0 < f,
    ensures
        units.0 == grown_units(x as nat, (x * y) as nat, pixels as nat, f as nat),
        units.1 == grown_units(y as nat, (x * y) as nat, pixels as nat, f as nat),
{
    proof {
        lemma_area(x as nat, y as nat);
        assert(x * y == y * x) by (nonlinear_arith);
        lemma_grown_units(x as nat, y as nat, pixels as nat, f as nat);
        lemma_grown_units(y as nat, x as nat, pixels as nat, f as nat);
        binary64::lemma_of_int_error(x as nat);
        binary64::lemma_of_int_error(y as nat);
        binary64::lemma_of_int_error(f as nat);
    }
    let beta = root_of_ratio(pixels, x * y);
    let unit = Binary64::from_u64(f);
    proof {
        binary64::lemma_times_error(binary64::of_int(x as nat), beta@);
        binary64::lemma_times_error(binary64::of_int(y as nat), beta@);
    }
    let a = Binary64::from_u64(x).mul(beta).div(unit).ceil();
    let b = Binary64::from_u64(y).mul(beta).div(unit).ceil();
    (a, b)
}

} // verus!
