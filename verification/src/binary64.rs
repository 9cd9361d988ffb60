//! Positive IEEE 754 binary64 numbers, computed with integers.
//!
//! A number is `mant * 2^(exp - 1075)` with a mantissa of exactly 53 bits, so
//! `exp` is the biased exponent of the standard's normal numbers. Every
//! operation returns the exact result rounded to the nearest such number, ties
//! going to the even mantissa: what the floating-point unit returns in the
//! default rounding mode. The contracts state that rounding on exact fractions
//! of integers.

use vstd::arithmetic::power2::*;
use vstd::prelude::*;

verus! {

/// Smallest mantissa, `2^52`.
pub const MANT_LO: u64 = 0x10_0000_0000_0000;

/// One past the largest mantissa, `2^53`.
pub const MANT_HI: u64 = 0x20_0000_0000_0000;

/// The exponent at which a mantissa counts units.
pub const BIAS: u32 = 1075;

/// A mantissa and a biased exponent: the number `mant * 2^(exp - 1075)`.
pub struct Float {
    pub mant: nat,
    pub exp: nat,
}

/// `2^1075`, the denominator that all numbers share.
pub open spec fn unit() -> nat {
    pow2(BIAS as nat)
}

impl Float {
    /// The number times [`unit`].
    pub open spec fn num(self) -> nat {
        self.mant * pow2(self.exp)
    }

    /// The mantissa has 53 bits.
    pub open spec fn normal(self) -> bool {
        MANT_LO <= self.mant < MANT_HI
    }

    /// Twice the number.
    pub open spec fn doubled(self) -> Float {
        Float { mant: self.mant, exp: self.exp + 1 }
    }

    /// The product, rounded.
    pub open spec fn times(self, other: Float) -> Float {
        nearest(self.num() * other.num(), unit() * unit())
    }

    /// The quotient, rounded.
    pub open spec fn over(self, other: Float) -> Float {
        nearest(self.num(), other.num())
    }

    /// The square root, rounded.
    pub open spec fn root(self) -> Float {
        nearest_root(self.num(), unit())
    }

    /// The largest integer not above the number.
    pub open spec fn floor(self) -> nat {
        self.num() / unit()
    }

    /// The smallest integer not below the number.
    pub open spec fn ceil(self) -> nat {
        ((self.num() + unit() - 1) / unit() as int) as nat
    }
}

/// The positive integer `x`, rounded.
pub open spec fn of_int(x: nat) -> Float {
    nearest(x, 1)
}

/// `n / d` rounded to the nearest integer, a tie going to the even one.
pub open spec fn round_half_even(n: nat, d: nat) -> nat {
    let q = n / d;
    let r = n % d;
    if 2 * r < d || (2 * r == d && q % 2 == 0) {
        q
    } else {
        q + 1
    }
}

/// A rounded mantissa that has grown to 54 bits moves to the next exponent.
pub open spec fn carry(mant: nat, exp: nat) -> Float {
    if mant == MANT_HI {
        Float { mant: MANT_LO as nat, exp: exp + 1 }
    } else {
        Float { mant, exp }
    }
}

/// With exponent `e`, the mantissa of `p / q` has 53 bits before its point.
pub open spec fn in_binade(p: nat, q: nat, e: nat) -> bool {
    MANT_LO * (q * pow2(e)) <= p * unit() < MANT_HI * (q * pow2(e))
}

/// The exponent of the positive fraction `p / q`.
pub open spec fn exponent(p: nat, q: nat) -> nat {
    choose|e: nat| in_binade(p, q, e)
}

/// The positive fraction `p / q` rounded to 53 significant bits, ties to even.
pub open spec fn nearest(p: nat, q: nat) -> Float {
    let e = exponent(p, q);
    carry(round_half_even(p * unit(), q * pow2(e)), e)
}

/// `r` is the integer part of the square root of `n / d`.
pub open spec fn is_floor_root(n: nat, d: nat, r: nat) -> bool {
    r * r * d <= n < (r + 1) * (r + 1) * d
}

/// The integer part of the square root of `n / d`.
pub open spec fn floor_root(n: nat, d: nat) -> nat {
    choose|r: nat| is_floor_root(n, d, r)
}

/// The square root of `n / d` rounded to the nearest integer, a tie going to
/// the even one: the root lies above `r + 1/2` when `n / d` lies above its square.
pub open spec fn round_root_half_even(n: nat, d: nat) -> nat {
    let r = floor_root(n, d);
    let mid = (2 * r + 1) * (2 * r + 1) * d;
    if 4 * n < mid || (4 * n == mid && r % 2 == 0) {
        r
    } else {
        r + 1
    }
}

/// With exponent `e`, the mantissa of the square root of `p / q` has 53 bits
/// before its point.
pub open spec fn root_in_binade(p: nat, q: nat, e: nat) -> bool {
    MANT_LO * MANT_LO * (q * pow2(2 * e)) <= p * (unit() * unit()) < MANT_HI * MANT_HI * (q * pow2(
        2 * e,
    ))
}

/// The exponent of the square root of the positive fraction `p / q`.
pub open spec fn root_exponent(p: nat, q: nat) -> nat {
    choose|e: nat| root_in_binade(p, q, e)
}

/// The square root of the positive fraction `p / q` rounded to 53 significant
/// bits, ties to even.
pub open spec fn nearest_root(p: nat, q: nat) -> Float {
    let e = root_exponent(p, q);
    carry(round_root_half_even(p * (unit() * unit()), q * pow2(2 * e)), e)
}

/// A positive binary64 number in the normal range.
#[derive(Clone, Copy)]
pub struct Binary64 {
    pub mant: u64,
    pub exp: u32,
}

impl View for Binary64 {
    type V = Float;

    open spec fn view(&self) -> Float {
        Float { mant: self.mant as nat, exp: self.exp as nat }
    }
}

impl Binary64 {
    /// The mantissa has 53 bits and the exponent is that of a normal number.
    pub open spec fn wf(self) -> bool {
        MANT_LO <= self.mant < MANT_HI && 1 <= self.exp <= 2046
    }
}

/// The exponent of a fraction is unique.
proof fn lemma_binade_unique(p: nat, q: nat, e1: nat, e2: nat)
    requires
        q > 0,
        in_binade(p, q, e1),
        in_binade(p, q, e2),
    ensures
        e1 == e2,
{
    if e1 < e2 {
        lemma_binade_order(q, e1, e2);
    } else if e2 < e1 {
        lemma_binade_order(q, e2, e1);
    }
}

/// The binade of a larger exponent starts where that of a smaller one ends, or later.
proof fn lemma_binade_order(q: nat, e1: nat, e2: nat)
    requires
        e1 < e2,
    ensures
        MANT_HI * (q * pow2(e1)) <= MANT_LO * (q * pow2(e2)),
{
    lemma_pow2_unfold(e1 + 1);
    if e1 + 1 < e2 {
        lemma_pow2_strictly_increases(e1 + 1, e2);
    }
    let a = pow2(e1);
    let b = pow2(e2);
    assert(MANT_HI * (q * a) <= MANT_LO * (q * b)) by (nonlinear_arith)
        requires
            2 * a <= b,
            MANT_HI == 2 * MANT_LO,
    ;
}

/// Rounding `n / d` depends on the fraction only.
proof fn lemma_round_half_even_scales(n: nat, d: nat, n2: nat, d2: nat)
    requires
        d > 0,
        d2 > 0,
        n2 * d == n * d2,
    ensures
        round_half_even(n2, d2) == round_half_even(n, d),
{
    let q = n / d;
    let r = n % d;
    vstd::arithmetic::div_mod::lemma_fundamental_div_mod(n as int, d as int);
    let r2 = n2 - q * d2;
    assert(r2 * d == r * d2) by (nonlinear_arith)
        requires
            r2 == n2 - q * d2,
            n2 * d == n * d2,
            n == d * q + r,
    ;
    assert(0 <= r2 < d2) by (nonlinear_arith)
        requires
            r2 * d == r * d2,
            0 <= r < d,
            d2 > 0,
    ;
    assert(n2 == q * d2 + r2);
    vstd::arithmetic::div_mod::lemma_fundamental_div_mod_converse(
        n2 as int,
        d2 as int,
        q as int,
        r2,
    );
    assert(2 * r < d ==> 2 * r2 < d2) by (nonlinear_arith)
        requires
            r2 * d == r * d2,
            d > 0,
            d2 > 0,
    ;
    assert(2 * r == d ==> 2 * r2 == d2) by (nonlinear_arith)
        requires
            r2 * d == r * d2,
            d > 0,
            d2 > 0,
    ;
    assert(2 * r > d ==> 2 * r2 > d2) by (nonlinear_arith)
        requires
            r2 * d == r * d2,
            d > 0,
            d2 > 0,
    ;
}

/// A quotient `n / d` of 53 bits at exponent `e` that equals `p / q` gives the rounding of `p / q`.
proof fn lemma_nearest(p: nat, q: nat, n: nat, d: nat, e: nat)
    requires
        q > 0,
        d > 0,
        p * unit() * d == n * (q * pow2(e)),
        MANT_LO * d <= n < MANT_HI * d,
    ensures
        in_binade(p, q, e),
        exponent(p, q) == e,
        nearest(p, q) == carry(round_half_even(n, d), e),
{
    lemma_pow2_pos(e);
    let big_n = p * unit();
    let big_d = q * pow2(e);
    assert(big_d > 0) by (nonlinear_arith)
        requires
            q > 0,
            pow2(e) > 0,
            big_d == q * pow2(e),
    ;
    assert(MANT_LO * big_d <= big_n < MANT_HI * big_d) by (nonlinear_arith)
        requires
            big_n * d == n * big_d,
            MANT_LO * d <= n < MANT_HI * d,
            d > 0,
            big_d > 0,
    ;
    assert(in_binade(p, q, e));
    lemma_binade_unique(p, q, e, exponent(p, q));
    lemma_round_half_even_scales(n, d, big_n, big_d);
}

/// A rounded fraction has a mantissa of 53 bits, and its relative error is at most `2^-53`.
pub proof fn lemma_nearest_error(p: nat, q: nat, e: nat)
    requires
        q > 0,
        in_binade(p, q, e),
    ensures
        MANT_LO <= nearest(p, q).mant < MANT_HI,
        e <= nearest(p, q).exp <= e + 1,
        (MANT_HI - 1) * (p * unit()) <= MANT_HI * (nearest(p, q).num() * q) <= (MANT_HI + 1) * (p
            * unit()),
{
    lemma_pow2_pos(e);
    lemma_binade_unique(p, q, e, exponent(p, q));
    let n = p * unit();
    let pe = pow2(e);
    let d = q * pe;
    assert(d > 0) by (nonlinear_arith)
        requires
            q > 0,
            pe > 0,
            d == q * pe,
    ;
    let m = round_half_even(n, d);
    let k = n / d;
    let r = n % d;
    vstd::arithmetic::div_mod::lemma_fundamental_div_mod(n as int, d as int);
    assert(MANT_LO <= k < MANT_HI) by (nonlinear_arith)
        requires
            n == d * k + r,
            0 <= r < d,
            MANT_LO * d <= n < MANT_HI * d,
    ;
    let md = m * d;
    assert(2 * md <= 2 * n + d && 2 * n <= 2 * md + d) by (nonlinear_arith)
        requires
            n == d * k + r,
            0 <= r < d,
            md == m * d,
            m == k && 2 * r <= d || m == k + 1 && 2 * r >= d,
    ;
    let v = nearest(p, q);
    lemma_pow2_unfold(e + 1);
    let ve = pow2(v.exp);
    assert(v.mant * ve == m * pe) by (nonlinear_arith)
        requires
            v.mant == m && ve == pe || 2 * v.mant == m && ve == 2 * pe,
    ;
    assert(v.num() * q == md) by (nonlinear_arith)
        requires
            v.num() == v.mant * ve,
            v.mant * ve == m * pe,
            md == m * d,
            d == q * pe,
    ;
}

/// Scaling a fraction keeps the integer part of its root.
proof fn lemma_floor_root_scales(n: nat, d: nat, r: nat, s: nat)
    requires
        d > 0,
        r * r <= s < (r + 1) * (r + 1),
        n == s * d,
    ensures
        is_floor_root(n, d, r),
        floor_root(n, d) == r,
{
    assert(is_floor_root(n, d, r)) by (nonlinear_arith)
        requires
            d > 0,
            r * r <= s < (r + 1) * (r + 1),
            n == s * d,
            is_floor_root(n, d, r) == (r * r * d <= n < (r + 1) * (r + 1) * d),
    ;
    lemma_floor_root_unique(n, d, r, floor_root(n, d));
}

/// The integer part of a root is unique.
proof fn lemma_floor_root_unique(n: nat, d: nat, r1: nat, r2: nat)
    requires
        is_floor_root(n, d, r1),
        is_floor_root(n, d, r2),
    ensures
        r1 == r2,
{
    if r1 < r2 {
        assert((r1 + 1) * (r1 + 1) * d <= r2 * r2 * d) by (nonlinear_arith)
            requires
                r1 + 1 <= r2,
        ;
    } else if r2 < r1 {
        assert((r2 + 1) * (r2 + 1) * d <= r1 * r1 * d) by (nonlinear_arith)
            requires
                r2 + 1 <= r1,
        ;
    }
}

/// The exponent of a root is unique.
proof fn lemma_root_binade_unique(p: nat, q: nat, e1: nat, e2: nat)
    requires
        q > 0,
        root_in_binade(p, q, e1),
        root_in_binade(p, q, e2),
    ensures
        e1 == e2,
{
    if e1 < e2 {
        lemma_root_binade_order(q, e1, e2);
    } else if e2 < e1 {
        lemma_root_binade_order(q, e2, e1);
    }
}

proof fn lemma_root_binade_order(q: nat, e1: nat, e2: nat)
    requires
        e1 < e2,
    ensures
        MANT_HI * MANT_HI * (q * pow2(2 * e1)) <= MANT_LO * MANT_LO * (q * pow2(2 * e2)),
{
    lemma_pow2_unfold(2 * e1 + 1);
    lemma_pow2_unfold(2 * e1 + 2);
    if 2 * e1 + 2 < 2 * e2 {
        lemma_pow2_strictly_increases(2 * e1 + 2, 2 * e2);
    }
    let a = pow2(2 * e1);
    let b = pow2(2 * e2);
    assert(MANT_HI * MANT_HI * (q * a) <= MANT_LO * MANT_LO * (q * b)) by (nonlinear_arith)
        requires
            4 * a <= b,
            MANT_HI == 2 * MANT_LO,
    ;
}

/// An integer `s` of 105 or 106 bits that is `p / q` at exponent `2 * e` gives the rounding of
/// the root of `p / q`.
proof fn lemma_nearest_root(p: nat, q: nat, s: nat, r: nat, e: nat)
    requires
        q > 0,
        p * (unit() * unit()) == s * (q * pow2(2 * e)),
        MANT_LO * MANT_LO <= s < MANT_HI * MANT_HI,
        r * r <= s < (r + 1) * (r + 1),
    ensures
        root_in_binade(p, q, e),
        nearest_root(p, q) == carry(
            if 4 * s < (2 * r + 1) * (2 * r + 1) || (4 * s == (2 * r + 1) * (2 * r + 1) && r % 2
                == 0) {
                r
            } else {
                r + 1
            },
            e,
        ),
{
    lemma_pow2_pos(2 * e);
    let n = p * (unit() * unit());
    let d = q * pow2(2 * e);
    assert(d > 0) by (nonlinear_arith)
        requires
            q > 0,
            pow2(2 * e) > 0,
            d == q * pow2(2 * e),
    ;
    let lo = MANT_LO * MANT_LO;
    let hi = MANT_HI * MANT_HI;
    assert(lo * d <= n < hi * d) by (nonlinear_arith)
        requires
            n == s * d,
            lo <= s < hi,
            d > 0,
    ;
    assert(root_in_binade(p, q, e));
    lemma_root_binade_unique(p, q, e, root_exponent(p, q));
    lemma_floor_root_scales(n, d, r, s);
    let t = (2 * r + 1) * (2 * r + 1);
    let mid = t * d;
    assert(4 * s < t ==> 4 * n < mid) by (nonlinear_arith)
        requires
            n == s * d,
            mid == t * d,
            d > 0,
    ;
    assert(4 * s > t ==> 4 * n > mid) by (nonlinear_arith)
        requires
            n == s * d,
            mid == t * d,
            d > 0,
    ;
    assert(4 * s == t ==> 4 * n == mid) by (nonlinear_arith)
        requires
            n == s * d,
            mid == t * d,
    ;
}

/// A rounded root `m` of a fraction `n / d` whose integer part has 53 bits is within a factor
/// `1 - 2^-53` to `1 + 2^-53` of the root.
proof fn lemma_round_root_error(n: nat, d: nat, r: nat, m: nat)
    requires
        d > 0,
        r >= MANT_LO,
        is_floor_root(n, d, r),
        (m == r && 4 * n <= (2 * r + 1) * (2 * r + 1) * d) || (m == r + 1 && 4 * n >= (2 * r + 1)
            * (2 * r + 1) * d),
    ensures
        (MANT_HI - 1) * (MANT_HI - 1) * n <= MANT_HI * MANT_HI * (m * m * d) <= (MANT_HI + 1) * (
        MANT_HI + 1) * n,
{
    let k = MANT_HI as int;
    let t = (2 * r + 1) * (2 * r + 1) * d;
    let rd = r * r * d;
    let ud = (r + 1) * (r + 1) * d;
    if m == r {
        assert((k - 1) * (2 * r + 1) <= k * (2 * r)) by (nonlinear_arith)
            requires
                k <= 2 * r + 1,
        ;
        lemma_square_scale((k - 1) * (2 * r + 1), k * (2 * r), d as int);
        assert((k - 1) * (k - 1) * t == ((k - 1) * (2 * r + 1)) * ((k - 1) * (2 * r + 1)) * d)
            by (nonlinear_arith)
            requires
                t == (2 * r + 1) * (2 * r + 1) * d,
        ;
        assert((k * (2 * r)) * (k * (2 * r)) * d == 4 * (k * k * rd)) by (nonlinear_arith)
            requires
                rd == r * r * d,
        ;
        assert((k - 1) * (k - 1) * (4 * n) <= (k - 1) * (k - 1) * t) by (nonlinear_arith)
            requires
                4 * n <= t,
                k >= 1,
        ;
        assert((k - 1) * (k - 1) * (4 * n) == 4 * ((k - 1) * (k - 1) * n)) by (nonlinear_arith);
        assert(k * k * rd <= (k + 1) * (k + 1) * n) by (nonlinear_arith)
            requires
                rd <= n,
                k >= 1,
        ;
    } else {
        assert(k * (2 * (r + 1)) <= (k + 1) * (2 * r + 1)) by (nonlinear_arith)
            requires
                k <= 2 * r + 1,
        ;
        lemma_square_scale(k * (2 * (r + 1)), (k + 1) * (2 * r + 1), d as int);
        assert((k + 1) * (k + 1) * t == ((k + 1) * (2 * r + 1)) * ((k + 1) * (2 * r + 1)) * d)
            by (nonlinear_arith)
            requires
                t == (2 * r + 1) * (2 * r + 1) * d,
        ;
        assert((k * (2 * (r + 1))) * (k * (2 * (r + 1))) * d == 4 * (k * k * ud))
            by (nonlinear_arith)
            requires
                ud == (r + 1) * (r + 1) * d,
        ;
        assert((k + 1) * (k + 1) * (4 * n) >= (k + 1) * (k + 1) * t) by (nonlinear_arith)
            requires
                4 * n >= t,
                k >= 1,
        ;
        assert((k + 1) * (k + 1) * (4 * n) == 4 * ((k + 1) * (k + 1) * n)) by (nonlinear_arith);
        assert((k - 1) * (k - 1) * n <= k * k * ud) by (nonlinear_arith)
            requires
                n <= ud,
                k >= 1,
        ;
    }
}

proof fn lemma_square_scale(a: int, b: int, d: int)
    requires
        0 <= a <= b,
        d >= 0,
    ensures
        a * a * d <= b * b * d,
{
    assert(a * a <= b * b) by (nonlinear_arith)
        requires
            0 <= a <= b,
    ;
    assert(a * a * d <= b * b * d) by (nonlinear_arith)
        requires
            a * a <= b * b,
            d >= 0,
    ;
}

/// A rounded root has a mantissa of 53 bits, and its relative error is at most `2^-53`: the
/// square of the number is within the square of that factor.
pub proof fn lemma_nearest_root_error(p: nat, q: nat, s: nat, r: nat, e: nat)
    requires
        q > 0,
        p * (unit() * unit()) == s * (q * pow2(2 * e)),
        MANT_LO * MANT_LO <= s < MANT_HI * MANT_HI,
        r * r <= s < (r + 1) * (r + 1),
    ensures
        MANT_LO <= nearest_root(p, q).mant < MANT_HI,
        e <= nearest_root(p, q).exp <= e + 1,
        ({
            let v = nearest_root(p, q).num();
            (MANT_HI - 1) * (MANT_HI - 1) * (p * (unit() * unit())) <= MANT_HI * MANT_HI * (v * v
                * q) <= (MANT_HI + 1) * (MANT_HI + 1) * (p * (unit() * unit()))
        }),
{
    lemma_nearest_root(p, q, s, r, e);
    lemma_root_binade_unique(p, q, e, root_exponent(p, q));
    lemma_pow2_pos(2 * e);
    let n = p * (unit() * unit());
    let pe = pow2(e);
    let d = q * pow2(2 * e);
    assert(d > 0) by (nonlinear_arith)
        requires
            q > 0,
            pow2(2 * e) > 0,
            d == q * pow2(2 * e),
    ;
    assert(MANT_LO <= r < MANT_HI) by (nonlinear_arith)
        requires
            MANT_LO * MANT_LO <= s < MANT_HI * MANT_HI,
            r * r <= s < (r + 1) * (r + 1),
    ;
    lemma_floor_root_scales(n, d, r, s);
    let m = round_root_half_even(n, d);
    lemma_round_root_error(n, d, r, m);
    let v = nearest_root(p, q);
    lemma_pow2_unfold(e + 1);
    let ve = pow2(v.exp);
    assert(v.mant * ve == m * pe) by (nonlinear_arith)
        requires
            v.mant == m && ve == pe || 2 * v.mant == m && ve == 2 * pe,
    ;
    lemma_pow2_adds(e, e);
    assert(v.num() * v.num() * q == m * m * d) by (nonlinear_arith)
        requires
            v.num() == m * pe,
            d == q * (pe * pe),
    ;
}

/// How many bits a product of two mantissas has to lose.
spec fn product_shift(a: Float, b: Float) -> nat {
    if a.mant * b.mant >= MANT_LO * MANT_HI {
        53
    } else {
        52
    }
}

/// A product of two numbers as a quotient of 53 bits.
proof fn lemma_times(a: Float, b: Float)
    requires
        a.normal(),
        b.normal(),
        a.exp + b.exp + 52 >= BIAS,
    ensures
        ({
            let k = product_shift(a, b);
            let e = (a.exp + b.exp + k - BIAS) as nat;
            let p = a.num() * b.num();
            let q = unit() * unit();
            &&& p > 0
            &&& q > 0
            &&& pow2(k) > 0
            &&& p * unit() * pow2(k) == (a.mant * b.mant) * (q * pow2(e))
            &&& MANT_LO * pow2(k) <= a.mant * b.mant < MANT_HI * pow2(k)
        }),
{
    let k = product_shift(a, b);
    let e = (a.exp + b.exp + k - BIAS) as nat;
    lemma_unit_pos();
    lemma2_to64_rest();
    assert(MANT_LO * MANT_LO <= a.mant * b.mant < MANT_HI * MANT_HI) by (nonlinear_arith)
        requires
            MANT_LO <= a.mant < MANT_HI,
            MANT_LO <= b.mant < MANT_HI,
    ;
    lemma_num_pos(a);
    lemma_num_pos(b);
    vstd::arithmetic::mul::lemma_mul_strictly_positive(a.num() as int, b.num() as int);
    vstd::arithmetic::mul::lemma_mul_strictly_positive(unit() as int, unit() as int);
    lemma_pow2_adds(a.exp, b.exp);
    lemma_pow2_adds(a.exp + b.exp, k);
    lemma_pow2_adds(BIAS as nat, e);
    let (ea, eb, ek, ee, u) = (pow2(a.exp), pow2(b.exp), pow2(k), pow2(e), unit());
    assert(ea * eb * ek == u * ee);
    assert((a.mant * ea) * (b.mant * eb) * u * ek == (a.mant * b.mant) * ((u * u) * ee))
        by (nonlinear_arith)
        requires
            ea * eb * ek == u * ee,
    ;
}

/// How many bits a dividend has to gain.
spec fn quotient_shift(a: Float, b: Float) -> nat {
    if a.mant >= b.mant {
        52
    } else {
        53
    }
}

/// A quotient of two numbers as a quotient of 53 bits.
proof fn lemma_over(a: Float, b: Float)
    requires
        a.normal(),
        b.normal(),
        a.exp + BIAS >= b.exp + 53,
    ensures
        ({
            let k = quotient_shift(a, b);
            let e = (a.exp + BIAS - b.exp - k) as nat;
            let p = a.num();
            let q = b.num();
            &&& p > 0
            &&& q > 0
            &&& p * unit() * b.mant == (a.mant * pow2(k)) * (q * pow2(e))
            &&& MANT_LO * b.mant <= a.mant * pow2(k) < MANT_HI * b.mant
            &&& round_half_even(a.mant * pow2(k), b.mant) < MANT_HI
        }),
{
    let k = quotient_shift(a, b);
    let e = (a.exp + BIAS - b.exp - k) as nat;
    lemma2_to64_rest();
    lemma_num_pos(a);
    lemma_num_pos(b);
    lemma_pow2_adds(a.exp, BIAS as nat);
    lemma_pow2_adds(k, b.exp);
    lemma_pow2_adds(k + b.exp, e);
    let (ea, eb, ek, ee, u) = (pow2(a.exp), pow2(b.exp), pow2(k), pow2(e), unit());
    assert(ea * u == ek * eb * ee);
    assert((a.mant * ea) * u * b.mant == (a.mant * ek) * ((b.mant * eb) * ee)) by (nonlinear_arith)
        requires
            ea * u == ek * eb * ee,
    ;
    let n = a.mant * ek;
    assert(MANT_LO * b.mant <= n <= (MANT_HI - 1) * b.mant)
        by (nonlinear_arith)
        requires
            n == a.mant * ek,
            MANT_LO <= a.mant < MANT_HI,
            MANT_LO <= b.mant < MANT_HI,
            a.mant >= b.mant && ek == MANT_LO || a.mant + 1 <= b.mant && ek == MANT_HI,
            MANT_HI == 2 * MANT_LO,
    ;
    lemma_round_half_even_below(n, b.mant, (MANT_HI - 1) as nat);
}

/// A fraction less than one half above an integer does not round past it.
proof fn lemma_round_half_even_below(n: nat, d: nat, m: nat)
    requires
        d > 0,
        2 * n < 2 * (m * d) + d,
    ensures
        round_half_even(n, d) <= m,
{
    let q = n / d;
    let r = n % d;
    vstd::arithmetic::div_mod::lemma_fundamental_div_mod(n as int, d as int);
    assert(q <= m && (q == m ==> 2 * r < d)) by (nonlinear_arith)
        requires
            n == d * q + r,
            0 <= r < d,
            2 * n < 2 * (m * d) + d,
    ;
}

proof fn lemma_unit_pos()
    ensures
        unit() > 0,
{
    lemma_pow2_pos(BIAS as nat);
}

pub proof fn lemma_num_pos(a: Float)
    requires
        a.normal(),
    ensures
        a.num() > 0,
{
    lemma_pow2_pos(a.exp);
    vstd::arithmetic::mul::lemma_mul_strictly_positive(a.mant as int, pow2(a.exp) as int);
}

/// A rounded product: 53 bits, an exponent near the sum, and a relative error of at most `2^-53`.
pub proof fn lemma_times_error(a: Float, b: Float)
    requires
        a.normal(),
        b.normal(),
        a.exp + b.exp + 52 >= BIAS,
    ensures
        a.times(b).normal(),
        a.exp + b.exp + 52 <= a.times(b).exp + BIAS <= a.exp + b.exp + 54,
        (MANT_HI - 1) * (a.num() * b.num()) <= MANT_HI * (a.times(b).num() * unit()) <= (MANT_HI
            + 1) * (a.num() * b.num()),
{
    lemma_times(a, b);
    let k = product_shift(a, b);
    let e = (a.exp + b.exp + k - BIAS) as nat;
    let p = a.num() * b.num();
    let u = unit();
    lemma_nearest(p, u * u, a.mant * b.mant, pow2(k), e);
    lemma_nearest_error(p, u * u, e);
    lemma_unit_pos();
    let v = a.times(b).num();
    let h = MANT_HI as int;
    assert((h - 1) * p <= h * (v * u) <= (h + 1) * p) by (nonlinear_arith)
        requires
            (h - 1) * (p * u) <= h * (v * (u * u)) <= (h + 1) * (p * u),
            u > 0,
    ;
}

/// A rounded quotient: 53 bits, an exponent near the difference, and a relative error of at most
/// `2^-53`.
pub proof fn lemma_over_error(a: Float, b: Float)
    requires
        a.normal(),
        b.normal(),
        a.exp + BIAS >= b.exp + 53,
    ensures
        a.over(b).normal(),
        a.exp + 1022 <= a.over(b).exp + b.exp <= a.exp + 1023,
        (MANT_HI - 1) * (a.num() * unit()) <= MANT_HI * (a.over(b).num() * b.num()) <= (MANT_HI
            + 1) * (a.num() * unit()),
{
    lemma_over(a, b);
    let k = quotient_shift(a, b);
    let e = (a.exp + BIAS - b.exp - k) as nat;
    lemma_nearest(a.num(), b.num(), a.mant * pow2(k), b.mant, e);
    lemma_nearest_error(a.num(), b.num(), e);
}

/// The radicand at exponent `2 * e`, as an integer.
spec fn root_shift(a: Float) -> nat {
    if a.exp % 2 == 1 {
        52
    } else {
        53
    }
}

/// The root of a number as the root of an integer of 105 or 106 bits.
proof fn lemma_root(a: Float)
    requires
        a.normal(),
    ensures
        ({
            let k = root_shift(a);
            let e = ((a.exp + BIAS - k) / 2) as nat;
            let s = a.mant * pow2(k);
            &&& a.num() > 0
            &&& unit() > 0
            &&& a.num() * (unit() * unit()) == s * (unit() * pow2(2 * e))
            &&& MANT_LO * MANT_LO <= s < MANT_HI * MANT_HI
        }),
{
    let k = root_shift(a);
    let e = ((a.exp + BIAS - k) / 2) as nat;
    let s = a.mant * pow2(k);
    lemma_num_pos(a);
    lemma_unit_pos();
    lemma2_to64_rest();
    assert(2 * e + k == a.exp + BIAS);
    lemma_pow2_adds(a.exp, BIAS as nat);
    lemma_pow2_adds(2 * e, k);
    let (ea, ek, ee, u) = (pow2(a.exp), pow2(k), pow2(2 * e), unit());
    assert((a.mant * ea) * (u * u) == (a.mant * ek) * (u * ee)) by (nonlinear_arith)
        requires
            ea * u == ee * ek,
    ;
    assert(MANT_LO * MANT_LO <= s < MANT_HI * MANT_HI) by (nonlinear_arith)
        requires
            s == a.mant * ek,
            MANT_LO <= a.mant < MANT_HI,
            MANT_LO <= ek <= MANT_HI,
    ;
}

/// Every integer has an integer root.
proof fn lemma_floor_root_exists(s: nat) -> (r: nat)
    ensures
        r * r <= s < (r + 1) * (r + 1),
    decreases s,
{
    if s == 0 {
        assert(0 * 0 <= s < (0 + 1) * (0 + 1)) by (nonlinear_arith)
            requires
                s == 0,
        ;
        0
    } else {
        let below = lemma_floor_root_exists((s - 1) as nat);
        let next = below + 1;
        assert(next * next < (next + 1) * (next + 1)) by (nonlinear_arith)
            requires
                next >= 0,
        ;
        if s < next * next {
            below
        } else {
            next
        }
    }
}

/// A rounded root: 53 bits, half the exponent, and a relative error of at most `2^-53`.
pub proof fn lemma_root_error(a: Float)
    requires
        a.normal(),
    ensures
        a.root().normal(),
        a.exp + 1022 <= 2 * a.root().exp <= a.exp + 1025,
        ({
            let v = a.root().num();
            (MANT_HI - 1) * (MANT_HI - 1) * (a.num() * unit()) <= MANT_HI * MANT_HI * (v * v) <= (
            MANT_HI + 1) * (MANT_HI + 1) * (a.num() * unit())
        }),
{
    lemma_root(a);
    let k = root_shift(a);
    let e = ((a.exp + BIAS - k) / 2) as nat;
    let s = a.mant * pow2(k);
    let r = lemma_floor_root_exists(s);
    let u = unit();
    lemma_nearest_root_error(a.num(), u, s, r, e);
    let v = a.root().num();
    let p = a.num();
    let lo = (MANT_HI - 1) * (MANT_HI - 1);
    let h = MANT_HI * MANT_HI;
    let hi = (MANT_HI + 1) * (MANT_HI + 1);
    assert(lo * (p * u) <= h * (v * v) <= hi * (p * u)) by (nonlinear_arith)
        requires
            lo * (p * (u * u)) <= h * (v * v * u) <= hi * (p * (u * u)),
            u > 0,
    ;
}

/// Every fraction that is not too small has an exponent.
proof fn lemma_binade_exists(p: nat, q: nat, from: nat) -> (e: nat)
    requires
        q > 0,
        MANT_LO * (q * pow2(from)) <= p * unit(),
    ensures
        in_binade(p, q, e),
        e >= from,
    decreases p * unit() - MANT_LO * (q * pow2(from)),
{
    if p * unit() < MANT_HI * (q * pow2(from)) {
        from
    } else {
        lemma_pow2_unfold(from + 1);
        lemma_pow2_pos(from);
        let a = pow2(from);
        assert(q * (2 * a) == 2 * (q * a) && q * a > 0) by (nonlinear_arith)
            requires
                q > 0,
                a > 0,
        ;
        lemma_binade_exists(p, q, from + 1)
    }
}

/// A rounded integer of at most 64 bits: 53 bits, an exponent that fits them, and a relative
/// error of at most `2^-53`.
pub proof fn lemma_of_int_error(x: nat)
    requires
        0 < x < 0x1_0000_0000_0000_0000,
    ensures
        of_int(x).normal(),
        1023 <= of_int(x).exp <= 1087,
        (MANT_HI - 1) * (x * unit()) <= MANT_HI * of_int(x).num() <= (MANT_HI + 1) * (x * unit()),
{
    lemma2_to64();
    lemma2_to64_rest();
    lemma_unit_pos();
    lemma_pow2_adds(52, 1023);
    assert(x * unit() >= unit()) by (nonlinear_arith)
        requires
            x >= 1,
    ;
    let e = lemma_binade_exists(x, 1, 1023);
    if e >= 1087 {
        lemma_pow2_adds(1087, 52);
        lemma_pow2_adds(64, 1075);
        if e > 1087 {
            lemma_pow2_strictly_increases(1087, e);
        }
        assert(x * unit() < pow2(64) * unit()) by (nonlinear_arith)
            requires
                x < pow2(64),
                unit() > 0,
        ;
    }
    lemma_nearest_error(x, 1, e);
}

/// A fraction that 53 bits can write is not rounded.
pub proof fn lemma_nearest_exact(p: nat, q: nat, e: nat, n: nat, to: nat)
    requires
        q > 0,
        in_binade(p, q, e),
        p * unit() == n * (q * pow2(to)),
        n < MANT_HI,
    ensures
        nearest(p, q).num() * q == p * unit(),
        nearest(p, q).exp == e,
        e <= to,
{
    lemma_binade_unique(p, q, e, exponent(p, q));
    let big_n = p * unit();
    if e > to {
        lemma_binade_order(q, to, e);
        lemma_pow2_pos(to);
        let c = q * pow2(to);
        assert(c > 0 && n * c < MANT_HI * c) by (nonlinear_arith)
            requires
                c == q * pow2(to),
                q > 0,
                pow2(to) > 0,
                n < MANT_HI,
        ;
    }
    lemma_pow2_pos(e);
    lemma_pow2_adds((to - e) as nat, e);
    let (lift, pe) = (pow2((to - e) as nat), pow2(e));
    let d = q * pe;
    let m = n * lift;
    assert(d > 0 && big_n == m * d) by (nonlinear_arith)
        requires
            d == q * pe,
            q > 0,
            pe > 0,
            m == n * lift,
            big_n == n * (q * (lift * pe)),
    ;
    vstd::arithmetic::div_mod::lemma_fundamental_div_mod_converse(
        big_n as int,
        d as int,
        m as int,
        0,
    );
    assert(m < MANT_HI) by (nonlinear_arith)
        requires
            m * d < MANT_HI * d,
            d > 0,
    ;
    assert(m * pe * q == m * d) by (nonlinear_arith)
        requires
            d == q * pe,
    ;
}

/// An integer of at most 53 bits is not rounded.
pub proof fn lemma_of_int_exact(x: nat)
    requires
        0 < x < MANT_HI,
    ensures
        of_int(x).num() == x * unit(),
        of_int(x).exp <= BIAS,
{
    lemma2_to64_rest();
    lemma_unit_pos();
    lemma_pow2_adds(52, 1023);
    assert(x * unit() >= unit()) by (nonlinear_arith)
        requires
            x >= 1,
    ;
    let e = lemma_binade_exists(x, 1, 1023);
    lemma_nearest_exact(x, 1, e, x, BIAS as nat);
}

/// The quotient of a 32-bit integer and one of at most 53 bits that is a whole number of halves is
/// not rounded.
pub proof fn lemma_halves_exact(x: nat, f: nat, n: nat)
    requires
        0 < x <= u32::MAX,
        0 < f < MANT_HI,
        2 * x == n * f,
    ensures
        2 * of_int(x).over(of_int(f)).num() == n * unit(),
{
    lemma_of_int_error(x);
    lemma_of_int_error(f);
    lemma_of_int_exact(x);
    lemma_of_int_exact(f);
    let (a, b) = (of_int(x), of_int(f));
    lemma_over(a, b);
    let k = quotient_shift(a, b);
    let e = (a.exp + BIAS - b.exp - k) as nat;
    lemma_nearest(a.num(), b.num(), a.mant * pow2(k), b.mant, e);
    lemma_pow2_unfold(BIAS as nat);
    lemma_unit_pos();
    let half = pow2(1074);
    let u = unit();
    assert(n <= 2 * x) by (nonlinear_arith)
        requires
            2 * x == n * f,
            f >= 1,
    ;
    assert(x * u * u == n * (f * u * half)) by (nonlinear_arith)
        requires
            2 * x == n * f,
            u == 2 * half,
    ;
    lemma_nearest_exact(a.num(), b.num(), e, n, 1074);
    let v = a.over(b).num();
    assert(2 * v == n * u) by (nonlinear_arith)
        requires
            v * (f * u) == x * u * u,
            2 * x == n * f,
            f > 0,
            u > 0,
    ;
}

/// The product of two 32-bit integers is rounded once: multiplied as numbers, they give what
/// their integer product rounds to.
pub proof fn law_product_of_integers(x: nat, y: nat)
    requires
        0 < x <= u32::MAX,
        0 < y <= u32::MAX,
    ensures
        of_int(x).times(of_int(y)) == of_int(x * y),
{
    lemma_of_int_exact(x);
    lemma_of_int_exact(y);
    lemma2_to64_rest();
    lemma_unit_pos();
    lemma_pow2_adds(52, 1023);
    let u = unit();
    let xy = x * y;
    assert(xy > 0 && xy * u >= u) by (nonlinear_arith)
        requires
            xy == x * y,
            x > 0,
            y > 0,
    ;
    let e = lemma_binade_exists(xy, 1, 1023);
    lemma_binade_unique(xy, 1, e, exponent(xy, 1));
    let (p, q) = ((x * u) * (y * u), u * u);
    let (n, d) = (xy * u, 1 * pow2(e));
    lemma_pow2_pos(e);
    assert(q > 0 && p * u == n * q && q * pow2(e) == d * q) by (nonlinear_arith)
        requires
            p == (x * u) * (y * u),
            q == u * u,
            n == x * y * u,
            d == pow2(e),
            u > 0,
    ;
    assert(in_binade(p, q, e)) by {
        let (lo, hi) = (MANT_LO as int, MANT_HI as int);
        assert(lo * (d * q) <= n * q < hi * (d * q)) by (nonlinear_arith)
            requires
                lo * d <= n < hi * d,
                q > 0,
        ;
    }
    lemma_binade_unique(p, q, e, exponent(p, q));
    assert((n * q) * d == n * (d * q)) by (nonlinear_arith);
    lemma_round_half_even_scales(n, d, p * u, q * pow2(e));
}

/// `r` is the number nearest to `n / q` over [`unit`]: off by at most half of its last place, by a
/// quarter where `n / q` lies below the numbers with its exponent, and even where it is off by
/// exactly one half.
pub open spec fn is_nearest(r: Float, n: nat, q: nat) -> bool {
    let last = q * pow2(r.exp);
    let x = r.mant * last;
    &&& 0x10_0000_0000_0000 <= r.mant < 0x20_0000_0000_0000
    &&& 2 * (n - x) <= last
    &&& 2 * (x - n) <= last
    &&& 2 * (n - x) == last || 2 * (x - n) == last ==> r.mant % 2 == 0
    &&& n < 0x10_0000_0000_0000 * last ==> 4 * (x - n) <= last
}

/// A fraction is rounded to the nearest number.
proof fn lemma_is_nearest(p: nat, q: nat, e: nat)
    requires
        q > 0,
        in_binade(p, q, e),
    ensures
        is_nearest(nearest(p, q), p * unit(), q),
{
    lemma_pow2_pos(e);
    lemma_pow2_unfold(e + 1);
    lemma_binade_unique(p, q, e, exponent(p, q));
    let (n, pe) = (p * unit(), pow2(e));
    let d = q * pe;
    assert(d > 0 && q * (2 * pe) == 2 * d) by (nonlinear_arith)
        requires
            q > 0,
            pe > 0,
            d == q * pe,
    ;
    let m = round_half_even(n, d);
    let (k, r) = (n / d, n % d);
    vstd::arithmetic::div_mod::lemma_fundamental_div_mod(n as int, d as int);
    assert(MANT_LO <= k < MANT_HI) by (nonlinear_arith)
        requires
            n == d * k + r,
            0 <= r < d,
            MANT_LO * d <= n < MANT_HI * d,
    ;
    assert(k * d == d * k && (k + 1) * d == d * k + d) by (nonlinear_arith);
    if m == MANT_HI {
        assert(MANT_LO * (2 * d) == (k + 1) * d) by (nonlinear_arith)
            requires
                k + 1 == 2 * MANT_LO,
        ;
    }
}

/// A positive integer becomes the number nearest to it.
pub proof fn law_integers_round_to_nearest(x: nat)
    requires
        x > 0,
    ensures
        is_nearest(of_int(x), x * unit(), 1),
{
    lemma2_to64_rest();
    lemma_unit_pos();
    lemma_pow2_adds(52, 1023);
    assert(x * unit() >= unit()) by (nonlinear_arith)
        requires
            x >= 1,
    ;
    let e = lemma_binade_exists(x, 1, 1023);
    lemma_is_nearest(x, 1, e);
}

/// A quotient is the number nearest to the exact quotient.
pub proof fn law_quotients_round_to_nearest(a: Float, b: Float)
    requires
        a.normal(),
        b.normal(),
        a.exp + BIAS >= b.exp + 53,
    ensures
        is_nearest(a.over(b), (a.mant * pow2(a.exp)) * unit(), b.mant * pow2(b.exp)),
{
    lemma_over(a, b);
    let k = quotient_shift(a, b);
    let e = (a.exp + BIAS - b.exp - k) as nat;
    lemma_nearest(a.num(), b.num(), a.mant * pow2(k), b.mant, e);
    lemma_is_nearest(a.num(), b.num(), e);
}

/// A product is the number nearest to the exact product.
pub proof fn law_products_round_to_nearest(a: Float, b: Float)
    requires
        a.normal(),
        b.normal(),
        a.exp + b.exp + 52 >= BIAS,
    ensures
        is_nearest(
            a.times(b),
            ((a.mant * pow2(a.exp)) * (b.mant * pow2(b.exp))) * unit(),
            unit() * unit(),
        ),
{
    lemma_times(a, b);
    let k = product_shift(a, b);
    let e = (a.exp + b.exp + k - BIAS) as nat;
    let p = a.num() * b.num();
    let q = unit() * unit();
    lemma_nearest(p, q, a.mant * b.mant, pow2(k), e);
    lemma_is_nearest(p, q, e);
}

/// A square root is the number nearest to the exact root: what it is taken of lies between the
/// squares of the halves below and above it.
pub proof fn law_roots_round_to_nearest(a: Float)
    requires
        a.normal(),
    ensures
        ({
            let r = a.root();
            let n = (a.mant * pow2(a.exp)) * unit();
            let last = pow2(2 * r.exp);
            &&& 0x10_0000_0000_0000 <= r.mant < 0x20_0000_0000_0000
            &&& (2 * r.mant - 1) * (2 * r.mant - 1) * last <= 4 * n
            &&& 4 * n <= (2 * r.mant + 1) * (2 * r.mant + 1) * last
        }),
{
    lemma_root(a);
    lemma_root_error(a);
    let k = root_shift(a);
    let e = ((a.exp + BIAS - k) / 2) as nat;
    let s = a.mant * pow2(k);
    let f = lemma_floor_root_exists(s);
    let (u, p) = (unit(), a.num());
    lemma_nearest_root(p, u, s, f, e);
    let (n, pe) = (p * u, pow2(2 * e));
    assert(n == s * pe) by (nonlinear_arith)
        requires
            p * (u * u) == s * (u * pe),
            n == p * u,
            u > 0,
    ;
    let m = (if 4 * s < (2 * f + 1) * (2 * f + 1) || (4 * s == (2 * f + 1) * (2 * f + 1) && f % 2
        == 0) {
        f
    } else {
        f + 1
    });
    lemma_pow2_pos(2 * e);
    assert(f >= 1) by (nonlinear_arith)
        requires
            s >= MANT_LO * MANT_LO,
            s < (f + 1) * (f + 1),
            MANT_LO == 0x10_0000_0000_0000,
            f >= 0,
    ;
    let (lo, hi) = ((2 * m - 1) * (2 * m - 1), (2 * m + 1) * (2 * m + 1));
    assert(lo <= 4 * s <= hi) by (nonlinear_arith)
        requires
            lo == (2 * m - 1) * (2 * m - 1),
            hi == (2 * m + 1) * (2 * m + 1),
            f * f <= s < (f + 1) * (f + 1),
            m == f && 4 * s <= (2 * f + 1) * (2 * f + 1) || m == f + 1 && 4 * s >= (2 * f + 1) * (2
                * f + 1),
            f >= 1,
    ;
    assert(lo * pe <= 4 * n <= hi * pe) by (nonlinear_arith)
        requires
            lo <= 4 * s <= hi,
            n == s * pe,
            pe > 0,
    ;
    if m == MANT_HI {
        lemma_pow2_adds(2 * e, 2);
        lemma2_to64();
        assert(2 * (e + 1) == 2 * e + 2);
        let c = MANT_LO as int;
        let wide = pe * 4;
        let (lo2, hi2) = ((2 * c - 1) * (2 * c - 1), (2 * c + 1) * (2 * c + 1));
        assert(lo2 * wide <= lo * pe && hi * pe <= hi2 * wide) by (nonlinear_arith)
            requires
                lo2 == (2 * c - 1) * (2 * c - 1),
                hi2 == (2 * c + 1) * (2 * c + 1),
                lo == (2 * m - 1) * (2 * m - 1),
                hi == (2 * m + 1) * (2 * m + 1),
                wide == pe * 4,
                m == 2 * c,
                c >= 1,
                pe > 0,
        ;
    }
}

/// The integer parts of a number: the largest integer not above it, and the smallest not below.
pub proof fn law_integer_parts(a: Float)
    ensures
        a.floor() * unit() <= a.mant * pow2(a.exp) < (a.floor() + 1) * unit(),
        a.ceil() * unit() >= a.mant * pow2(a.exp),
        a.mant > 0 ==> a.ceil() >= 1 && (a.ceil() - 1) * unit() < a.mant * pow2(a.exp),
        a.mant == 0 ==> a.ceil() == 0,
{
    lemma_unit_pos();
    lemma_pow2_pos(a.exp);
    let (u, n) = (unit() as int, a.num() as int);
    vstd::arithmetic::div_mod::lemma_fundamental_div_mod(n, u);
    vstd::arithmetic::div_mod::lemma_fundamental_div_mod(n + u - 1, u);
    let (f, c) = (n / u, (n + u - 1) / u);
    assert(f * u == u * f && (f + 1) * u == u * f + u) by (nonlinear_arith);
    assert(c * u == u * c && (c - 1) * u == u * c - u) by (nonlinear_arith);
    vstd::arithmetic::div_mod::lemma_div_pos_is_pos(n, u);
    vstd::arithmetic::div_mod::lemma_div_pos_is_pos(n + u - 1, u);
    if a.mant > 0 {
        vstd::arithmetic::mul::lemma_mul_strictly_positive(a.mant as int, pow2(a.exp) as int);
        assert(c >= 1) by (nonlinear_arith)
            requires
                n >= 1,
                n + u - 1 < u * c + u,
                u > 0,
        ;
    } else {
        assert(n == 0) by (nonlinear_arith)
            requires
                n == a.mant * pow2(a.exp),
                a.mant == 0,
        ;
        vstd::arithmetic::div_mod::lemma_basic_div(u - 1, u);
    }
}

/// Twice a fraction rounds to twice the number, and doubling numerator and denominator changes
/// nothing.
proof fn lemma_nearest_doubled(p: nat, q: nat, e: nat)
    requires
        q > 0,
        in_binade(p, q, e),
    ensures
        nearest(2 * p, q) == nearest(p, q).doubled(),
        nearest(2 * p, 2 * q) == nearest(p, q),
{
    let (u, pe) = (unit(), pow2(e));
    let (n, d) = (p * u, q * pe);
    lemma_pow2_pos(e);
    lemma_pow2_unfold(e + 1);
    assert(d > 0) by (nonlinear_arith)
        requires
            d == q * pe,
            q > 0,
            pe > 0,
    ;
    assert(2 * p * u * d == n * (q * (2 * pe)) && 2 * p * u * d == n * (2 * q * pe))
        by (nonlinear_arith)
        requires
            n == p * u,
            d == q * pe,
    ;
    lemma_nearest(p, q, n, d, e);
    lemma_nearest(2 * p, q, n, d, e + 1);
    lemma_nearest(2 * p, 2 * q, n, d, e);
}

/// Twice an integer rounds to twice the number.
pub proof fn lemma_of_int_doubled(x: nat)
    requires
        x > 0,
    ensures
        of_int(2 * x) == of_int(x).doubled(),
{
    lemma2_to64_rest();
    lemma_unit_pos();
    lemma_pow2_adds(52, 1023);
    assert(x * unit() >= unit()) by (nonlinear_arith)
        requires
            x >= 1,
    ;
    let e = lemma_binade_exists(x, 1, 1023);
    lemma_nearest_doubled(x, 1, e);
}

proof fn lemma_num_doubled(a: Float)
    ensures
        a.doubled().num() == 2 * a.num(),
{
    lemma_pow2_unfold(a.exp + 1);
    let (m, pe) = (a.mant, pow2(a.exp));
    assert(m * (2 * pe) == 2 * (m * pe)) by (nonlinear_arith);
}

/// Twice a number over another is twice their quotient, and over twice the other the same quotient.
pub proof fn lemma_over_doubled(a: Float, b: Float)
    requires
        a.normal(),
        b.normal(),
        a.exp + BIAS >= b.exp + 53,
    ensures
        a.doubled().over(b) == a.over(b).doubled(),
        a.doubled().over(b.doubled()) == a.over(b),
{
    lemma_over(a, b);
    let k = quotient_shift(a, b);
    let e = (a.exp + BIAS - b.exp - k) as nat;
    lemma_nearest(a.num(), b.num(), a.mant * pow2(k), b.mant, e);
    lemma_nearest_doubled(a.num(), b.num(), e);
    lemma_num_doubled(a);
    lemma_num_doubled(b);
}

/// Twice a number times another is twice their product.
pub proof fn lemma_times_doubled(a: Float, b: Float)
    requires
        a.normal(),
        b.normal(),
        a.exp + b.exp + 52 >= BIAS,
    ensures
        a.doubled().times(b) == a.times(b).doubled(),
{
    lemma_times(a, b);
    let k = product_shift(a, b);
    let e = (a.exp + b.exp + k - BIAS) as nat;
    let p = a.num() * b.num();
    let q = unit() * unit();
    lemma_nearest(p, q, a.mant * b.mant, pow2(k), e);
    lemma_nearest_doubled(p, q, e);
    lemma_num_doubled(a);
    let (x, y) = (a.num(), b.num());
    assert(2 * x * y == 2 * (x * y)) by (nonlinear_arith);
}

/// A power of two has the smallest mantissa.
pub proof fn lemma_of_int_pow2(k: nat)
    ensures
        of_int(pow2(k)) == (Float { mant: MANT_LO as nat, exp: 1023 + k }),
{
    lemma2_to64_rest();
    lemma_pow2_adds(k, BIAS as nat);
    lemma_pow2_adds(52, 1023 + k);
    lemma_nearest(pow2(k), 1, MANT_LO as nat, 1, 1023 + k);
}

/// Over a power of two, only the exponent changes.
pub proof fn lemma_over_pow2(a: Float, b: Float)
    requires
        a.normal(),
        b.mant == MANT_LO,
        a.exp + BIAS >= b.exp + 53,
    ensures
        a.over(b) == (Float { mant: a.mant, exp: (a.exp + 1023 - b.exp) as nat }),
{
    lemma_over(a, b);
    lemma2_to64_rest();
    let e = (a.exp + 1023 - b.exp) as nat;
    lemma_nearest(a.num(), b.num(), a.mant * pow2(52), b.mant, e);
    vstd::arithmetic::div_mod::lemma_fundamental_div_mod_converse(
        (a.mant * MANT_LO) as int,
        MANT_LO as int,
        a.mant as int,
        0,
    );
}

/// Over a number with the same mantissa, a power of two remains.
pub proof fn lemma_over_same_mant(a: Float, b: Float)
    requires
        a.normal(),
        b.mant == a.mant,
        a.exp + BIAS >= b.exp + 53,
    ensures
        a.over(b) == (Float { mant: MANT_LO as nat, exp: (a.exp + 1023 - b.exp) as nat }),
{
    lemma_over(a, b);
    lemma2_to64_rest();
    let e = (a.exp + 1023 - b.exp) as nat;
    let n = (a.mant * MANT_LO) as nat;
    assert(n == MANT_LO * a.mant) by (nonlinear_arith)
        requires
            n == a.mant * MANT_LO,
    ;
    lemma_nearest(a.num(), b.num(), n, b.mant, e);
    vstd::arithmetic::div_mod::lemma_fundamental_div_mod_converse(
        n as int,
        a.mant as int,
        MANT_LO as int,
        0,
    );
}

/// A rounded integer lies below the end of its binade.
proof fn lemma_of_int_below(x: nat)
    requires
        x > 0,
    ensures
        x * unit() < MANT_HI * pow2(of_int(x).exp),
{
    lemma2_to64_rest();
    lemma_unit_pos();
    lemma_pow2_adds(52, 1023);
    assert(x * unit() >= unit()) by (nonlinear_arith)
        requires
            x >= 1,
    ;
    let e = lemma_binade_exists(x, 1, 1023);
    lemma_nearest_error(x, 1, e);
    if e < of_int(x).exp {
        lemma_pow2_strictly_increases(e, of_int(x).exp);
    }
}

/// An integer `s` closer to the square of `m` than `m` has the rounded root `m`.
proof fn lemma_root_rounds_to(p: nat, q: nat, s: nat, m: nat, e: nat)
    requires
        q > 0,
        p * (unit() * unit()) == s * (q * pow2(2 * e)),
        MANT_LO * MANT_LO <= s < MANT_HI * MANT_HI,
        MANT_LO <= m < MANT_HI,
        m * m - m < s < m * m + m,
    ensures
        nearest_root(p, q) == (Float { mant: m, exp: e }),
{
    let r = (if s >= m * m {
        m
    } else {
        (m - 1) as nat
    });
    assert((m - 1) * (m - 1) == m * m - 2 * m + 1 && (m + 1) * (m + 1) == m * m + 2 * m + 1)
        by (nonlinear_arith);
    assert((2 * m + 1) * (2 * m + 1) == 4 * (m * m) + 4 * m + 1 && (2 * (m - 1) + 1) * (2 * (m - 1)
        + 1) == 4 * (m * m) - 4 * m + 1) by (nonlinear_arith);
    lemma_nearest_root(p, q, s, r, e);
}

/// The root of a square is not rounded wrong: the square of a 32-bit integer, rounded, over a power
/// of four has the integer over a power of two as its rounded root.
pub proof fn lemma_root_of_square(n: nat, k: nat)
    requires
        0 < n <= u32::MAX,
        k <= 32,
    ensures
        ({
            let (a, b) = (of_int(n * n), of_int(n));
            Float { mant: a.mant, exp: (a.exp - 2 * k) as nat }.root() == (Float {
                mant: b.mant,
                exp: (b.exp - k) as nat,
            })
        }),
{
    let nn = n * n;
    assert(0 < nn <= u32::MAX * u32::MAX) by (nonlinear_arith)
        requires
            nn == n * n,
            0 < n <= u32::MAX,
    ;
    let (a, b) = (of_int(nn), of_int(n));
    lemma_of_int_error(nn);
    lemma_of_int_error(n);
    lemma_of_int_exact(n);
    lemma_unit_pos();
    lemma2_to64_rest();
    let t = Float { mant: a.mant, exp: (a.exp - 2 * k) as nat };
    let (m, u) = (b.mant, unit());
    let shift = lemma_square_exponent(n);
    let s = a.mant * pow2(shift);
    assert(root_shift(t) == shift);
    let e = ((t.exp + BIAS - shift) / 2) as nat;
    assert(e == b.exp - k);
    lemma_root(t);
    lemma_root_rounds_to(t.num(), u, s, m, e);
}

/// The exponent of a rounded square is twice that of the side, and the mantissa is as close to the
/// square of the mantissa.
proof fn lemma_square_exponent(n: nat) -> (shift: nat)
    requires
        0 < n <= u32::MAX,
    ensures
        52 <= shift <= 53,
        of_int(n * n).exp + BIAS == shift + 2 * of_int(n).exp,
        ({
            let m = of_int(n).mant;
            m * m - m < of_int(n * n).mant * pow2(shift) < m * m + m
        }),
{
    let nn = n * n;
    assert(0 < nn <= u32::MAX * u32::MAX) by (nonlinear_arith)
        requires
            nn == n * n,
            0 < n <= u32::MAX,
    ;
    let (a, b) = (of_int(nn), of_int(n));
    lemma_of_int_error(nn);
    lemma_of_int_error(n);
    lemma_of_int_exact(n);
    lemma_unit_pos();
    let (m, u) = (b.mant, unit());
    let top = a.exp + BIAS as nat;
    let low = 2 * b.exp;
    lemma_pow2_adds(b.exp, b.exp);
    lemma_pow2_adds(a.exp, BIAS as nat);
    let (eb, el, et) = (pow2(b.exp), pow2(low), pow2(top));
    let mm = m * m;
    assert(b.exp + b.exp == low);
    // both sides times the square of the unit
    assert(mm * el == nn * (u * u)) by (nonlinear_arith)
        requires
            m * eb == n * u,
            el == eb * eb,
            mm == m * m,
            nn == n * n,
    ;
    let am = a.mant;
    assert(am * et == a.num() * u) by (nonlinear_arith)
        requires
            a.num() == am * pow2(a.exp),
            et == pow2(a.exp) * u,
    ;
    let h = MANT_HI as int;
    assert((h - 1) * (mm * el) <= h * (am * et) <= (h + 1) * (mm * el)) by {
        let (v, w) = (a.num() as int, nn * u);
        assert((h - 1) * (w * u) <= h * (v * u) <= (h + 1) * (w * u)) by (nonlinear_arith)
            requires
                (h - 1) * w <= h * v <= (h + 1) * w,
                u > 0,
        ;
        assert(w * u == nn * (u * u)) by (nonlinear_arith)
            requires
                w == nn * u,
        ;
    }
    lemma_pow2_pos(low);
    lemma2_to64_rest();
    assert(MANT_LO * MANT_LO <= mm <= (MANT_HI - 1) * (MANT_HI - 1)) by (nonlinear_arith)
        requires
            mm == m * m,
            MANT_LO <= m <= MANT_HI - 1,
    ;
    lemma_of_int_below(nn);
    assert(mm * el < MANT_HI * et) by (nonlinear_arith)
        requires
            mm * el == nn * (u * u),
            nn * u < MANT_HI * pow2(a.exp),
            et == pow2(a.exp) * u,
            u > 0,
    ;
    assert(MANT_LO * el < 2 * et) by (nonlinear_arith)
        requires
            mm * el < MANT_HI * et,
            mm >= MANT_LO * MANT_LO,
            MANT_HI == 2 * MANT_LO,
            MANT_LO > 0,
            el > 0,
    ;
    if top < low + 52 {
        lemma_pow2_adds(low, 52);
        lemma_pow2_strictly_increases(top, low + 52);
        lemma_pow2_unfold(low + 52);
        if top < low + 51 {
            lemma_pow2_strictly_increases(top, (low + 51) as nat);
        }
        assert(el * MANT_LO == MANT_LO * el) by (nonlinear_arith);
    }
    lemma_pow2_adds(low, (top - low) as nat);
    let shift = (top - low) as nat;
    let es = pow2(shift);
    let s = am * es;
    assert(am * et == s * el) by (nonlinear_arith)
        requires
            et == el * es,
            s == am * es,
    ;
    assert((h - 1) * mm <= h * s <= (h + 1) * mm) by (nonlinear_arith)
        requires
            (h - 1) * (mm * el) <= h * (s * el) <= (h + 1) * (mm * el),
            el > 0,
    ;
    assert(mm - m < s < mm + m) by (nonlinear_arith)
        requires
            (h - 1) * mm <= h * s <= (h + 1) * mm,
            mm == m * m,
            0 < m < h,
    ;
    if shift >= 54 {
        lemma_pow2_unfold(54);
        if shift > 54 {
            lemma_pow2_strictly_increases(54, shift);
        }
        assert(s >= 4 * (MANT_LO * MANT_LO)) by (nonlinear_arith)
            requires
                s == am * es,
                am >= MANT_LO,
                es >= 4 * MANT_LO,
        ;
    }
    shift
}

/// A number at most `2^53` is its mantissa over a power of two.
proof fn lemma_num_over_unit(a: Float)
    requires
        a.exp <= BIAS,
    ensures
        ({
            let d = pow2((BIAS - a.exp) as nat);
            &&& a.floor() == a.mant / d
            &&& a.ceil() == (a.mant + d - 1) / d as int
        }),
{
    let s = (BIAS - a.exp) as nat;
    lemma_pow2_adds(a.exp, s);
    lemma_pow2_pos(s);
    lemma_pow2_pos(a.exp);
    lemma_unit_pos();
    let (d, ea) = (pow2(s) as int, pow2(a.exp) as int);
    let u = unit() as int;
    let q = a.mant as int / d;
    let r = a.mant as int % d;
    vstd::arithmetic::div_mod::lemma_fundamental_div_mod(a.mant as int, d);
    assert(a.num() == q * u + r * ea && 0 <= r * ea < u) by (nonlinear_arith)
        requires
            a.num() == a.mant * ea,
            a.mant == d * q + r,
            0 <= r < d,
            u == ea * d,
            ea > 0,
    ;
    vstd::arithmetic::div_mod::lemma_fundamental_div_mod_converse(a.num() as int, u, q, r * ea);
    let n = a.mant + d - 1;
    let q2 = n / d;
    let r2 = n % d;
    vstd::arithmetic::div_mod::lemma_fundamental_div_mod(n, d);
    let r3 = r2 * ea + ea - 1;
    assert(a.num() + u - 1 == q2 * u + r3 && 0 <= r3 < u) by (nonlinear_arith)
        requires
            a.num() == a.mant * ea,
            a.mant + d - 1 == d * q2 + r2,
            r3 == r2 * ea + ea - 1,
            0 <= r2 < d,
            u == ea * d,
            ea > 0,
    ;
    vstd::arithmetic::div_mod::lemma_fundamental_div_mod_converse(a.num() + u - 1, u, q2, r3);
}

impl Binary64 {
    /// Rounds a quotient of 53 bits at exponent `e`.
    fn round_quotient(n: u128, d: u128, e: u32) -> (r: Self)
        requires
            0 < d <= MANT_HI,
            MANT_LO * d <= n < MANT_HI * d,
            1 <= e <= 2045,
        ensures
            r.wf(),
            r@ == carry(round_half_even(n as nat, d as nat), e as nat),
    {
        let q: u128 = n / d;
        let r: u128 = n % d;
        proof {
            vstd::arithmetic::div_mod::lemma_fundamental_div_mod(n as int, d as int);
            assert(MANT_LO <= q < MANT_HI) by (nonlinear_arith)
                requires
                    n == d * q + r,
                    0 <= r < d,
                    MANT_LO * d <= n < MANT_HI * d,
            ;
        }
        let m: u64 = q as u64;
        let up = 2 * r > d || (2 * r == d && m % 2 == 1);
        Self::with_carry(m, up, e)
    }

    /// The number whose mantissa is `m`, or `m + 1` if it is rounded up.
    fn with_carry(m: u64, up: bool, e: u32) -> (r: Self)
        requires
            MANT_LO <= m < MANT_HI,
            1 <= e <= 2045,
        ensures
            r.wf(),
            r@ == carry(if up { m as nat + 1 } else { m as nat }, e as nat),
    {
        if !up {
            Binary64 { mant: m, exp: e }
        } else if m + 1 == MANT_HI {
            Binary64 { mant: MANT_LO, exp: e + 1 }
        } else {
            Binary64 { mant: m + 1, exp: e }
        }
    }

    /// A positive integer, rounded.
    pub fn from_u64(x: u64) -> (r: Self)
        requires
            x > 0,
        ensures
            r.wf(),
            r@ == of_int(x as nat),
    {
        if x < MANT_HI {
            let mut m: u64 = x;
            let mut k: u32 = 0;
            proof {
                lemma2_to64();
                lemma2_to64_rest();
            }
            while m < MANT_LO
                invariant
                    0 < x,
                    m == x * pow2(k as nat),
                    m < MANT_HI,
                    k <= 52,
                    pow2(52) == MANT_LO,
                decreases MANT_HI - m,
            {
                proof {
                    lemma_pow2_unfold(k as nat + 1);
                    lemma_pow2_pos(k as nat);
                    let a = pow2(k as nat);
                    assert(x * (2 * a) == 2 * (x * a) && x * a > 0 && x * a >= a)
                        by (nonlinear_arith)
                        requires
                            x >= 1,
                            a > 0,
                    ;
                    assert(k < 52);
                }
                m = 2 * m;
                k = k + 1;
            }
            proof {
                let e = (BIAS - k) as nat;
                lemma_pow2_adds(k as nat, e);
                let (ek, ee, u) = (pow2(k as nat), pow2(e), unit());
                assert(x * u * 1 == m * (1 * ee)) by (nonlinear_arith)
                    requires
                        m == x * ek,
                        u == ek * ee,
                ;
                lemma_nearest(x as nat, 1, m as nat, 1, e);
                assert(round_half_even(m as nat, 1) == m) by (nonlinear_arith);
            }
            Binary64 { mant: m, exp: BIAS - k }
        } else {
            let mut d: u64 = 1;
            let mut k: u32 = 0;
            proof {
                lemma2_to64();
            }
            let mut end: u128 = MANT_HI as u128;
            while x as u128 >= end
                invariant
                    d == pow2(k as nat),
                    end == MANT_HI * d,
                    MANT_LO * d <= x,
                    1 <= d <= 0x1000,
                    k < d,
                decreases x - d,
            {
                proof {
                    lemma_pow2_unfold(k as nat + 1);
                }
                d = 2 * d;
                end = 2 * end;
                k = k + 1;
            }
            proof {
                let e = (BIAS + k) as nat;
                lemma_pow2_adds(BIAS as nat, k as nat);
                let (ee, u) = (pow2(e), unit());
                assert(x * u * d == x * (1 * ee)) by (nonlinear_arith)
                    requires
                        ee == u * d,
                ;
                lemma_nearest(x as nat, 1, x as nat, d as nat, e);
            }
            assert(k <= 12) by {
                lemma2_to64();
                if k > 12 {
                    lemma_pow2_strictly_increases(12, k as nat);
                }
            }
            Self::round_quotient(x as u128, d as u128, BIAS + k)
        }
    }

    /// The largest integer not above a number below `2^53`.
    pub fn floor(self) -> (r: u64)
        requires
            self.wf(),
            self.exp <= BIAS,
        ensures
            r == self@.floor(),
    {
        let s: u32 = BIAS - self.exp;
        proof {
            lemma_num_over_unit(self@);
            lemma2_to64_rest();
        }
        if s >= 53 {
            proof {
                if s > 53 {
                    lemma_pow2_strictly_increases(53, s as nat);
                }
                vstd::arithmetic::div_mod::lemma_basic_div(self.mant as int, pow2(s as nat) as int);
            }
            0
        } else {
            proof {
                vstd::bits::lemma_u64_shr_is_div(self.mant, s as u64);
            }
            self.mant >> (s as u64)
        }
    }

    /// The smallest integer not below a number below `2^53`.
    pub fn ceil(self) -> (r: u64)
        requires
            self.wf(),
            self.exp <= BIAS,
        ensures
            r == self@.ceil(),
    {
        let s: u32 = BIAS - self.exp;
        proof {
            lemma_num_over_unit(self@);
            lemma2_to64_rest();
            lemma_pow2_pos(s as nat);
        }
        let ghost d = pow2(s as nat);
        if s >= 53 {
            proof {
                if s > 53 {
                    lemma_pow2_strictly_increases(53, s as nat);
                }
                vstd::arithmetic::div_mod::lemma_fundamental_div_mod_converse(
                    self.mant + d - 1,
                    d as int,
                    1,
                    self.mant - 1,
                );
            }
            1
        } else {
            proof {
                lemma_pow2_strictly_increases(s as nat, 53);
                vstd::bits::lemma_u64_shr_is_div(self.mant, s as u64);
                vstd::arithmetic::div_mod::lemma_fundamental_div_mod(self.mant as int, d as int);
            }
            let q: u64 = self.mant >> (s as u64);
            let ghost r = self.mant as int % d as int;
            proof {
                assert(q * d == d * q && q * d <= self.mant) by (nonlinear_arith)
                    requires
                        self.mant == d * q + r,
                        r >= 0,
                ;
                vstd::bits::lemma_u64_shl_is_mul(q, s as u64);
            }
            if q << (s as u64) == self.mant {
                proof {
                    vstd::arithmetic::div_mod::lemma_fundamental_div_mod_converse(
                        self.mant + d - 1,
                        d as int,
                        q as int,
                        d - 1,
                    );
                }
                q
            } else {
                proof {
                    assert(self.mant + d - 1 == (q + 1) * d + (r - 1)) by (nonlinear_arith)
                        requires
                            self.mant == d * q + r,
                    ;
                    assert(q < MANT_HI) by (nonlinear_arith)
                        requires
                            q * d <= self.mant,
                            self.mant < MANT_HI,
                            d >= 1,
                    ;
                    vstd::arithmetic::div_mod::lemma_fundamental_div_mod_converse(
                        self.mant + d - 1,
                        d as int,
                        q + 1,
                        r - 1,
                    );
                }
                q + 1
            }
        }
    }

    /// The product, rounded.
    pub fn mul(self, other: Self) -> (r: Self)
        requires
            self.wf(),
            other.wf(),
            BIAS + 1 <= self.exp + other.exp + 52,
            self.exp + other.exp + 53 <= BIAS + 2045,
        ensures
            r.wf(),
            r@ == self@.times(other@),
    {
        proof {
            lemma_times(self@, other@);
            lemma2_to64_rest();
            assert(self.mant * other.mant < MANT_HI * MANT_HI) by (nonlinear_arith)
                requires
                    self.mant < MANT_HI,
                    other.mant < MANT_HI,
            ;
            let k = product_shift(self@, other@);
            lemma_nearest(
                self@.num() * other@.num(),
                unit() * unit(),
                self@.mant * other@.mant,
                pow2(k),
                (self@.exp + other@.exp + k - BIAS) as nat,
            );
        }
        let n: u128 = self.mant as u128 * other.mant as u128;
        if n >= MANT_LO as u128 * MANT_HI as u128 {
            Self::round_quotient(n, MANT_HI as u128, self.exp + other.exp + 53 - BIAS)
        } else {
            Self::round_quotient(n, MANT_LO as u128, self.exp + other.exp + 52 - BIAS)
        }
    }

    /// The quotient, rounded.
    pub fn div(self, other: Self) -> (r: Self)
        requires
            self.wf(),
            other.wf(),
            other.exp + 54 <= self.exp + BIAS,
            self.exp + BIAS <= other.exp + 2097,
        ensures
            r.wf(),
            r@ == self@.over(other@),
    {
        proof {
            lemma_over(self@, other@);
            lemma2_to64_rest();
            assert(self.mant * MANT_HI < MANT_HI * MANT_HI) by (nonlinear_arith)
                requires
                    self.mant < MANT_HI,
            ;
            let k = quotient_shift(self@, other@);
            lemma_nearest(
                self@.num(),
                other@.num(),
                self@.mant * pow2(k),
                other@.mant,
                (self@.exp + BIAS - other@.exp - k) as nat,
            );
        }
        let d: u128 = other.mant as u128;
        if self.mant >= other.mant {
            let n: u128 = self.mant as u128 * MANT_LO as u128;
            Self::round_quotient(n, d, self.exp + BIAS - other.exp - 52)
        } else {
            let n: u128 = self.mant as u128 * MANT_HI as u128;
            Self::round_quotient(n, d, self.exp + BIAS - other.exp - 53)
        }
    }

    /// The integer part of the root of an integer of 105 or 106 bits.
    fn floor_sqrt(n: u128) -> (r: u64)
        requires
            MANT_LO * MANT_LO <= n < MANT_HI * MANT_HI,
        ensures
            MANT_LO <= r < MANT_HI,
            r * r <= n < (r + 1) * (r + 1),
    {
        let mut lo: u64 = MANT_LO;
        let mut hi: u64 = MANT_HI;
        while hi - lo > 1
            invariant
                MANT_LO <= lo < hi <= MANT_HI,
                lo * lo <= n < hi * hi,
            decreases hi - lo,
        {
            let mid: u64 = lo + (hi - lo) / 2;
            assert(mid * mid < MANT_HI * MANT_HI) by (nonlinear_arith)
                requires
                    mid < MANT_HI,
            ;
            if mid as u128 * mid as u128 <= n {
                lo = mid;
            } else {
                hi = mid;
            }
        }
        assert(hi == lo + 1);
        lo
    }

    /// The square root, rounded.
    pub fn sqrt(self) -> (r: Self)
        requires
            self.wf(),
        ensures
            r.wf(),
            r@ == self@.root(),
    {
        proof {
            lemma_root(self@);
            lemma2_to64_rest();
            assert(self.mant * MANT_HI < MANT_HI * MANT_HI) by (nonlinear_arith)
                requires
                    self.mant < MANT_HI,
            ;
        }
        let (n, e): (u128, u32) = if self.exp % 2 == 1 {
            (self.mant as u128 * MANT_LO as u128, (self.exp + BIAS - 52) / 2)
        } else {
            (self.mant as u128 * MANT_HI as u128, (self.exp + BIAS - 53) / 2)
        };
        let m: u64 = Self::floor_sqrt(n);
        proof {
            lemma_nearest_root(self@.num(), unit(), n as nat, m as nat, e as nat);
            assert((2 * m + 1) * (2 * m + 1) <= 4 * (MANT_HI * MANT_HI)) by (nonlinear_arith)
                requires
                    m < MANT_HI,
            ;
        }
        let mid: u128 = (2 * m as u128 + 1) * (2 * m as u128 + 1);
        let up = 4 * n > mid || (4 * n == mid && m % 2 == 1);
        Self::with_carry(m, up, e)
    }
}

} // verus!
