//! How large a vision processor makes an image, and how many tokens that is.
//!
//! ```text
//! factor           = patch_size * merge_size              // Qwen3-VL: 16 * 2 = 32
//! (h_bar, w_bar)   = smart_resize(h, w, factor, min_px, max_px)
//! num_image_tokens = h_bar * w_bar / factor^2             // == grid.prod() / merge^2
//! ```

use crate::binary64;
use crate::config;
use crate::config::MmPrefillTokenConfig;
use crate::scaling;
use crate::scaling::PRECISION;
use vstd::arithmetic::power2::*;
use vstd::prelude::*;

verus! {

/// The number of units of `f` nearest to `x`, a half counting up, and at least one.
pub open spec fn rounded_units(x: nat, f: nat) -> nat {
    config::at_least_one((2 * x + f) / (2 * f))
}

/// Height and width rounded to multiples of the token side, before any clamp.
pub open spec fn rounded(height: nat, width: nat, f: nat) -> (nat, nat) {
    (rounded_units(height, f) * f, rounded_units(width, f) * f)
}

/// Height and width of the resized image in token units: the nearest units if their pixel count
/// lies within the clamps, else the units of the sides scaled to the clamp that is violated.
/// There is at least one unit on each side; a grown side always covers one.
pub open spec fn resized_units(height: nat, width: nat, cfg: MmPrefillTokenConfig) -> (nat, nat) {
    let h = config::at_least_one(height);
    let w = config::at_least_one(width);
    let f = cfg.token_side();
    let bars = rounded(h, w, f);
    let max = cfg.max_pixels as nat;
    let min = cfg.min_pixels as nat;
    if bars.0 * bars.1 > max {
        (
            config::at_least_one(scaling::shrunk_units(h, h * w, max, f)),
            config::at_least_one(scaling::shrunk_units(w, h * w, max, f)),
        )
    } else if bars.0 * bars.1 < min {
        (scaling::grown_units(h, h * w, min, f), scaling::grown_units(w, h * w, min, f))
    } else {
        (rounded_units(h, f), rounded_units(w, f))
    }
}

/// Height and width of the resized image in pixels.
pub open spec fn resized(height: nat, width: nat, cfg: MmPrefillTokenConfig) -> (nat, nat) {
    let units = resized_units(height, width, cfg);
    (units.0 * cfg.token_side(), units.1 * cfg.token_side())
}

/// Tokens that an image contributes: the pixels of the resized image over those of a token.
pub open spec fn estimated_tokens(width: nat, height: nat, cfg: MmPrefillTokenConfig) -> nat {
    let bars = resized(height, width, cfg);
    (bars.0 * bars.1) / (cfg.token_side() * cfg.token_side())
}

/// The number of tokens has 64 bits.
pub open spec fn tokens_fit(width: nat, height: nat, cfg: MmPrefillTokenConfig) -> bool {
    estimated_tokens(width, height, cfg) <= u64::MAX
}

/// Tokens with sides of two pixels or more, or a lower clamp up to `2^62` px. With such parameters
/// the tokens of every image have 64 bits.
pub open spec fn is_ordinary(cfg: MmPrefillTokenConfig) -> bool {
    cfg.token_side() >= 2 || cfg.min_pixels <= 0x4000_0000_0000_0000
}

/// Rounding to units of `f` moves a side by half a unit, or up to one unit.
proof fn lemma_rounded_bound(x: nat, f: nat)
    requires
        0 < x <= u32::MAX,
        0 < f,
    ensures
        1 <= rounded_units(x, f) <= u32::MAX,
        0 < rounded_units(x, f) * f <= u32::MAX + f,
{
    let q = (2 * x + f) / (2 * f);
    vstd::arithmetic::div_mod::lemma_fundamental_div_mod((2 * x + f) as int, (2 * f) as int);
    let u = rounded_units(x, f);
    assert(q * f <= u32::MAX + f && q <= u32::MAX) by (nonlinear_arith)
        requires
            (2 * f) * q <= 2 * x + f,
            x <= u32::MAX,
            f >= 1,
    ;
    assert(0 < u * f <= u32::MAX + f) by (nonlinear_arith)
        requires
            u == q && q > 0 || u == 1,
            q * f <= u32::MAX + f,
            f > 0,
    ;
}

/// The number of units of `f` nearest to `x`, and at least one.
fn round_to_units(x: u64, f: u64) -> (u: u64)
    requires
        0 < x <= u32::MAX,
        0 < f,
    ensures
        u == rounded_units(x as nat, f as nat),
{
    proof {
        lemma_rounded_bound(x as nat, f as nat);
    }
    let u: u128 = (2 * (x as u128) + f as u128) / (2 * (f as u128));
    if u == 0 {
        1
    } else {
        u as u64
    }
}

/// One, where there is no unit.
fn one_at_least(u: u64) -> (r: u64)
    ensures
        r == config::at_least_one(u as nat),
{
    if u == 0 {
        1
    } else {
        u
    }
}

/// Round each side to a multiple of `factor`, then scale so the total pixel count lands within
/// `[min_pixels, max_pixels]` while preserving aspect ratio. Returns `(height_bar, width_bar)`
/// in pixels. No side goes below one unit, so an image that shrinks to less on one side can keep
/// more than `max_pixels`.
pub fn smart_resize(height: u32, width: u32, cfg: &MmPrefillTokenConfig) -> (bars: (u64, u64))
    ensures
        bars.0 == resized(height as nat, width as nat, *cfg).0,
        bars.1 == resized(height as nat, width as nat, *cfg).1,
{
    let f: u64 = cfg.factor();
    let h: u64 = one_at_least(height as u64);
    let w: u64 = one_at_least(width as u64);
    let h_units: u64 = round_to_units(h, f);
    let w_units: u64 = round_to_units(w, f);
    proof {
        config::lemma_token_side(*cfg);
        lemma_rounded_bound(h as nat, f as nat);
        lemma_rounded_bound(w as nat, f as nat);
    }
    let h_bar: u64 = h_units * f;
    let w_bar: u64 = w_units * f;
    let pixels: u128 = pixel_count(h_bar, w_bar);
    if pixels > cfg.max_pixels as u128 {
        let units = scaling::shrink(h, w, cfg.max_pixels, f);
        proof {
            lemma_shrunk_fits(h as nat, w as nat, cfg.max_pixels as nat, f as nat);
        }
        (one_at_least(units.0) * f, one_at_least(units.1) * f)
    } else if pixels < cfg.min_pixels as u128 {
        let units = scaling::grow(h, w, cfg.min_pixels, f);
        proof {
            lemma_grown_fits(h as nat, w as nat, cfg.min_pixels as nat, f as nat);
        }
        (units.0 * f, units.1 * f)
    } else {
        (h_bar, w_bar)
    }
}

/// The pixels of a rectangle.
fn pixel_count(height: u64, width: u64) -> (pixels: u128)
    ensures
        pixels == height * width,
{
    assert(height * width <= u64::MAX * u64::MAX) by (nonlinear_arith)
        requires
            height <= u64::MAX,
            width <= u64::MAX,
    ;
    height as u128 * width as u128
}

/// Shrunk sides fit in 64 bits.
proof fn lemma_shrunk_fits(x: nat, y: nat, pixels: nat, f: nat)
    requires
        0 < x <= u32::MAX,
        0 < y <= u32::MAX,
        pixels <= u64::MAX,
        0 < f <= u64::MAX,
    ensures
        config::at_least_one(scaling::shrunk_units(x, x * y, pixels, f)) * f <= u64::MAX,
        config::at_least_one(scaling::shrunk_units(y, x * y, pixels, f)) * f <= u64::MAX,
{
    assert(x * y == y * x) by (nonlinear_arith);
    if pixels > 0 {
        scaling::lemma_shrunk_units(x, y, pixels, f);
        scaling::lemma_shrunk_units(y, x, pixels, f);
    }
}

/// Grown sides fit in 64 bits.
proof fn lemma_grown_fits(x: nat, y: nat, pixels: nat, f: nat)
    requires
        scaling::in_range(x, y, pixels, f),
    ensures
        scaling::grown_units(x, x * y, pixels, f) * f <= u64::MAX,
        scaling::grown_units(y, x * y, pixels, f) * f <= u64::MAX,
{
    assert(x * y == y * x) by (nonlinear_arith);
    scaling::lemma_grown_units(x, y, pixels, f);
    scaling::lemma_grown_units(y, x, pixels, f);
    lemma_one_more_unit(scaling::grown_units(x, x * y, pixels, f), f);
    lemma_one_more_unit(scaling::grown_units(y, x * y, pixels, f), f);
}

/// A side of 49 bits has at most 50 with one unit more, unless that is its only one.
proof fn lemma_one_more_unit(u: nat, f: nat)
    requires
        u >= 1,
        (u - 1) * f < 0x2_0000_0000_0000,
        f <= u64::MAX,
    ensures
        u * f <= u64::MAX,
{
    assert(u * f <= u64::MAX) by (nonlinear_arith)
        requires
            u >= 1,
            (u - 1) * f < 0x2_0000_0000_0000,
            f <= u64::MAX,
    {
        if u >= 2 {
            assert(f <= (u - 1) * f);
        }
    }
}

/// The pixels of the resized image over those of a token.
fn count_tokens(width: u32, height: u32, cfg: &MmPrefillTokenConfig) -> (tokens: u128)
    ensures
        tokens == estimated_tokens(width as nat, height as nat, *cfg),
{
    let (h_bar, w_bar) = smart_resize(height, width, cfg);
    let factor: u64 = cfg.factor();
    assert(factor * factor > 0) by (nonlinear_arith)
        requires
            factor > 0,
    ;
    pixel_count(h_bar, w_bar) / pixel_count(factor, factor)
}

/// Estimated number of expanded LLM tokens a single image of the given pixel
/// dimensions contributes to the prefill sequence.
pub fn estimate_image_tokens(width: u32, height: u32, cfg: &MmPrefillTokenConfig) -> (tokens: u64)
    requires
        is_ordinary(*cfg) || tokens_fit(width as nat, height as nat, *cfg),
    ensures
        tokens == estimated_tokens(width as nat, height as nat, *cfg),
{
    proof {
        if is_ordinary(*cfg) {
            law_ordinary_tokens_fit(width as nat, height as nat, *cfg);
        }
    }
    count_tokens(width, height, cfg) as u64
}

/// [`estimate_image_tokens`], or `None` where the number of tokens needs more than 64 bits.
pub fn checked_image_tokens(width: u32, height: u32, cfg: &MmPrefillTokenConfig) -> (tokens: Option<
    u64,
>)
    ensures
        tokens is Some <==> tokens_fit(width as nat, height as nat, *cfg),
        tokens matches Some(t) ==> t == estimated_tokens(width as nat, height as nat, *cfg),
{
    let tokens: u128 = count_tokens(width, height, cfg);
    if tokens <= u64::MAX as u128 {
        Some(tokens as u64)
    } else {
        None
    }
}

/// Each side goes to the nearest multiple of the unit, a half going up, and never below one unit:
/// `u` units are the rounding of `x` exactly if `x` lies within half a unit of them, or below one
/// unit if they are one.
pub proof fn law_rounds_to_the_nearest_unit(x: nat, f: nat, u: nat)
    requires
        f > 0,
    ensures
        rounded_units(x, f) == u <==> u >= 1 && 2 * x < (2 * u + 1) * f && (u == 1 || (2 * u - 1)
            * f <= 2 * x),
{
    let q = (2 * x + f) / (2 * f);
    vstd::arithmetic::div_mod::lemma_fundamental_div_mod((2 * x + f) as int, (2 * f) as int);
    assert(q >= 1 ==> (u == q <==> u >= 1 && 2 * x < (2 * u + 1) * f && (u == 1 || (2 * u - 1) * f
        <= 2 * x))) by (nonlinear_arith)
        requires
            (2 * f) * q <= 2 * x + f < (2 * f) * q + 2 * f,
            f > 0,
    ;
    assert(q == 0 ==> (u == 1 <==> u >= 1 && 2 * x < (2 * u + 1) * f && (u == 1 || (2 * u - 1) * f
        <= 2 * x))) by (nonlinear_arith)
        requires
            (2 * f) * q <= 2 * x + f < (2 * f) * q + 2 * f,
            f > 0,
    ;
}

/// Rounding a side to units needs no care for precision: the binary64 quotient of the side and
/// the unit, rounded to the nearest integer with a half going up, is the exact quotient rounded so.
pub proof fn law_rounding_is_exact(x: nat, f: nat)
    requires
        0 < x <= u32::MAX,
        0 < f <= u64::MAX,
    ensures
        ({
            let quotient = binary64::of_int(x).over(binary64::of_int(f));
            (2 * quotient.num() + binary64::unit()) / (2 * binary64::unit()) == (2 * x + f) / (2
                * f)
        }),
{
    if f < binary64::MANT_HI {
        lemma_rounding_is_exact(x, f);
    } else {
        scaling::lemma_tiny_quotient(x, f);
        lemma_no_half(binary64::of_int(x).over(binary64::of_int(f)).num(), binary64::unit());
        lemma_no_half(x, f);
    }
}

/// A fraction below one half rounds to zero.
proof fn lemma_no_half(n: nat, d: nat)
    requires
        2 * n < d,
    ensures
        (2 * n + d) / (2 * d) == 0,
{
    vstd::arithmetic::div_mod::lemma_basic_div((2 * n + d) as int, (2 * d) as int);
}

/// [`law_rounding_is_exact`] for a unit of at most 53 bits, which is not rounded itself.
proof fn lemma_rounding_is_exact(x: nat, f: nat)
    requires
        0 < x <= u32::MAX,
        0 < f < binary64::MANT_HI,
    ensures
        ({
            let quotient = binary64::of_int(x).over(binary64::of_int(f));
            (2 * quotient.num() + binary64::unit()) / (2 * binary64::unit()) == (2 * x + f) / (2
                * f)
        }),
{
    let (a, b) = (binary64::of_int(x), binary64::of_int(f));
    binary64::lemma_of_int_error(x);
    binary64::lemma_of_int_error(f);
    binary64::lemma_of_int_exact(x);
    binary64::lemma_of_int_exact(f);
    binary64::lemma_over_error(a, b);
    lemma_pow2_pos(binary64::BIAS as nat);
    let u = binary64::unit() as int;
    let v = a.over(b).num() as int;
    let q = (2 * x + f) as int / (2 * f) as int;
    vstd::arithmetic::div_mod::lemma_fundamental_div_mod((2 * x + f) as int, (2 * f) as int);
    let k = binary64::MANT_HI as int;
    assert((k - 1) * (x * u) <= k * (v * f) <= (k + 1) * (x * u)) by (nonlinear_arith)
        requires
            (k - 1) * (x * u * u) <= k * (v * (f * u)) <= (k + 1) * (x * u * u),
            u > 0,
    ;
    // the error is less than a unit of the smallest distance to a half
    assert(2 * (v * f) < 2 * (x * u) + u && 2 * (v * f) > 2 * (x * u) - u) by (nonlinear_arith)
        requires
            (k - 1) * (x * u) <= k * (v * f) <= (k + 1) * (x * u),
            k == 0x20_0000_0000_0000,
            0 < x <= u32::MAX,
            u > 0,
    ;
    assert((2 * q - 1) * f <= 2 * x && 2 * x + 1 <= (2 * q + 1) * f) by (nonlinear_arith)
        requires
            (2 * f) * q <= 2 * x + f < (2 * f) * q + 2 * f,
    ;
    assert(2 * v < (2 * q + 1) * u) by (nonlinear_arith)
        requires
            2 * (v * f) < 2 * (x * u) + u,
            2 * x + 1 <= (2 * q + 1) * f,
            f > 0,
            u > 0,
    ;
    if 2 * x == (2 * q - 1) * f {
        assert(q >= 1) by (nonlinear_arith)
            requires
                2 * x == (2 * q - 1) * f,
                x > 0,
                f > 0,
        ;
        binary64::lemma_halves_exact(x, f, (2 * q - 1) as nat);
    } else {
        assert(2 * v >= (2 * q - 1) * u) by (nonlinear_arith)
            requires
                2 * (v * f) > 2 * (x * u) - u,
                2 * x >= (2 * q - 1) * f + 1,
                f > 0,
                u > 0,
        ;
    }
    let r = 2 * v + u - q * (2 * u);
    assert(0 <= r < 2 * u) by (nonlinear_arith)
        requires
            r == 2 * v + u - q * (2 * u),
            (2 * q - 1) * u <= 2 * v < (2 * q + 1) * u,
    ;
    vstd::arithmetic::div_mod::lemma_fundamental_div_mod_converse(2 * v + u, 2 * u, q, r);
}

/// An image has 32-bit sides.
pub open spec fn is_image(height: nat, width: nat) -> bool {
    height <= u32::MAX && width <= u32::MAX
}

/// Never below one patch-merge unit: both sides of the resized image have at least one token.
pub proof fn law_at_least_one_unit(height: nat, width: nat, cfg: MmPrefillTokenConfig)
    requires
        is_image(height, width),
    ensures
        resized_units(height, width, cfg).0 >= 1,
        resized_units(height, width, cfg).1 >= 1,
{
    let h = config::at_least_one(height);
    let w = config::at_least_one(width);
    let f = cfg.token_side();
    config::lemma_token_side(cfg);
    lemma_rounded_bound(h, f);
    lemma_rounded_bound(w, f);
    assert(h * w == w * h) by (nonlinear_arith);
    if rounded(h, w, f).0 * rounded(h, w, f).1 < cfg.min_pixels {
        vstd::arithmetic::mul::lemma_mul_nonnegative(
            rounded(h, w, f).0 as int,
            rounded(h, w, f).1 as int,
        );
        scaling::lemma_grown_units(h, w, cfg.min_pixels as nat, f);
        scaling::lemma_grown_units(w, h, cfg.min_pixels as nat, f);
    }
}

/// The resized image is cut into whole tokens: its pixel count over that of a token leaves
/// nothing over, and the estimate is the number of units down times the number across.
pub proof fn law_tokens_are_units(width: nat, height: nat, cfg: MmPrefillTokenConfig)
    requires
        is_image(height, width),
    ensures
        ({
            let units = resized_units(height, width, cfg);
            let bars = resized(height, width, cfg);
            let f = cfg.token_side();
            &&& bars.0 % f == 0
            &&& bars.1 % f == 0
            &&& estimated_tokens(width, height, cfg) == units.0 * units.1
            &&& estimated_tokens(width, height, cfg) * (f * f) == bars.0 * bars.1
            &&& estimated_tokens(width, height, cfg) >= 1
        }),
{
    let units = resized_units(height, width, cfg);
    let f = cfg.token_side();
    config::lemma_token_side(cfg);
    law_at_least_one_unit(height, width, cfg);
    lemma_cut_into_units(units.0, units.1, f);
    vstd::arithmetic::mul::lemma_mul_strictly_positive(units.0 as int, units.1 as int);
    vstd::arithmetic::div_mod::lemma_mod_multiples_basic(units.0 as int, f as int);
    vstd::arithmetic::div_mod::lemma_mod_multiples_basic(units.1 as int, f as int);
}

/// An image on its side is resized to the same sides, and makes as many tokens.
pub proof fn law_transpose(height: nat, width: nat, cfg: MmPrefillTokenConfig)
    ensures
        resized(height, width, cfg).0 == resized(width, height, cfg).1,
        resized(height, width, cfg).1 == resized(width, height, cfg).0,
        estimated_tokens(width, height, cfg) == estimated_tokens(height, width, cfg),
{
    let h = config::at_least_one(height);
    let w = config::at_least_one(width);
    let bars = rounded(h, w, cfg.token_side());
    let after = resized(height, width, cfg);
    assert(h * w == w * h) by (nonlinear_arith);
    assert(bars.0 * bars.1 == bars.1 * bars.0) by (nonlinear_arith);
    assert(after.0 * after.1 == after.1 * after.0) by (nonlinear_arith);
}

/// An image whose sides are multiples of the token side, and whose pixel count lies within the
/// clamps, keeps its size.
pub proof fn law_aligned_image_unchanged(height: nat, width: nat, cfg: MmPrefillTokenConfig)
    requires
        is_image(height, width),
        height > 0,
        width > 0,
        height % cfg.token_side() == 0,
        width % cfg.token_side() == 0,
        cfg.min_pixels <= height * width <= cfg.max_pixels,
    ensures
        resized(height, width, cfg) == (height, width),
        estimated_tokens(width, height, cfg) == (height / cfg.token_side()) * (width
            / cfg.token_side()),
{
    let f = cfg.token_side();
    config::lemma_token_side(cfg);
    lemma_aligned_units(height, f);
    lemma_aligned_units(width, f);
    law_tokens_are_units(width, height, cfg);
}

/// A multiple of the unit is its own rounding.
proof fn lemma_aligned_units(x: nat, f: nat)
    requires
        x > 0,
        f > 0,
        x % f == 0,
    ensures
        rounded_units(x, f) == x / f,
        rounded_units(x, f) * f == x,
{
    let k = x / f;
    vstd::arithmetic::div_mod::lemma_fundamental_div_mod(x as int, f as int);
    assert(k >= 1 && k * f == x && 2 * x + f == k * (2 * f) + f) by (nonlinear_arith)
        requires
            x == f * k,
            x > 0,
            k >= 0,
    ;
    vstd::arithmetic::div_mod::lemma_fundamental_div_mod_converse(
        (2 * x + f) as int,
        (2 * f) as int,
        k as int,
        f as int,
    );
}

/// Resizing what was resized changes nothing, where the first result lies within the clamps and
/// has 32-bit sides.
pub proof fn law_idempotent(height: nat, width: nat, cfg: MmPrefillTokenConfig)
    requires
        is_image(height, width),
        ({
            let bars = resized(height, width, cfg);
            &&& bars.0 <= u32::MAX
            &&& bars.1 <= u32::MAX
            &&& cfg.min_pixels <= bars.0 * bars.1 <= cfg.max_pixels
        }),
    ensures
        ({
            let bars = resized(height, width, cfg);
            resized(bars.0, bars.1, cfg) == bars
        }),
{
    let bars = resized(height, width, cfg);
    let f = cfg.token_side();
    config::lemma_token_side(cfg);
    law_tokens_are_units(width, height, cfg);
    law_at_least_one_unit(height, width, cfg);
    let units = resized_units(height, width, cfg);
    assert(units.0 * f > 0 && units.1 * f > 0) by (nonlinear_arith)
        requires
            units.0 >= 1,
            units.1 >= 1,
            f > 0,
    ;
    law_aligned_image_unchanged(bars.0, bars.1, cfg);
}

proof fn lemma_product_of_squares(j: int, a: int, b: int, x: int, y: int)
    ensures
        (j * (a * a * y)) * (j * (b * b * x)) == (j * (a * b)) * (j * (a * b)) * (x * y),
{
    let (c, d) = (a * a * y, b * b * x);
    assert((j * c) * (j * d) == (j * j) * (c * d)) by (nonlinear_arith);
    let ab = a * b;
    assert(c * d == (ab * ab) * (x * y)) by (nonlinear_arith)
        requires
            c == a * a * y,
            d == b * b * x,
            ab == a * b,
    ;
    let (e, g) = (ab * ab, x * y);
    assert((j * j) * (e * g) == (j * ab) * (j * ab) * g) by (nonlinear_arith)
        requires
            e == ab * ab,
    ;
}

proof fn lemma_product_of_shares(j: int, x: int, y: int, pixels: int)
    ensures
        (j * (x * pixels)) * (j * (y * pixels)) == (j * pixels) * (j * pixels) * (x * y),
{
    let t = j * pixels;
    assert(j * (x * pixels) == x * t && j * (y * pixels) == y * t) by (nonlinear_arith)
        requires
            t == j * pixels,
    ;
    assert((x * t) * (y * t) == t * t * (x * y)) by (nonlinear_arith);
}

/// Two sides whose squares stay below their share of a budget stay below the budget together.
proof fn lemma_product_at_most(a: nat, b: nat, x: nat, y: nat, pixels: nat)
    requires
        x > 0,
        y > 0,
        PRECISION * (a * a * y) <= (PRECISION + 1) * (x * pixels),
        PRECISION * (b * b * x) <= (PRECISION + 1) * (y * pixels),
    ensures
        a * b <= pixels + pixels / PRECISION as nat,
{
    let j = PRECISION as int;
    let (l1, r1) = (j * (a * a * y), (j + 1) * (x * pixels));
    let (l2, r2) = (j * (b * b * x), (j + 1) * (y * pixels));
    let xy = (x * y) as int;
    let ab = (a * b) as int;
    let (s, t) = (j * ab, (j + 1) * pixels);
    assert(xy > 0) by (nonlinear_arith)
        requires
            xy == x * y,
            x > 0,
            y > 0,
    ;
    assert(l1 * l2 <= r1 * r2) by (nonlinear_arith)
        requires
            0 <= l1 <= r1,
            0 <= l2 <= r2,
    ;
    lemma_product_of_squares(j, a as int, b as int, x as int, y as int);
    lemma_product_of_shares(j + 1, x as int, y as int, pixels as int);
    assert(s * s <= t * t) by (nonlinear_arith)
        requires
            s * s * xy <= t * t * xy,
            xy > 0,
    ;
    assert(s <= t) by (nonlinear_arith)
        requires
            s * s <= t * t,
            s >= 0,
            t >= 0,
    ;
    vstd::arithmetic::div_mod::lemma_fundamental_div_mod(pixels as int, j);
    let q = pixels as int / j;
    assert(ab <= pixels + q) by (nonlinear_arith)
        requires
            j * ab <= (j + 1) * pixels,
            pixels < j * q + j,
            j > 0,
    ;
}

/// Two sides whose squares reach their share of a budget reach the budget together.
proof fn lemma_product_at_least(a: nat, b: nat, x: nat, y: nat, pixels: nat)
    requires
        x > 0,
        y > 0,
        (PRECISION - 1) * (x * pixels) <= PRECISION * (a * a * y),
        (PRECISION - 1) * (y * pixels) <= PRECISION * (b * b * x),
    ensures
        pixels - pixels / PRECISION as nat <= a * b,
{
    let j = PRECISION as int;
    let (l1, r1) = ((j - 1) * (x * pixels), j * (a * a * y));
    let (l2, r2) = ((j - 1) * (y * pixels), j * (b * b * x));
    let xy = (x * y) as int;
    let ab = (a * b) as int;
    let (s, t) = ((j - 1) * pixels, j * ab);
    assert(xy > 0) by (nonlinear_arith)
        requires
            xy == x * y,
            x > 0,
            y > 0,
    ;
    assert(0 <= l1 && 0 <= l2) by (nonlinear_arith)
        requires
            l1 == (j - 1) * (x * pixels),
            l2 == (j - 1) * (y * pixels),
            j > 1,
    ;
    assert(l1 * l2 <= r1 * r2) by (nonlinear_arith)
        requires
            0 <= l1 <= r1,
            0 <= l2 <= r2,
    ;
    lemma_product_of_squares(j, a as int, b as int, x as int, y as int);
    lemma_product_of_shares(j - 1, x as int, y as int, pixels as int);
    assert(s * s <= t * t) by (nonlinear_arith)
        requires
            s * s * xy <= t * t * xy,
            xy > 0,
    ;
    assert(s <= t) by (nonlinear_arith)
        requires
            s * s <= t * t,
            t >= 0,
    ;
    vstd::arithmetic::div_mod::lemma_fundamental_div_mod(pixels as int, j);
    let q = pixels as int / j;
    assert(pixels - q <= ab) by (nonlinear_arith)
        requires
            (j - 1) * pixels <= j * ab,
            pixels < j * q + j,
            j > 0,
    ;
}

/// The rounded sides of the image have more pixels than the upper clamp.
pub open spec fn is_shrunk(height: nat, width: nat, cfg: MmPrefillTokenConfig) -> bool {
    let bars = rounded(config::at_least_one(height), config::at_least_one(width), cfg.token_side());
    bars.0 * bars.1 > cfg.max_pixels
}

/// The rounded sides of the image have fewer pixels than the lower clamp, and no more than the
/// upper one.
pub open spec fn is_grown(height: nat, width: nat, cfg: MmPrefillTokenConfig) -> bool {
    let bars = rounded(config::at_least_one(height), config::at_least_one(width), cfg.token_side());
    !is_shrunk(height, width, cfg) && bars.0 * bars.1 < cfg.min_pixels
}

/// The shrunk side `x` of an image with sides `x` and `y` holds a whole unit by itself.
pub open spec fn holds_a_unit(x: nat, y: nat, cfg: MmPrefillTokenConfig) -> bool {
    scaling::shrunk_units(
        config::at_least_one(x),
        config::at_least_one(x) * config::at_least_one(y),
        cfg.max_pixels as nat,
        cfg.token_side(),
    ) >= 1
}

/// The clamps of an image are not exceeded. Where the rounded sides lie within them, so does the
/// result. A shrunk image has at most `max_pixels`, unless one of its sides had to be held at one
/// unit. A grown image has at least `min_pixels`. The bounds are exact for clamps below `2^48`;
/// beyond, each may be missed by one part in `2^48`.
pub proof fn law_pixel_count_is_clamped(height: nat, width: nat, cfg: MmPrefillTokenConfig)
    requires
        is_image(height, width),
    ensures
        ({
            let bars = resized(height, width, cfg);
            let max = cfg.max_pixels as nat;
            let min = cfg.min_pixels as nat;
            &&& !is_shrunk(height, width, cfg) && !is_grown(height, width, cfg) ==> min <= bars.0
                * bars.1 <= max
            &&& is_shrunk(height, width, cfg) && holds_a_unit(height, width, cfg)
                && holds_a_unit(width, height, cfg) ==> bars.0 * bars.1 <= max + max
                / PRECISION as nat
            &&& is_grown(height, width, cfg) ==> bars.0 * bars.1 >= min - min / PRECISION as nat
        }),
{
    let h = config::at_least_one(height);
    let w = config::at_least_one(width);
    let f = cfg.token_side();
    let max = cfg.max_pixels as nat;
    let min = cfg.min_pixels as nat;
    config::lemma_token_side(cfg);
    lemma_rounded_bound(h, f);
    lemma_rounded_bound(w, f);
    assert(h * w == w * h) by (nonlinear_arith);
    let bars = resized(height, width, cfg);
    if is_shrunk(height, width, cfg) {
        if holds_a_unit(height, width, cfg) && holds_a_unit(width, height, cfg) {
            scaling::lemma_shrunk_units(h, w, max, f);
            scaling::lemma_shrunk_units(w, h, max, f);
            lemma_product_at_most(bars.0, bars.1, h, w, max);
        }
    } else if is_grown(height, width, cfg) {
        vstd::arithmetic::mul::lemma_mul_nonnegative(
            rounded(h, w, f).0 as int,
            rounded(h, w, f).1 as int,
        );
        scaling::lemma_grown_units(h, w, min, f);
        scaling::lemma_grown_units(w, h, min, f);
        lemma_product_at_least(bars.0, bars.1, h, w, min);
    }
}

/// The token count saturates: a shrunk image makes at most as many tokens as fit `max_pixels`,
/// unless one of its sides had to be held at one unit, and a grown image covers `min_pixels`
/// with its tokens. As in [`law_pixel_count_is_clamped`], exact for clamps below `2^48`.
pub proof fn law_token_count_is_clamped(width: nat, height: nat, cfg: MmPrefillTokenConfig)
    requires
        is_image(height, width),
    ensures
        ({
            let tokens = estimated_tokens(width, height, cfg);
            let f = cfg.token_side();
            let max = cfg.max_pixels as nat;
            let min = cfg.min_pixels as nat;
            &&& is_shrunk(height, width, cfg) && holds_a_unit(height, width, cfg)
                && holds_a_unit(width, height, cfg) ==> tokens <= (max + max / PRECISION as nat) / (
            f * f)
            &&& is_grown(height, width, cfg) ==> tokens * (f * f) >= min - min / PRECISION as nat
        }),
{
    let f = cfg.token_side();
    let max = cfg.max_pixels as nat;
    config::lemma_token_side(cfg);
    law_pixel_count_is_clamped(height, width, cfg);
    law_tokens_are_units(width, height, cfg);
    let bars = resized(height, width, cfg);
    let cap = max + max / PRECISION as nat;
    if bars.0 * bars.1 <= cap {
        vstd::arithmetic::mul::lemma_mul_strictly_positive(f as int, f as int);
        vstd::arithmetic::div_mod::lemma_div_is_ordered(
            (bars.0 * bars.1) as int,
            cap as int,
            (f * f) as int,
        );
    }
}

/// The aspect ratio is preserved. Both sides of an image that does not lie within the clamps are
/// scaled alike: scaled to `pixels`, the exact side `x` beside a side `y` is the square root of
/// `x * pixels / y`. A shrunk side is the exact one cut down to whole units, and at least one
/// unit; a grown side is the exact one filled up to whole units. The squares compared here are
/// exact to one part in `2^48`.
pub proof fn law_aspect_ratio_is_preserved(height: nat, width: nat, cfg: MmPrefillTokenConfig)
    requires
        is_image(height, width),
    ensures
        ({
            let h = config::at_least_one(height);
            let w = config::at_least_one(width);
            let f = cfg.token_side();
            let bars = resized(height, width, cfg);
            &&& is_shrunk(height, width, cfg) ==> {
                &&& bars.0 == f || is_at_most(bars.0, h, w, cfg.max_pixels as nat)
                &&& bars.1 == f || is_at_most(bars.1, w, h, cfg.max_pixels as nat)
                &&& is_at_least(bars.0 + f, h, w, cfg.max_pixels as nat)
                &&& is_at_least(bars.1 + f, w, h, cfg.max_pixels as nat)
            }
            &&& is_grown(height, width, cfg) ==> {
                &&& bars.0 >= f && is_at_most((bars.0 - f) as nat, h, w, cfg.min_pixels as nat)
                &&& bars.1 >= f && is_at_most((bars.1 - f) as nat, w, h, cfg.min_pixels as nat)
                &&& is_at_least(bars.0, h, w, cfg.min_pixels as nat)
                &&& is_at_least(bars.1, w, h, cfg.min_pixels as nat)
            }
        }),
{
    let h = config::at_least_one(height);
    let w = config::at_least_one(width);
    let f = cfg.token_side();
    config::lemma_token_side(cfg);
    assert(h * w == w * h) by (nonlinear_arith);
    if is_shrunk(height, width, cfg) {
        let max = cfg.max_pixels as nat;
        lemma_shrunk_side(h, w, max, f);
        lemma_shrunk_side(w, h, max, f);
    } else if is_grown(height, width, cfg) {
        let min = cfg.min_pixels as nat;
        vstd::arithmetic::mul::lemma_mul_nonnegative(
            rounded(h, w, f).0 as int,
            rounded(h, w, f).1 as int,
        );
        lemma_grown_side(h, w, min, f);
        lemma_grown_side(w, h, min, f);
    }
}

/// `side` is at most the exact length of `x`, beside `y`, scaled to `pixels`.
pub open spec fn is_at_most(side: nat, x: nat, y: nat, pixels: nat) -> bool {
    PRECISION * (side * side * y) <= (PRECISION + 1) * (x * pixels)
}

/// `side` is at least the exact length of `x`, beside `y`, scaled to `pixels`.
pub open spec fn is_at_least(side: nat, x: nat, y: nat, pixels: nat) -> bool {
    (PRECISION - 1) * (x * pixels) <= PRECISION * (side * side * y)
}

proof fn lemma_shrunk_side(x: nat, y: nat, pixels: nat, f: nat)
    requires
        0 < x <= u32::MAX,
        0 < y <= u32::MAX,
        pixels <= u64::MAX,
        0 < f <= u64::MAX,
    ensures
        ({
            let side = config::at_least_one(scaling::shrunk_units(x, x * y, pixels, f)) * f;
            &&& side == f || is_at_most(side, x, y, pixels)
            &&& is_at_least(side + f, x, y, pixels)
        }),
{
    let u = scaling::shrunk_units(x, x * y, pixels, f);
    let side = config::at_least_one(u) * f;
    if pixels == 0 {
        let s = side + f;
        assert(is_at_least(s, x, y, 0)) by {
            assert(x * 0 == 0);
            assert(s * s * y >= 0) by (nonlinear_arith)
                requires
                    s >= 0,
                    y >= 0,
            ;
        }
    } else {
        scaling::lemma_shrunk_units(x, y, pixels, f);
        let wide = (u + 1) * f;
        assert(wide == u * f + f) by (nonlinear_arith)
            requires
                wide == (u + 1) * f,
        ;
        if u == 0 {
            let s = side + f;
            assert(wide * wide * y <= s * s * y) by (nonlinear_arith)
                requires
                    wide <= s,
            ;
        }
    }
}

proof fn lemma_grown_side(x: nat, y: nat, pixels: nat, f: nat)
    requires
        scaling::in_range(x, y, pixels, f),
    ensures
        ({
            let side = scaling::grown_units(x, x * y, pixels, f) * f;
            &&& side >= f
            &&& is_at_most((side - f) as nat, x, y, pixels)
            &&& is_at_least(side, x, y, pixels)
        }),
{
    scaling::lemma_grown_units(x, y, pixels, f);
    let u = scaling::grown_units(x, x * y, pixels, f);
    let narrow = (u - 1) * f;
    assert(narrow == u * f - f && narrow >= 0) by (nonlinear_arith)
        requires
            narrow == (u - 1) * f,
            u >= 1,
    ;
}

/// Tokens with sides of two pixels or more, or a lower clamp up to `2^62` px, make every image fit:
/// whatever its sides and the upper clamp, the number of its tokens has 64 bits.
pub proof fn law_ordinary_tokens_fit(width: nat, height: nat, cfg: MmPrefillTokenConfig)
    requires
        is_image(height, width),
        cfg.token_side() >= 2 || cfg.min_pixels <= 0x4000_0000_0000_0000,
    ensures
        is_ordinary(cfg),
        tokens_fit(width, height, cfg),
{
    let h = config::at_least_one(height);
    let w = config::at_least_one(width);
    let f = cfg.token_side();
    let max = cfg.max_pixels as nat;
    let min = cfg.min_pixels as nat;
    let units = resized_units(height, width, cfg);
    config::lemma_token_side(cfg);
    law_tokens_are_units(width, height, cfg);
    law_at_least_one_unit(height, width, cfg);
    assert(h * w == w * h) by (nonlinear_arith);
    if is_shrunk(height, width, cfg) {
        if max == 0 {
            assert(units == (1nat, 1nat) && 1nat * 1nat == 1);
        } else {
            lemma_shrunk_count(h, w, max, f);
            lemma_share(max);
        }
        if f == 1 {
            lemma_rounded_bound(h, f);
            lemma_rounded_bound(w, f);
            let near = rounded(h, w, f);
            let (p, q) = (rounded_units(h, f), rounded_units(w, f));
            assert(p * 1 == p && q * 1 == q) by (nonlinear_arith);
            assert(near.0 == p * 1 && near.1 == q * 1);
            assert(near.0 * near.1 <= u32::MAX * u32::MAX) by (nonlinear_arith)
                requires
                    0 <= near.0 <= u32::MAX,
                    0 <= near.1 <= u32::MAX,
            ;
        }
    } else if is_grown(height, width, cfg) {
        vstd::arithmetic::mul::lemma_mul_nonnegative(
            rounded(h, w, f).0 as int,
            rounded(h, w, f).1 as int,
        );
        lemma_grown_count(h, w, min, f);
    } else {
        lemma_rounded_bound(h, f);
        lemma_rounded_bound(w, f);
        assert(units.0 * units.1 <= u64::MAX) by (nonlinear_arith)
            requires
                0 <= units.0 <= u32::MAX,
                0 <= units.1 <= u32::MAX,
        ;
    }
}

/// Clamps up to `2^48` px keep the number of tokens at `2^51` or below, whatever the image.
pub proof fn law_moderate_tokens(width: nat, height: nat, cfg: MmPrefillTokenConfig)
    requires
        is_image(height, width),
        cfg.min_pixels <= PRECISION,
        cfg.max_pixels <= PRECISION,
    ensures
        estimated_tokens(width, height, cfg) <= 0x8_0000_0000_0000,
{
    let h = config::at_least_one(height);
    let w = config::at_least_one(width);
    let f = cfg.token_side();
    let max = cfg.max_pixels as nat;
    let min = cfg.min_pixels as nat;
    let units = resized_units(height, width, cfg);
    config::lemma_token_side(cfg);
    law_tokens_are_units(width, height, cfg);
    law_at_least_one_unit(height, width, cfg);
    assert(h * w == w * h) by (nonlinear_arith);
    if is_shrunk(height, width, cfg) {
        if max == 0 {
            assert(units == (1nat, 1nat) && 1nat * 1nat == 1);
        } else {
            lemma_shrunk_count(h, w, max, f);
        }
    } else if is_grown(height, width, cfg) {
        vstd::arithmetic::mul::lemma_mul_nonnegative(
            rounded(h, w, f).0 as int,
            rounded(h, w, f).1 as int,
        );
        lemma_grown_count(h, w, min, f);
    } else {
        lemma_quotient_of_product(units.0, units.1, f);
    }
}

/// The units of a shrunk image: at most one part in `2^48` above what the budget holds, or a row.
proof fn lemma_shrunk_count(h: nat, w: nat, pixels: nat, f: nat)
    requires
        scaling::in_range(h, w, pixels, f),
    ensures
        ({
            let a = config::at_least_one(scaling::shrunk_units(h, h * w, pixels, f));
            let b = config::at_least_one(scaling::shrunk_units(w, h * w, pixels, f));
            ||| a * b <= 0x2_0000_0000_0000
            ||| (f >= 2 ==> 4 * (a * b) <= pixels + 0xffff) && a * b <= pixels + pixels
                / PRECISION as nat
        }),
{
    assert(h * w == w * h) by (nonlinear_arith);
    scaling::lemma_shrunk_units(h, w, pixels, f);
    scaling::lemma_shrunk_units(w, h, pixels, f);
    let a = scaling::shrunk_units(h, h * w, pixels, f);
    let b = scaling::shrunk_units(w, h * w, pixels, f);
    lemma_units_below(a, f);
    lemma_units_below(b, f);
    if a == 0 || b == 0 {
        let (c, d) = (config::at_least_one(a), config::at_least_one(b));
        assert(c * d <= 0x2_0000_0000_0000) by (nonlinear_arith)
            requires
                c == 1 && d <= 0x2_0000_0000_0000 || d == 1 && c <= 0x2_0000_0000_0000,
        ;
    } else {
        lemma_product_at_most(a * f, b * f, h, w, pixels);
        lemma_quotient_of_product(a, b, f);
        lemma_share(pixels);
    }
}

/// The units that cover a grown image: one part in `2^48` above what the budget holds, and a row
/// and a column.
proof fn lemma_grown_count(h: nat, w: nat, pixels: nat, f: nat)
    requires
        scaling::in_range(h, w, pixels, f),
    ensures
        ({
            let a = scaling::grown_units(h, h * w, pixels, f);
            let b = scaling::grown_units(w, h * w, pixels, f);
            &&& a * b <= pixels + 0x4_0000_0001_0000
            &&& f >= 2 ==> 4 * (a * b) <= pixels + 4 * 0x4_0000_0001_0000
        }),
{
    assert(h * w == w * h) by (nonlinear_arith);
    scaling::lemma_grown_units(h, w, pixels, f);
    scaling::lemma_grown_units(w, h, pixels, f);
    let a = (scaling::grown_units(h, h * w, pixels, f) - 1) as nat;
    let b = (scaling::grown_units(w, h * w, pixels, f) - 1) as nat;
    lemma_product_at_most(a * f, b * f, h, w, pixels);
    lemma_quotient_of_product(a, b, f);
    lemma_units_below(a, f);
    lemma_units_below(b, f);
    lemma_share(pixels);
    assert((a + 1) * (b + 1) == a * b + a + b + 1) by (nonlinear_arith);
}

/// Units of a side of 49 bits are no more than its pixels.
proof fn lemma_units_below(a: nat, f: nat)
    requires
        a * f < 0x2_0000_0000_0000,
        f >= 1,
    ensures
        a < 0x2_0000_0000_0000,
{
    assert(a <= a * f) by (nonlinear_arith)
        requires
            f >= 1,
    ;
}

/// A rectangle of units has no more of them than pixels, and a quarter at most where a unit is two
/// pixels or longer.
proof fn lemma_quotient_of_product(a: nat, b: nat, f: nat)
    requires
        f >= 1,
    ensures
        a * b <= (a * f) * (b * f),
        f >= 2 ==> 4 * (a * b) <= (a * f) * (b * f),
{
    let n = a * b;
    assert((a * f) * (b * f) == n * (f * f)) by (nonlinear_arith)
        requires
            n == a * b,
    ;
    assert(n <= n * (f * f)) by (nonlinear_arith)
        requires
            f >= 1,
            n >= 0,
    ;
    assert(f >= 2 ==> 4 * n <= n * (f * f)) by (nonlinear_arith)
        requires
            n >= 0,
    ;
}

/// One part in `2^48` of a clamp.
proof fn lemma_share(pixels: nat)
    requires
        pixels <= u64::MAX,
    ensures
        pixels / PRECISION as nat <= 0xffff,
{
    vstd::arithmetic::div_mod::lemma_fundamental_div_mod(pixels as int, PRECISION as int);
}

/// The estimate depends on proportions only: an image of twice the size, cut into patches of twice
/// the size under clamps of four times as many pixels, makes as many tokens.
pub proof fn law_doubling_keeps_the_tokens(
    width: nat,
    height: nat,
    cfg: MmPrefillTokenConfig,
    doubled: MmPrefillTokenConfig,
)
    requires
        is_image(height, width),
        height > 0,
        width > 0,
        cfg.patch_size > 0,
        doubled.patch_size == 2 * cfg.patch_size,
        doubled.merge_size == cfg.merge_size,
        doubled.min_pixels == 4 * cfg.min_pixels,
        doubled.max_pixels == 4 * cfg.max_pixels,
    ensures
        resized_units(2 * height, 2 * width, doubled) == resized_units(height, width, cfg),
        estimated_tokens(2 * width, 2 * height, doubled) == estimated_tokens(width, height, cfg),
{
    let (h, w, f) = (height, width, cfg.token_side());
    let (patch, merge) = (cfg.patch_size as nat, config::at_least_one(cfg.merge_size as nat));
    config::lemma_token_side(cfg);
    assert((2 * patch) * merge == 2 * (patch * merge)) by (nonlinear_arith);
    lemma_units_doubled(h, f);
    lemma_units_doubled(w, f);
    let (a, b) = (rounded_units(h, f), rounded_units(w, f));
    let (p, q) = (a * f, b * f);
    assert(a * (2 * f) == 2 * p && b * (2 * f) == 2 * q && (2 * p) * (2 * q) == 4 * (p * q) && p * q
        >= 0) by (nonlinear_arith)
        requires
            p == a * f,
            q == b * f,
    ;
    assert((2 * h) * (2 * w) == 4 * (h * w)) by (nonlinear_arith);
    scaling::lemma_area(h, w);
    if p * q > cfg.max_pixels {
        if cfg.max_pixels > 0 {
            scaling::lemma_shrunk_doubled(h, h * w, cfg.max_pixels as nat, f);
            scaling::lemma_shrunk_doubled(w, h * w, cfg.max_pixels as nat, f);
        }
    } else if p * q < cfg.min_pixels {
        scaling::lemma_grown_doubled(h, h * w, cfg.min_pixels as nat, f);
        scaling::lemma_grown_doubled(w, h * w, cfg.min_pixels as nat, f);
    }
    let units = resized_units(h, w, cfg);
    lemma_cut_into_units(units.0, units.1, f);
    lemma_cut_into_units(units.0, units.1, 2 * f);
}

proof fn lemma_units_doubled(x: nat, f: nat)
    requires
        f > 0,
    ensures
        rounded_units(2 * x, 2 * f) == rounded_units(x, f),
{
    let u = rounded_units(x, f);
    law_rounds_to_the_nearest_unit(x, f, u);
    law_rounds_to_the_nearest_unit(2 * x, 2 * f, u);
    assert((2 * u + 1) * (2 * f) == 2 * ((2 * u + 1) * f) && (2 * u - 1) * (2 * f) == 2 * ((2 * u
        - 1) * f)) by (nonlinear_arith);
}

/// A rectangle of `a` by `b` units holds `a * b` of them.
proof fn lemma_cut_into_units(a: nat, b: nat, f: nat)
    requires
        f > 0,
    ensures
        ((a * f) * (b * f)) / (f * f) == a * b,
        (a * b) * (f * f) == (a * f) * (b * f),
{
    let n = a * b;
    assert(f * f > 0 && (a * f) * (b * f) == n * (f * f)) by (nonlinear_arith)
        requires
            n == a * b,
            f > 0,
    ;
    vstd::arithmetic::div_mod::lemma_div_by_multiple(n as int, (f * f) as int);
}

/// A square image saturates exactly: where the upper clamp is the square of a power of two, it
/// shrinks to the whole units in that power, however large it is.
pub proof fn law_square_saturates(side: nat, k: nat, cfg: MmPrefillTokenConfig)
    requires
        is_image(side, side),
        is_shrunk(side, side, cfg),
        cfg.max_pixels == pow2(2 * k),
    ensures
        ({
            let units = config::at_least_one(pow2(k) / cfg.token_side());
            &&& resized_units(side, side, cfg) == (units, units)
            &&& estimated_tokens(side, side, cfg) == units * units
        }),
{
    config::lemma_token_side(cfg);
    if k >= 32 {
        lemma2_to64();
        lemma2_to64_rest();
        if 2 * k > 64 {
            lemma_pow2_strictly_increases(64, 2 * k);
        }
    }
    lemma_pow2_pos(2 * k);
    scaling::lemma_shrunk_square(config::at_least_one(side), k, cfg.token_side());
    law_tokens_are_units(side, side, cfg);
}

/// With the parameters of Qwen3-VL a square image of 4096 px or more on a side, however large,
/// makes 16384 tokens.
pub proof fn law_qwen3_vl_square_saturates(side: nat)
    requires
        4096 <= side <= u32::MAX,
    ensures
        resized(side, side, config::qwen3_vl()) == (4096nat, 4096nat),
        estimated_tokens(side, side, config::qwen3_vl()) == 16_384,
{
    let cfg = config::qwen3_vl();
    assert(cfg.token_side() == 32);
    let units = rounded_units(side, 32);
    assert(units >= 128) by {
        assert(2 * 32nat == 64);
        assert((2 * side + 32) / 64 >= 128);
    }
    let near = units * 32;
    lemma2_to64();
    if units > 128 {
        assert(near * near > 16_777_216) by (nonlinear_arith)
            requires
                near > 4096,
        ;
        law_square_saturates(side, 12, cfg);
        assert(pow2(12) / cfg.token_side() == 128);
    } else {
        assert(rounded_units(side, cfg.token_side()) == 128);
        assert(resized_units(side, side, cfg) == (128nat, 128nat));
        law_tokens_are_units(side, side, cfg);
    }
    assert(128nat * 128 == 16_384);
}

/// Multiplies two bounds from below: sides that, doubled, reach their shares of a budget cover a
/// quarter of it.
proof fn lemma_quarter(a: nat, b: nat, x: nat, y: nat, pixels: nat)
    requires
        x > 0,
        y > 0,
        is_at_least(2 * a, x, y, pixels),
        is_at_least(2 * b, y, x, pixels),
    ensures
        pixels - pixels / PRECISION as nat <= 4 * (a * b),
{
    lemma_product_at_least(2 * a, 2 * b, x, y, pixels);
    assert((2 * a) * (2 * b) == 4 * (a * b)) by (nonlinear_arith);
}

/// A shrunk image is not shrunk too far: it keeps a quarter of `max_pixels`, because cutting a
/// side to whole units takes less than half of it. Exact for clamps below `2^48`.
pub proof fn law_shrunk_image_keeps_a_quarter(height: nat, width: nat, cfg: MmPrefillTokenConfig)
    requires
        is_image(height, width),
        is_shrunk(height, width, cfg),
    ensures
        ({
            let bars = resized(height, width, cfg);
            let max = cfg.max_pixels as nat;
            4 * (bars.0 * bars.1) >= max - max / PRECISION as nat
        }),
{
    let h = config::at_least_one(height);
    let w = config::at_least_one(width);
    let f = cfg.token_side();
    let max = cfg.max_pixels as nat;
    let bars = resized(height, width, cfg);
    let units = resized_units(height, width, cfg);
    config::lemma_token_side(cfg);
    law_at_least_one_unit(height, width, cfg);
    law_aspect_ratio_is_preserved(height, width, cfg);
    assert(bars.0 + f <= 2 * bars.0 && bars.1 + f <= 2 * bars.1) by (nonlinear_arith)
        requires
            bars.0 == units.0 * f,
            bars.1 == units.1 * f,
            units.0 >= 1,
            units.1 >= 1,
            f > 0,
    ;
    lemma_longer_is_at_least(bars.0 + f, 2 * bars.0, h, w, max);
    lemma_longer_is_at_least(bars.1 + f, 2 * bars.1, w, h, max);
    lemma_quarter(bars.0, bars.1, h, w, max);
}

proof fn lemma_longer_is_at_least(a: nat, b: nat, x: nat, y: nat, pixels: nat)
    requires
        a <= b,
        is_at_least(a, x, y, pixels),
    ensures
        is_at_least(b, x, y, pixels),
{
    assert(a * a * y <= b * b * y) by (nonlinear_arith)
        requires
            a <= b,
    ;
}

/// A grown image is not grown too far: it has at most `8 * factor * min_pixels` pixels, because
/// its sides were short enough to be grown.
pub proof fn law_grown_image_is_bounded(height: nat, width: nat, cfg: MmPrefillTokenConfig)
    requires
        is_image(height, width),
        is_grown(height, width, cfg),
    ensures
        ({
            let bars = resized(height, width, cfg);
            bars.0 * bars.1 <= 8 * (cfg.token_side() * cfg.min_pixels)
        }),
{
    let h = config::at_least_one(height);
    let w = config::at_least_one(width);
    let f = cfg.token_side();
    let min = cfg.min_pixels as nat;
    let bars = resized(height, width, cfg);
    let near = rounded(h, w, f);
    config::lemma_token_side(cfg);
    law_aspect_ratio_is_preserved(height, width, cfg);
    lemma_rounded_reaches(h, f);
    lemma_rounded_reaches(w, f);
    assert(f * f < min && h * f < 2 * min && w * f < 2 * min) by (nonlinear_arith)
        requires
            near.0 * near.1 < min,
            f <= near.0,
            f <= near.1,
            h <= 2 * near.0,
            w <= 2 * near.1,
            f > 0,
    ;
    let a = (bars.0 - f) as nat;
    let b = (bars.1 - f) as nat;
    lemma_product_at_most(a, b, h, w, min);
    vstd::arithmetic::div_mod::lemma_div_is_ordered_by_denominator(
        min as int,
        1,
        PRECISION as int,
    );
    lemma_short_side(a, h, w, min, f);
    lemma_short_side(b, w, h, min, f);
    let fm = f * min;
    assert(min <= fm) by (nonlinear_arith)
        requires
            fm == f * min,
            f >= 1,
    ;
    assert((a + f) * (b + f) == a * b + f * a + f * b + f * f) by (nonlinear_arith);
}

/// Rounding to units leaves at least one unit and more than half of a side.
proof fn lemma_rounded_reaches(x: nat, f: nat)
    requires
        0 < x,
        0 < f,
    ensures
        f <= rounded_units(x, f) * f,
        x <= 2 * (rounded_units(x, f) * f),
{
    let q = (2 * x + f) / (2 * f);
    vstd::arithmetic::div_mod::lemma_fundamental_div_mod((2 * x + f) as int, (2 * f) as int);
    let u = rounded_units(x, f);
    assert(f <= u * f && x <= 2 * (u * f)) by (nonlinear_arith)
        requires
            2 * x + f < (2 * f) * q + 2 * f,
            u == q && q >= 1 || u == 1 && q == 0,
            f >= 1,
    ;
}

/// A grown side, short of one unit, times that unit.
proof fn lemma_short_side(a: nat, x: nat, y: nat, pixels: nat, f: nat)
    requires
        f > 0,
        y > 0,
        x * f < 2 * pixels,
        is_at_most(a, x, y, pixels),
    ensures
        f * a <= 2 * (f * pixels),
{
    let j = PRECISION as int;
    let (aa, b, fm) = (a * a, x * pixels, f * pixels);
    assert(aa <= 2 * b) by (nonlinear_arith)
        requires
            j * (aa * y) <= (j + 1) * b,
            j >= 1,
            y >= 1,
            aa >= 0,
            b >= 0,
    ;
    let fa = f * a;
    assert(fa * fa <= 2 * ((f * f) * b)) by (nonlinear_arith)
        requires
            fa == f * a,
            aa == a * a,
            aa <= 2 * b,
    ;
    assert((f * f) * b <= 2 * (fm * pixels)) by (nonlinear_arith)
        requires
            b == x * pixels,
            fm == f * pixels,
            x * f < 2 * pixels,
    ;
    assert(fm * pixels <= fm * fm) by (nonlinear_arith)
        requires
            fm == f * pixels,
            f >= 1,
    ;
    assert(fa <= 2 * fm) by (nonlinear_arith)
        requires
            fa * fa <= 4 * (fm * fm),
            fm >= 0,
    ;
}

/// The total pixel count lands within the clamps: where they are far enough apart, as those of
/// Qwen3-VL are, every image lands between them, unless it has to be shrunk and one of its sides
/// had to be held at one unit. Exact for clamps below `2^48`.
pub proof fn law_lands_within_the_clamps(height: nat, width: nat, cfg: MmPrefillTokenConfig)
    requires
        is_image(height, width),
        4 * cfg.min_pixels <= cfg.max_pixels - cfg.max_pixels / PRECISION,
        8 * (cfg.token_side() * cfg.min_pixels) <= cfg.max_pixels,
    ensures
        ({
            let bars = resized(height, width, cfg);
            let max = cfg.max_pixels as nat;
            let min = cfg.min_pixels as nat;
            let held = is_shrunk(height, width, cfg) && !(holds_a_unit(height, width, cfg)
                && holds_a_unit(width, height, cfg));
            &&& min - min / PRECISION as nat <= bars.0 * bars.1
            &&& held || bars.0 * bars.1 <= max + max / PRECISION as nat
        }),
{
    law_pixel_count_is_clamped(height, width, cfg);
    if is_shrunk(height, width, cfg) {
        law_shrunk_image_keeps_a_quarter(height, width, cfg);
    } else if is_grown(height, width, cfg) {
        law_grown_image_is_bounded(height, width, cfg);
    }
}

/// The clamps of Qwen3-VL are far enough apart for [`law_lands_within_the_clamps`], and small
/// enough to be exact.
pub proof fn law_qwen3_vl_lands_within_its_clamps(height: nat, width: nat)
    requires
        height <= u32::MAX,
        width <= u32::MAX,
    ensures
        ({
            let cfg = config::qwen3_vl();
            let bars = resized(height, width, cfg);
            let held = is_shrunk(height, width, cfg) && !(holds_a_unit(height, width, cfg)
                && holds_a_unit(width, height, cfg));
            &&& 65_536 <= bars.0 * bars.1
            &&& held || bars.0 * bars.1 <= 16_777_216
        }),
{
    let cfg = config::qwen3_vl();
    assert(cfg.token_side() == 32);
    law_lands_within_the_clamps(height, width, cfg);
}

/// `u` is the number of units of `f` nearest to `x`, a half counting up, and at least one.
pub open spec fn is_nearest_units(u: nat, x: nat, f: nat) -> bool {
    &&& u >= 1
    &&& 2 * x < (2 * u + 1) * f
    &&& u == 1 || (2 * u - 1) * f <= 2 * x
}

/// A side without pixels counts as one pixel.
pub proof fn law_no_pixels_count_as_one(side: nat, cfg: MmPrefillTokenConfig)
    ensures
        resized(0, side, cfg) == resized(1, side, cfg),
        resized(side, 0, cfg) == resized(side, 1, cfg),
        estimated_tokens(0, side, cfg) == estimated_tokens(1, side, cfg),
        estimated_tokens(side, 0, cfg) == estimated_tokens(side, 1, cfg),
{
}

/// An image whose sides, taken to the nearest units, have a pixel count within the clamps gets
/// exactly these sides.
pub proof fn law_nearest_units_within_the_clamps(
    height: nat,
    width: nat,
    cfg: MmPrefillTokenConfig,
    u: nat,
    v: nat,
)
    requires
        0 < height <= u32::MAX,
        0 < width <= u32::MAX,
        is_nearest_units(u, height, cfg.token_side()),
        is_nearest_units(v, width, cfg.token_side()),
        cfg.min_pixels <= (u * cfg.token_side()) * (v * cfg.token_side()) <= cfg.max_pixels,
    ensures
        resized_units(height, width, cfg) == (u, v),
        resized(height, width, cfg) == (u * cfg.token_side(), v * cfg.token_side()),
        estimated_tokens(width, height, cfg) == u * v,
{
    let f = cfg.token_side();
    config::lemma_token_side(cfg);
    law_rounds_to_the_nearest_unit(height, f, u);
    law_rounds_to_the_nearest_unit(width, f, v);
    law_tokens_are_units(width, height, cfg);
}

/// An image whose sides, taken to the nearest units, have more pixels than the upper clamp is
/// scaled down to it: of each exact side, the square root of `x * max_pixels / y`, it keeps the
/// whole units, and at least one. The squares are exact to one part in `2^48`.
pub proof fn law_above_the_clamp_whole_units_are_kept(
    height: nat,
    width: nat,
    cfg: MmPrefillTokenConfig,
    u: nat,
    v: nat,
)
    requires
        0 < height <= u32::MAX,
        0 < width <= u32::MAX,
        is_nearest_units(u, height, cfg.token_side()),
        is_nearest_units(v, width, cfg.token_side()),
        (u * cfg.token_side()) * (v * cfg.token_side()) > cfg.max_pixels,
    ensures
        ({
            let f = cfg.token_side();
            let (a, b) = resized_units(height, width, cfg);
            let (x, y) = (height * cfg.max_pixels, width * cfg.max_pixels);
            &&& a >= 1 && b >= 1
            &&& resized(height, width, cfg) == (a * f, b * f)
            &&& estimated_tokens(width, height, cfg) == a * b
            &&& a == 1 || 0x1_0000_0000_0000 * (a * f * (a * f) * width) <= 0x1_0000_0000_0001 * x
            &&& b == 1 || 0x1_0000_0000_0000 * (b * f * (b * f) * height) <= 0x1_0000_0000_0001 * y
            &&& 0xffff_ffff_ffff * x <= 0x1_0000_0000_0000 * ((a + 1) * f * ((a + 1) * f) * width)
            &&& 0xffff_ffff_ffff * y <= 0x1_0000_0000_0000 * ((b + 1) * f * ((b + 1) * f) * height)
        }),
{
    let f = cfg.token_side();
    config::lemma_token_side(cfg);
    law_rounds_to_the_nearest_unit(height, f, u);
    law_rounds_to_the_nearest_unit(width, f, v);
    law_tokens_are_units(width, height, cfg);
    law_at_least_one_unit(height, width, cfg);
    law_aspect_ratio_is_preserved(height, width, cfg);
    assert(is_shrunk(height, width, cfg));
    let (a, b) = resized_units(height, width, cfg);
    assert((a + 1) * f == a * f + f && (b + 1) * f == b * f + f && (a * f == f ==> a == 1) && (b * f
        == f ==> b == 1)) by (nonlinear_arith)
        requires
            f > 0,
    ;
}

/// An image whose sides, taken to the nearest units, have fewer pixels than the lower clamp, and no
/// more than the upper one, is scaled up to the lower: each exact side, the square root of
/// `x * min_pixels / y`, is covered with units, and not with one too many. The squares are exact to
/// one part in `2^48`.
pub proof fn law_below_the_clamp_sides_are_covered(
    height: nat,
    width: nat,
    cfg: MmPrefillTokenConfig,
    u: nat,
    v: nat,
)
    requires
        0 < height <= u32::MAX,
        0 < width <= u32::MAX,
        is_nearest_units(u, height, cfg.token_side()),
        is_nearest_units(v, width, cfg.token_side()),
        (u * cfg.token_side()) * (v * cfg.token_side()) <= cfg.max_pixels,
        (u * cfg.token_side()) * (v * cfg.token_side()) < cfg.min_pixels,
    ensures
        ({
            let f = cfg.token_side();
            let (a, b) = resized_units(height, width, cfg);
            let (x, y) = (height * cfg.min_pixels, width * cfg.min_pixels);
            &&& a >= 1 && b >= 1
            &&& resized(height, width, cfg) == (a * f, b * f)
            &&& estimated_tokens(width, height, cfg) == a * b
            &&& 0x1_0000_0000_0000 * ((a - 1) * f * ((a - 1) * f) * width) <= 0x1_0000_0000_0001 * x
            &&& 0x1_0000_0000_0000 * ((b - 1) * f * ((b - 1) * f) * height) <= 0x1_0000_0000_0001
                * y
            &&& 0xffff_ffff_ffff * x <= 0x1_0000_0000_0000 * (a * f * (a * f) * width)
            &&& 0xffff_ffff_ffff * y <= 0x1_0000_0000_0000 * (b * f * (b * f) * height)
        }),
{
    let f = cfg.token_side();
    config::lemma_token_side(cfg);
    law_rounds_to_the_nearest_unit(height, f, u);
    law_rounds_to_the_nearest_unit(width, f, v);
    law_tokens_are_units(width, height, cfg);
    law_at_least_one_unit(height, width, cfg);
    law_aspect_ratio_is_preserved(height, width, cfg);
    assert(is_grown(height, width, cfg));
    let (a, b) = resized_units(height, width, cfg);
    assert((a - 1) * f == a * f - f && (b - 1) * f == b * f - f) by (nonlinear_arith);
}

/// Above the upper clamp, each side is divided by the square root of `height * width / max_pixels`
/// and then by the token side, and cut down; every one of these steps rounds once. Without pixels
/// to shrink to, one unit is left.
pub proof fn law_shrinking_rounds_each_step(
    height: nat,
    width: nat,
    cfg: MmPrefillTokenConfig,
    u: nat,
    v: nat,
)
    requires
        0 < height <= u32::MAX,
        0 < width <= u32::MAX,
        is_nearest_units(u, height, cfg.token_side()),
        is_nearest_units(v, width, cfg.token_side()),
        (u * cfg.token_side()) * (v * cfg.token_side()) > cfg.max_pixels,
    ensures
        ({
            let (a, b) = resized_units(height, width, cfg);
            let max = binary64::of_int(cfg.max_pixels as nat);
            let beta = binary64::of_int(height * width).over(max).root();
            let unit = binary64::of_int(cfg.token_side());
            let (x, y) = (
                binary64::of_int(height).over(beta).over(unit).floor(),
                binary64::of_int(width).over(beta).over(unit).floor(),
            );
            &&& cfg.max_pixels == 0 ==> a == 1 && b == 1
            &&& cfg.max_pixels > 0 && x > 0 ==> a == x
            &&& cfg.max_pixels > 0 && x == 0 ==> a == 1
            &&& cfg.max_pixels > 0 && y > 0 ==> b == y
            &&& cfg.max_pixels > 0 && y == 0 ==> b == 1
        }),
{
    let f = cfg.token_side();
    config::lemma_token_side(cfg);
    law_rounds_to_the_nearest_unit(height, f, u);
    law_rounds_to_the_nearest_unit(width, f, v);
}

/// Below the lower clamp, each side is multiplied by the square root of
/// `min_pixels / (height * width)`, divided by the token side, and filled up; every one of these
/// steps rounds once.
pub proof fn law_growing_rounds_each_step(
    height: nat,
    width: nat,
    cfg: MmPrefillTokenConfig,
    u: nat,
    v: nat,
)
    requires
        0 < height <= u32::MAX,
        0 < width <= u32::MAX,
        is_nearest_units(u, height, cfg.token_side()),
        is_nearest_units(v, width, cfg.token_side()),
        (u * cfg.token_side()) * (v * cfg.token_side()) <= cfg.max_pixels,
        (u * cfg.token_side()) * (v * cfg.token_side()) < cfg.min_pixels,
    ensures
        ({
            let min = binary64::of_int(cfg.min_pixels as nat);
            let beta = min.over(binary64::of_int(height * width)).root();
            let unit = binary64::of_int(cfg.token_side());
            resized_units(height, width, cfg) == (
                binary64::of_int(height).times(beta).over(unit).ceil(),
                binary64::of_int(width).times(beta).over(unit).ceil(),
            )
        }),
{
    let f = cfg.token_side();
    config::lemma_token_side(cfg);
    law_rounds_to_the_nearest_unit(height, f, u);
    law_rounds_to_the_nearest_unit(width, f, v);
}

/// The number of tokens fits exactly if it has 64 bits.
pub proof fn law_tokens_fit_in_64_bits(width: nat, height: nat, cfg: MmPrefillTokenConfig)
    ensures
        tokens_fit(width, height, cfg) <==> estimated_tokens(width, height, cfg) <= u64::MAX,
{
}

} // verus!
