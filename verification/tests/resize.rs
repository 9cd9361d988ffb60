use prefill_router::binary64::Binary64;
use prefill_router::config::MmPrefillTokenConfig;
use prefill_router::resize::{checked_image_tokens, estimate_image_tokens, smart_resize};
use prefill_router::scaling::{grow, shrink};

const QWEN3VL: MmPrefillTokenConfig = MmPrefillTokenConfig {
    patch_size: 16,
    merge_size: 2,
    min_pixels: 65_536,
    max_pixels: 16_777_216,
};

/// A multiplicative generator, enough to spread inputs.
struct Numbers(u64);

impl Numbers {
    fn next(&mut self) -> u64 {
        self.0 = self
            .0
            .wrapping_mul(6364136223846793005)
            .wrapping_add(1442695040888963407);
        let x = self.0;
        (x ^ (x >> 29)).wrapping_mul(0x9E37_79B9_7F4A_7C15) ^ (x >> 41)
    }

    /// A number of a random length of up to `bits` bits.
    fn up_to(&mut self, bits: u64) -> u64 {
        let len = self.next() % bits + 1;
        self.next() >> (64 - len)
    }
}

/// The same computation in floating point; `None` where the tokens need more than 64 bits.
fn float_tokens(width: u32, height: u32, cfg: &MmPrefillTokenConfig) -> Option<u64> {
    let factor = cfg.patch_size.max(1) as u64 * cfg.merge_size.max(1) as u64;
    let ff = factor as f64;
    let h = height.max(1) as f64;
    let w = width.max(1) as f64;
    let unit = factor as u128;
    let round_to = |x: f64| ((x / ff).round() as u128).max(1) * unit;
    let floor_to = |x: f64| ((x / ff).floor() as u128).max(1) * unit;
    let ceil_to = |x: f64| ((x / ff).ceil() as u128).max(1) * unit;
    let mut h_bar = round_to(h);
    let mut w_bar = round_to(w);
    if h_bar * w_bar > cfg.max_pixels as u128 {
        let beta = ((h * w) / cfg.max_pixels as f64).sqrt();
        h_bar = floor_to(h / beta);
        w_bar = floor_to(w / beta);
    } else if h_bar * w_bar < cfg.min_pixels as u128 {
        let beta = (cfg.min_pixels as f64 / (h * w)).sqrt();
        h_bar = ceil_to(h * beta);
        w_bar = ceil_to(w * beta);
    }
    u64::try_from((h_bar * w_bar) / (unit * unit)).ok()
}

fn parts(x: f64) -> (u64, u32) {
    let bits = x.to_bits();
    (
        (bits & 0xF_FFFF_FFFF_FFFF) | 0x10_0000_0000_0000,
        (bits >> 52) as u32,
    )
}

fn pair(x: Binary64) -> (u64, u32) {
    (x.mant, x.exp)
}

#[test]
fn binary64_agrees_with_the_floating_point_unit() {
    let mut numbers = Numbers(1);
    for _ in 0..200_000 {
        let a = numbers.up_to(64).max(1);
        let b = numbers.up_to(64).max(1);
        let (x, y) = (Binary64::from_u64(a), Binary64::from_u64(b));
        let (fx, fy) = (a as f64, b as f64);
        assert_eq!(pair(x), parts(fx));
        assert_eq!(pair(x.mul(y)), parts(fx * fy));
        assert_eq!(pair(x.div(y)), parts(fx / fy));
        assert_eq!(pair(x.sqrt()), parts(fx.sqrt()));
        assert_eq!(pair(x.div(y).sqrt()), parts((fx / fy).sqrt()));
        let ratio = x.div(y);
        if ratio.exp <= 1075 {
            assert_eq!(ratio.floor(), (fx / fy).floor() as u64);
            assert_eq!(ratio.ceil(), (fx / fy).ceil() as u64);
        }
    }
}

#[test]
fn binary64_rounds_ties_to_even() {
    assert_eq!(
        pair(Binary64::from_u64(0x20_0000_0000_0001)),
        (0x10_0000_0000_0000, 1076)
    );
    assert_eq!(
        pair(Binary64::from_u64(0x20_0000_0000_0003)),
        (0x10_0000_0000_0002, 1076)
    );
    assert_eq!(
        pair(Binary64::from_u64(u64::MAX)),
        (0x10_0000_0000_0000, 1087)
    );
    assert_eq!(pair(Binary64::from_u64(1)), (0x10_0000_0000_0000, 1023));
}

#[test]
fn estimates_agree_with_floating_point() {
    let mut numbers = Numbers(7);
    let mut shrunk = 0;
    let mut grown = 0;
    let mut wide = 0;
    for _ in 0..600_000 {
        let width = numbers.up_to(32) as u32;
        let height = numbers.up_to(32) as u32;
        let cfg = MmPrefillTokenConfig {
            patch_size: numbers.up_to(32) as u32,
            merge_size: numbers.up_to(32) as u32,
            min_pixels: numbers.up_to(64),
            max_pixels: numbers.up_to(64),
        };
        let expected = float_tokens(width, height, &cfg);
        assert_eq!(checked_image_tokens(width, height, &cfg), expected);
        if let Some(tokens) = expected {
            assert_eq!(estimate_image_tokens(width, height, &cfg), tokens);
        }
        if (width as u64) * (height as u64) > cfg.max_pixels {
            shrunk += 1;
        } else if (width as u64) * (height as u64) < cfg.min_pixels {
            grown += 1;
        }
        if cfg.factor() > u32::MAX as u64 {
            wide += 1;
        }
    }
    assert!(
        shrunk > 10_000 && grown > 10_000 && wide > 10_000,
        "{shrunk} {grown} {wide}"
    );
}

#[test]
fn estimates_agree_with_floating_point_for_small_tokens() {
    let mut numbers = Numbers(23);
    for _ in 0..300_000 {
        let width = numbers.up_to(32) as u32;
        let height = numbers.up_to(32) as u32;
        let cfg = MmPrefillTokenConfig {
            patch_size: numbers.up_to(3) as u32,
            merge_size: numbers.up_to(2) as u32,
            min_pixels: u64::MAX >> (numbers.next() % 24),
            max_pixels: u64::MAX >> (numbers.next() % 24),
        };
        assert_eq!(
            checked_image_tokens(width, height, &cfg),
            float_tokens(width, height, &cfg)
        );
    }
}

#[test]
fn estimates_agree_with_floating_point_near_whole_units() {
    // budgets that are squares, sides that are near multiples: quotients that land on integers
    let mut numbers = Numbers(99);
    for _ in 0..150_000 {
        let factor = numbers.up_to(6).max(1) as u32;
        let root = numbers.up_to(14).max(1);
        let width = (numbers.up_to(15) as u32).max(1);
        let scale = numbers.up_to(3).max(1) as u32;
        let cfg = MmPrefillTokenConfig {
            patch_size: factor,
            merge_size: 1,
            min_pixels: root * root,
            max_pixels: root * root,
        };
        let height = width * scale * scale;
        assert_eq!(
            checked_image_tokens(width, height, &cfg),
            float_tokens(width, height, &cfg)
        );
        assert_eq!(
            checked_image_tokens(height, width, &cfg),
            float_tokens(height, width, &cfg)
        );
    }
}

#[test]
fn resizes_exactly() {
    assert_eq!(smart_resize(1000, 1000, &QWEN3VL), (992, 992));
    assert_eq!(smart_resize(16, 16, &QWEN3VL), (256, 256));
    assert_eq!(smart_resize(10_000, 10_000, &QWEN3VL), (4096, 4096));
    assert_eq!(smart_resize(0, 0, &QWEN3VL), (256, 256));
    assert_eq!(smart_resize(480, 640, &QWEN3VL), (480, 640));
    // a half counts up
    assert_eq!(smart_resize(1040, 1024, &QWEN3VL), (1056, 1024));
    assert_eq!(estimate_image_tokens(16, 16, &QWEN3VL), 64);
    assert_eq!(estimate_image_tokens(10_000, 10_000, &QWEN3VL), 16_384);
}

#[test]
fn sides_are_whole_tokens_and_the_estimate_is_their_product() {
    for (height, width) in [(1, 1), (37, 4001), (5000, 9000), (720, 1280), (3, 1_000_000)] {
        let (h_bar, w_bar) = smart_resize(height, width, &QWEN3VL);
        assert_eq!(h_bar % 32, 0);
        assert_eq!(w_bar % 32, 0);
        assert!(h_bar >= 32 && w_bar >= 32);
        assert_eq!(
            estimate_image_tokens(width, height, &QWEN3VL),
            (h_bar / 32) * (w_bar / 32)
        );
    }
}

#[test]
fn transposed_image_has_transposed_size() {
    for (height, width) in [(37, 4001), (5000, 9000), (720, 1280), (1, 60)] {
        let (h_bar, w_bar) = smart_resize(height, width, &QWEN3VL);
        assert_eq!(smart_resize(width, height, &QWEN3VL), (w_bar, h_bar));
        assert_eq!(
            estimate_image_tokens(width, height, &QWEN3VL),
            estimate_image_tokens(height, width, &QWEN3VL)
        );
    }
}

#[test]
fn resizing_twice_changes_nothing() {
    for (height, width) in [(37, 401), (5000, 9000), (720, 1280), (16, 16)] {
        let (h_bar, w_bar) = smart_resize(height, width, &QWEN3VL);
        assert_eq!(
            smart_resize(h_bar as u32, w_bar as u32, &QWEN3VL),
            (h_bar, w_bar)
        );
    }
}

#[test]
fn aspect_ratio_is_preserved() {
    // 9000 : 5000 shrunk to 4096^2 px: 5495.4 x 3053.0, cut to units of 32
    assert_eq!(smart_resize(5000, 9000, &QWEN3VL), (3040, 5472));
    // 90 : 50 grown to 256^2 px: 343.46 x 190.8, filled to units of 32
    assert_eq!(smart_resize(50, 90, &QWEN3VL), (192, 352));
}

#[test]
fn elongated_image_is_held_at_one_unit() {
    // one side is held at 32 px, so the pixel count exceeds the clamp
    let (h_bar, w_bar) = smart_resize(1, 2_000_000_000, &QWEN3VL);
    assert_eq!(h_bar, 32);
    assert!(h_bar * w_bar > QWEN3VL.max_pixels);
}

#[test]
fn empty_budget_leaves_one_unit() {
    let cfg = MmPrefillTokenConfig {
        patch_size: 1,
        merge_size: 1,
        min_pixels: 0,
        max_pixels: 0,
    };
    assert_eq!(smart_resize(500, 700, &cfg), (1, 1));
    assert_eq!(estimate_image_tokens(700, 500, &cfg), 1);
    assert_eq!(shrink(500, 700, 0, 1), (0, 0));
}

#[test]
fn units_of_scaled_sides() {
    assert_eq!(shrink(5000, 9000, 16_777_216, 32), (95, 171));
    assert_eq!(grow(50, 90, 65_536, 32), (6, 11));
}

#[test]
fn zero_sizes_count_as_one() {
    let cfg = MmPrefillTokenConfig {
        patch_size: 0,
        merge_size: 0,
        min_pixels: 1,
        max_pixels: 1_000_000,
    };
    assert_eq!(cfg.factor(), 1);
    assert_eq!(estimate_image_tokens(30, 20, &cfg), 600);
}

#[test]
fn factor_has_64_bits() {
    let mut cfg = MmPrefillTokenConfig {
        patch_size: 0x1_0000,
        merge_size: 0x1_0000,
        min_pixels: 1,
        max_pixels: 1,
    };
    assert_eq!(cfg.factor(), 0x1_0000_0000);
    assert_eq!(smart_resize(1, 1, &cfg), (0x1_0000_0000, 0x1_0000_0000));
    assert_eq!(estimate_image_tokens(1, 1, &cfg), 1);
    cfg.patch_size = u32::MAX;
    cfg.merge_size = u32::MAX;
    assert_eq!(cfg.factor(), 0xffff_fffe_0000_0001);
    assert_eq!(
        smart_resize(u32::MAX, 1, &cfg),
        (0xffff_fffe_0000_0001, 0xffff_fffe_0000_0001)
    );
    assert_eq!(estimate_image_tokens(u32::MAX, 1, &cfg), 1);
}

#[test]
fn largest_images_saturate() {
    assert_eq!(smart_resize(u32::MAX, u32::MAX, &QWEN3VL), (4096, 4096));
    assert_eq!(estimate_image_tokens(u32::MAX, u32::MAX, &QWEN3VL), 16_384);
    assert_eq!(estimate_image_tokens(0x8000_0000, 0x8000_0000, &QWEN3VL), 16_384);
    // twice as long as high: 5792.6 x 2896.3 px, cut to units of 32
    assert_eq!(
        smart_resize(0x4000_0000, 0x8000_0000, &QWEN3VL),
        (2880, 5792)
    );
}

#[test]
fn square_images_saturate_exactly() {
    let mut numbers = Numbers(41);
    for _ in 0..50_000 {
        let side = (numbers.up_to(32) as u32).max(4096);
        assert_eq!(smart_resize(side, side, &QWEN3VL), (4096, 4096));
        assert_eq!(estimate_image_tokens(side, side, &QWEN3VL), 16_384);
    }
    // 2^10 px hold 34 units of 30
    let cfg = MmPrefillTokenConfig {
        patch_size: 15,
        merge_size: 2,
        min_pixels: 0,
        max_pixels: 0x10_0000,
    };
    assert_eq!(estimate_image_tokens(1_234_567, 1_234_567, &cfg), 34 * 34);
}

#[test]
fn tokens_of_more_than_64_bits_are_reported() {
    let mut cfg = MmPrefillTokenConfig {
        patch_size: 1,
        merge_size: 1,
        min_pixels: u64::MAX,
        max_pixels: u64::MAX,
    };
    // grown to 2^32 px on each side
    assert_eq!(smart_resize(1, 1, &cfg), (0x1_0000_0000, 0x1_0000_0000));
    assert_eq!(checked_image_tokens(1, 1, &cfg), None);
    // a lower clamp, or tokens of two pixels, make it fit
    cfg.min_pixels = 0x4000_0000_0000_0000;
    assert_eq!(estimate_image_tokens(1, 1, &cfg), 0x4000_0000_0000_0000);
    cfg.min_pixels = u64::MAX;
    cfg.patch_size = 2;
    assert_eq!(estimate_image_tokens(1, 1, &cfg), 0x4000_0000_0000_0000);
}

#[test]
fn moderate_clamps_bound_the_tokens() {
    let mut numbers = Numbers(61);
    for _ in 0..100_000 {
        let cfg = MmPrefillTokenConfig {
            patch_size: numbers.up_to(4) as u32,
            merge_size: numbers.up_to(2) as u32,
            min_pixels: numbers.up_to(48),
            max_pixels: numbers.up_to(48),
        };
        let (width, height) = (numbers.up_to(32) as u32, numbers.up_to(32) as u32);
        assert!(estimate_image_tokens(width, height, &cfg) <= 0x8_0000_0000_0000);
    }
}

#[test]
fn doubling_keeps_the_tokens() {
    let mut numbers = Numbers(77);
    for _ in 0..100_000 {
        let (width, height) = (numbers.up_to(20) as u32 + 1, numbers.up_to(20) as u32 + 1);
        let cfg = MmPrefillTokenConfig {
            patch_size: numbers.up_to(8) as u32 + 1,
            merge_size: numbers.up_to(7) as u32 + 1,
            min_pixels: numbers.up_to(40),
            max_pixels: numbers.up_to(40),
        };
        let doubled = MmPrefillTokenConfig {
            patch_size: 2 * cfg.patch_size,
            merge_size: cfg.merge_size,
            min_pixels: 4 * cfg.min_pixels,
            max_pixels: 4 * cfg.max_pixels,
        };
        assert_eq!(
            estimate_image_tokens(2 * width, 2 * height, &doubled),
            estimate_image_tokens(width, height, &cfg)
        );
    }
}

#[test]
fn images_land_within_the_clamps() {
    let mut numbers = Numbers(5);
    for _ in 0..100_000 {
        let height = numbers.up_to(32) as u32;
        let width = numbers.up_to(32) as u32;
        let (h_bar, w_bar) = smart_resize(height, width, &QWEN3VL);
        let pixels = h_bar * w_bar;
        assert!(pixels >= QWEN3VL.min_pixels);
        // only an image with a side of one unit may have more pixels
        assert!(pixels <= QWEN3VL.max_pixels || h_bar == 32 || w_bar == 32);
    }
}

#[test]
fn shrunk_image_keeps_a_quarter() {
    let cfg = MmPrefillTokenConfig {
        patch_size: 100,
        merge_size: 1,
        min_pixels: 1,
        max_pixels: 39_999,
    };
    // the exact sides are just below two units
    assert_eq!(smart_resize(5000, 5000, &cfg), (100, 100));
    assert!(4 * 100 * 100 >= cfg.max_pixels);
}

#[test]
fn grown_image_is_bounded() {
    // 1 x 2000 px: 5.7 x 11448.7 px after growing, filled to 32 x 11456
    assert_eq!(smart_resize(1, 2000, &QWEN3VL), (32, 11_456));
    assert!(32 * 11_456 <= 8 * 32 * QWEN3VL.min_pixels);
}

#[test]
fn sides_round_to_the_nearest_unit() {
    let open = MmPrefillTokenConfig {
        patch_size: 7,
        merge_size: 4,
        min_pixels: 0,
        max_pixels: u64::MAX,
    };
    let mut numbers = Numbers(11);
    for _ in 0..100_000 {
        let x = numbers.up_to(32) as u32;
        let units = ((x.max(1) as f64 / 28.0).round() as u64).max(1);
        assert_eq!(smart_resize(x, 28, &open), (units * 28, 28));
    }
    assert_eq!(smart_resize(41, 42, &open), (28, 56));
}

#[test]
fn product_of_integers_rounds_once() {
    let mut numbers = Numbers(3);
    for _ in 0..100_000 {
        let x = numbers.up_to(32).max(1);
        let y = numbers.up_to(32).max(1);
        assert_eq!(
            pair(Binary64::from_u64(x).mul(Binary64::from_u64(y))),
            pair(Binary64::from_u64(x * y))
        );
    }
}
