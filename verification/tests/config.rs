use prefill_router::config::{config, env_u64, parse_u64, EnvOverrides, MmPrefillTokenConfig};

fn overrides(values: [Option<&str>; 4]) -> EnvOverrides {
    let text = |v: Option<&str>| v.map(|s| s.to_string());
    EnvOverrides {
        patch_size: text(values[0]),
        merge_size: text(values[1]),
        min_pixels: text(values[2]),
        max_pixels: text(values[3]),
    }
}

fn fields(cfg: &MmPrefillTokenConfig) -> (u32, u32, u64, u64) {
    (cfg.patch_size, cfg.merge_size, cfg.min_pixels, cfg.max_pixels)
}

#[test]
fn numbers_parse_as_in_the_standard_library() {
    for text in [
        "", "+", "-", "0", "+0", "-0", "00", "7", "+7", "++7", "7+", " 7", "7 ", "1_000", "0x10",
        "18446744073709551615", "18446744073709551616", "99999999999999999999999",
        "000000000000000000000000000042", "12a", "a12", "\u{661}", "1.5", "184467440737095516150",
    ] {
        assert_eq!(parse_u64(text), text.parse::<u64>().ok(), "{text:?}");
    }
}

#[test]
fn unreadable_and_zero_overrides_are_ignored() {
    assert_eq!(env_u64(None, 5), 5);
    assert_eq!(env_u64(Some(""), 5), 5);
    assert_eq!(env_u64(Some("0"), 5), 5);
    assert_eq!(env_u64(Some("-3"), 5), 5);
    assert_eq!(env_u64(Some("3"), 5), 3);
}

#[test]
fn no_overrides_give_the_default() {
    let cfg = config(&overrides([None, None, None, None]));
    assert_eq!(fields(&cfg), (16, 2, 65_536, 16_777_216));
    assert_eq!(fields(&cfg), fields(&MmPrefillTokenConfig::default()));
    assert_eq!(cfg.factor(), 32);
}

#[test]
fn each_variable_sets_its_field() {
    let cfg = config(&overrides([Some("14"), Some("3"), Some("100"), Some("+200")]));
    assert_eq!(fields(&cfg), (14, 3, 100, 200));
    assert_eq!(cfg.factor(), 42);
}

#[test]
fn sizes_keep_the_low_bits() {
    let cfg = config(&overrides([Some("4294967310"), Some("4294967296"), None, None]));
    assert_eq!(fields(&cfg), (14, 0, 65_536, 16_777_216));
    assert_eq!(cfg.factor(), 14);
}
