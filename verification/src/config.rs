//! Vision-token estimation parameters and their environment overrides.

use vstd::prelude::*;

verus! {

/// Environment variable that overrides [`MmPrefillTokenConfig::patch_size`].
pub const PATCH_SIZE_VAR: &'static str = "DYN_ROUTER_MM_PATCH_SIZE";

/// Environment variable that overrides [`MmPrefillTokenConfig::merge_size`].
pub const MERGE_SIZE_VAR: &'static str = "DYN_ROUTER_MM_MERGE_SIZE";

/// Environment variable that overrides [`MmPrefillTokenConfig::min_pixels`].
pub const MIN_PIXELS_VAR: &'static str = "DYN_ROUTER_MM_MIN_PIXELS";

/// Environment variable that overrides [`MmPrefillTokenConfig::max_pixels`].
pub const MAX_PIXELS_VAR: &'static str = "DYN_ROUTER_MM_MAX_PIXELS";

/// Vision-token estimation parameters. Defaults target Qwen3-VL.
#[derive(Clone, Copy, Debug)]
pub struct MmPrefillTokenConfig {
    /// ViT patch size in px (`patch_size`).
    pub patch_size: u32,
    /// Spatial merge factor (`spatial_merge_size`).
    pub merge_size: u32,
    /// Lower clamp on the resized pixel count (`size.shortest_edge`).
    pub min_pixels: u64,
    /// Upper clamp on the resized pixel count (`size.longest_edge`).
    pub max_pixels: u64,
}

/// The parameters of `Qwen/Qwen3-VL-8B-Instruct`: patches of 16 px merged two by two, images
/// between 256 x 256 and 4096 x 4096 px.
pub open spec fn qwen3_vl() -> MmPrefillTokenConfig {
    MmPrefillTokenConfig {
        patch_size: 16,
        merge_size: 2,
        min_pixels: 65_536,
        max_pixels: 16_777_216,
    }
}

impl Default for MmPrefillTokenConfig {
    fn default() -> (cfg: Self)
        ensures
            cfg == qwen3_vl(),
    {
        // Qwen/Qwen3-VL-8B-Instruct preprocessor_config.json
        MmPrefillTokenConfig {
            patch_size: 16,
            merge_size: 2,
            min_pixels: 65_536,     // 256 * 256
            max_pixels: 16_777_216, // 4096 * 4096
        }
    }
}

/// `x`, but at least one.
pub open spec fn at_least_one(x: nat) -> nat {
    if x == 0 {
        1
    } else {
        x
    }
}

impl MmPrefillTokenConfig {
    /// Pixels along one side of a token: the patch size times the merge factor, where zero
    /// counts as one.
    pub open spec fn token_side(self) -> nat {
        at_least_one(self.patch_size as nat) * at_least_one(self.merge_size as nat)
    }

    /// `patch_size * merge_size`: both the smart-resize rounding factor and the
    /// square root of pixels-per-token (`factor^2` pixels collapse to one token).
    pub fn factor(&self) -> (f: u64)
        ensures
            f == self.token_side(),
            f >= 1,
    {
        let patch: u64 = if self.patch_size == 0 {
            1
        } else {
            self.patch_size as u64
        };
        let merge: u64 = if self.merge_size == 0 {
            1
        } else {
            self.merge_size as u64
        };
        proof {
            lemma_token_side(*self);
        }
        patch * merge
    }
}

/// The side of a token is not zero and has 64 bits.
pub proof fn lemma_token_side(cfg: MmPrefillTokenConfig)
    ensures
        1 <= cfg.token_side() <= u32::MAX * u32::MAX,
{
    let patch = at_least_one(cfg.patch_size as nat);
    let merge = at_least_one(cfg.merge_size as nat);
    assert(1 <= patch * merge <= u32::MAX * u32::MAX) by (nonlinear_arith)
        requires
            1 <= patch <= u32::MAX,
            1 <= merge <= u32::MAX,
    ;
}

/// `c` is a decimal digit.
pub open spec fn is_digit(c: char) -> bool {
    '0' <= c <= '9'
}

/// The number that decimal digits write, the most significant first.
pub open spec fn decimal(digits: Seq<char>) -> nat
    decreases digits.len(),
{
    if digits.len() == 0 {
        0
    } else {
        10 * decimal(digits.drop_last()) + (digits.last() as nat - '0' as nat) as nat
    }
}

/// The text without one leading plus sign.
pub open spec fn unsigned_part(text: Seq<char>) -> Seq<char> {
    if text.len() > 0 && text[0] == '+' {
        text.skip(1)
    } else {
        text
    }
}

/// The 64-bit number that a text writes: an optional plus sign, then at least one decimal digit
/// and nothing else.
pub open spec fn parsed_u64(text: Seq<char>) -> Option<u64> {
    let digits = unsigned_part(text);
    if digits.len() > 0 && (forall|i: int| 0 <= i < digits.len() ==> is_digit(#[trigger] digits[i]))
        && decimal(digits) <= u64::MAX {
        Some(decimal(digits) as u64)
    } else {
        None
    }
}

/// The value of a variable that overrides `default`: the positive number it writes, else `default`.
pub open spec fn override_or(value: Option<Seq<char>>, default: u64) -> u64 {
    match value {
        Some(text) => match parsed_u64(text) {
            Some(v) => if v > 0 {
                v
            } else {
                default
            },
            None => default,
        },
        None => default,
    }
}

/// More digits never write a smaller number.
proof fn lemma_decimal_grows(digits: Seq<char>, n: int)
    requires
        0 <= n <= digits.len(),
        forall|i: int| 0 <= i < digits.len() ==> is_digit(#[trigger] digits[i]),
    ensures
        decimal(digits.take(n)) <= decimal(digits),
    decreases digits.len() - n,
{
    if n == digits.len() {
        assert(digits.take(n) =~= digits);
    } else {
        let longer = digits.take(n + 1);
        assert(longer.drop_last() =~= digits.take(n));
        assert(longer.last() == digits[n]);
        lemma_decimal_grows(digits, n + 1);
    }
}

/// Parses a 64-bit number: an optional plus sign, then decimal digits.
pub fn parse_u64(text: &str) -> (v: Option<u64>)
    ensures
        v == parsed_u64(text@),
{
    let mut first = true;
    let mut any = false;
    let mut value: u64 = 0;
    let ghost digits = unsigned_part(text@);
    let ghost sign: int = text@.len() - digits.len();
    assert(decimal(digits.take(0)) == 0);
    for c in it: text.chars()
        invariant
            it.seq() == text@,
            digits == unsigned_part(text@),
            sign == text@.len() - digits.len(),
            first == (it.index() == 0),
            any == (it.index() > sign),
            decimal(digits.take(0)) == 0,
            it.index() < sign ==> value == 0,
            it.index() >= sign ==> value == decimal(digits.take(it.index() - sign)),
            any ==> forall|i: int| 0 <= i < it.index() - sign ==> is_digit(#[trigger] digits[i]),
    {
        let plus = first && c == '+';
        first = false;
        if !plus {
            let ghost n = it.index() - sign;
            assert(c == digits[n]);
            if c < '0' || '9' < c {
                return None;
            }
            let digit: u64 = (c as u32 - '0' as u32) as u64;
            proof {
                assert(digits.take(n + 1).drop_last() =~= digits.take(n));
                assert(digits.take(n + 1).last() == c);
                if 10 * value + digit > u64::MAX && (forall|i: int|
                    0 <= i < digits.len() ==> is_digit(#[trigger] digits[i])) {
                    lemma_decimal_grows(digits, n + 1);
                }
            }
            match value.checked_mul(10) {
                Some(tens) => match tens.checked_add(digit) {
                    Some(sum) => {
                        value = sum;
                    },
                    None => {
                        return None;
                    },
                },
                None => {
                    return None;
                },
            }
            any = true;
        }
    }
    assert(digits.take(digits.len() as int) =~= digits);
    if any {
        Some(value)
    } else {
        None
    }
}

/// The number that the environment gives for a variable, if it is set, readable and positive;
/// `default` otherwise.
pub fn env_u64(value: Option<&str>, default: u64) -> (v: u64)
    ensures
        v == override_or(
            match value {
                Some(text) => Some(text@),
                None => None,
            },
            default,
        ),
{
    match value {
        Some(text) => match parse_u64(text) {
            Some(v) => if v > 0 {
                v
            } else {
                default
            },
            None => default,
        },
        None => default,
    }
}

/// The values of the environment variables, `None` for one that is unset or not Unicode.
#[derive(Debug)]
pub struct EnvOverrides {
    /// Value of [`PATCH_SIZE_VAR`].
    pub patch_size: Option<String>,
    /// Value of [`MERGE_SIZE_VAR`].
    pub merge_size: Option<String>,
    /// Value of [`MIN_PIXELS_VAR`].
    pub min_pixels: Option<String>,
    /// Value of [`MAX_PIXELS_VAR`].
    pub max_pixels: Option<String>,
}

/// The text of a variable, if there is one.
pub open spec fn text_of(value: Option<String>) -> Option<Seq<char>> {
    match value {
        Some(text) => Some(text@),
        None => None,
    }
}

/// A variable's text, borrowed.
fn borrowed(value: &Option<String>) -> (text: Option<&str>)
    ensures
        text_of(*value) == (match text {
            Some(t) => Some(t@),
            None => None,
        }),
{
    match value {
        Some(t) => Some(t.as_str()),
        None => None,
    }
}

/// The low 32 bits of a number.
pub(crate) fn low_u32(x: u64) -> (r: u32)
    ensures
        r == x % 0x1_0000_0000,
{
    let r: u32 = #[verifier::truncate]
    (x as u32);
    assert(x as u32 == x % 0x1_0000_0000) by (bit_vector);
    r
}

/// The configuration that the environment gives.
pub open spec fn configured(env: EnvOverrides) -> MmPrefillTokenConfig {
    let d = qwen3_vl();
    MmPrefillTokenConfig {
        patch_size: (override_or(text_of(env.patch_size), d.patch_size as u64) % 0x1_0000_0000)
            as u32,
        merge_size: (override_or(text_of(env.merge_size), d.merge_size as u64) % 0x1_0000_0000)
            as u32,
        min_pixels: override_or(text_of(env.min_pixels), d.min_pixels),
        max_pixels: override_or(text_of(env.max_pixels), d.max_pixels),
    }
}

/// The configuration that the environment gives: each field its variable's positive number, or
/// the default. The two sizes keep the low 32 bits of the number.
pub fn config(env: &EnvOverrides) -> (cfg: MmPrefillTokenConfig)
    ensures
        cfg == configured(*env),
        cfg.patch_size == override_or(text_of(env.patch_size), 16) % 0x1_0000_0000,
        cfg.merge_size == override_or(text_of(env.merge_size), 2) % 0x1_0000_0000,
        cfg.min_pixels == override_or(text_of(env.min_pixels), 65_536),
        cfg.max_pixels == override_or(text_of(env.max_pixels), 16_777_216),
        env.patch_size is None && env.merge_size is None && env.min_pixels is None
            && env.max_pixels is None ==> cfg == qwen3_vl(),
{
    let d = MmPrefillTokenConfig::default();
    MmPrefillTokenConfig {
        patch_size: low_u32(env_u64(borrowed(&env.patch_size), d.patch_size as u64)),
        merge_size: low_u32(env_u64(borrowed(&env.merge_size), d.merge_size as u64)),
        min_pixels: env_u64(borrowed(&env.min_pixels), d.min_pixels),
        max_pixels: env_u64(borrowed(&env.max_pixels), d.max_pixels),
    }
}

/// Without overrides the configuration is the default, and an override that is not a positive
/// number counts as none.
pub proof fn law_bad_overrides_are_ignored(text: Seq<char>, default: u64)
    requires
        parsed_u64(text) is None || parsed_u64(text) == Some(0u64),
    ensures
        override_or(Some(text), default) == override_or(None, default),
        override_or(None, default) == default,
{
}

/// Patch size and merge factor multiply, where neither is zero; a zero leaves the other one.
pub proof fn law_token_side_is_a_product(cfg: MmPrefillTokenConfig)
    ensures
        cfg.patch_size > 0 && cfg.merge_size > 0 ==> cfg.token_side() == cfg.patch_size
            * cfg.merge_size,
        cfg.patch_size == 0 && cfg.merge_size > 0 ==> cfg.token_side() == cfg.merge_size,
        cfg.patch_size > 0 && cfg.merge_size == 0 ==> cfg.token_side() == cfg.patch_size,
        cfg.patch_size == 0 && cfg.merge_size == 0 ==> cfg.token_side() == 1,
{
    let (a, b) = (cfg.patch_size as nat, cfg.merge_size as nat);
    assert(1 * b == b && a * 1 == a && 1nat * 1nat == 1) by (nonlinear_arith);
}

/// The default tokens are 32 px on a side; the default clamps are the pixels of squares of 256 and
/// of 4096 px.
pub proof fn law_default_parameters()
    ensures
        qwen3_vl().patch_size == 16,
        qwen3_vl().merge_size == 2,
        qwen3_vl().min_pixels == 256 * 256,
        qwen3_vl().max_pixels == 4096 * 4096,
        qwen3_vl().token_side() == 32,
{
    assert(16nat * 2nat == 32);
}

/// The variables that the environment is asked for.
pub proof fn law_variable_names()
    ensures
        PATCH_SIZE_VAR@ == "DYN_ROUTER_MM_PATCH_SIZE"@,
        MERGE_SIZE_VAR@ == "DYN_ROUTER_MM_MERGE_SIZE"@,
        MIN_PIXELS_VAR@ == "DYN_ROUTER_MM_MIN_PIXELS"@,
        MAX_PIXELS_VAR@ == "DYN_ROUTER_MM_MAX_PIXELS"@,
{
}

/// A single digit writes itself.
pub proof fn law_a_digit_is_a_number(c: char)
    requires
        '0' <= c <= '9',
    ensures
        parsed_u64(seq![c]) == Some((c as u32 - 48) as u64),
{
    let text = seq![c];
    assert(text.drop_last() =~= Seq::<char>::empty());
    assert(decimal(text.drop_last()) == 0);
}

/// One more digit multiplies by ten and adds; a number that outgrows 64 bits is none, and stays
/// none whatever digits follow.
pub proof fn law_one_more_digit(text: Seq<char>, c: char)
    requires
        text.len() > 0,
        forall|i: int| 0 <= i < text.len() ==> '0' <= #[trigger] text[i] <= '9',
        '0' <= c <= '9',
    ensures
        match parsed_u64(text) {
            Some(v) => parsed_u64(text.push(c)) == (if 10 * v + (c as u32 - 48) <= u64::MAX {
                Some((10 * v + (c as u32 - 48)) as u64)
            } else {
                None
            }),
            None => parsed_u64(text.push(c)) is None,
        },
{
    let more = text.push(c);
    assert(text[0] != '+' && more[0] == text[0]);
    assert(more.drop_last() =~= text);
    assert(forall|i: int| 0 <= i < text.len() ==> is_digit(#[trigger] text[i]));
    assert forall|i: int| 0 <= i < more.len() implies is_digit(#[trigger] more[i]) by {
        if i < text.len() {
            assert(more[i] == text[i]);
        }
    }
}

/// One plus sign may stand in front of a number and changes nothing.
pub proof fn law_plus_sign(text: Seq<char>)
    ensures
        text.len() > 0 && text[0] != '+' ==> parsed_u64(seq!['+'] + text) == parsed_u64(text),
        text.len() > 0 && text[0] == '+' ==> parsed_u64(seq!['+'] + text) is None,
        text.len() == 0 ==> parsed_u64(seq!['+'] + text) is None,
{
    let signed = seq!['+'] + text;
    assert(signed[0] == '+');
    assert(signed.skip(1) =~= text);
    if text.len() > 0 && text[0] == '+' {
        assert(!is_digit(unsigned_part(signed)[0]));
    }
}

/// Nothing but digits is a number: not the empty text, and none with another character behind the
/// sign.
pub proof fn law_other_texts_are_no_numbers(text: Seq<char>, i: int)
    requires
        text.len() == 0 || 0 <= i < text.len() && !('0' <= text[i] <= '9') && (i > 0 || text[i]
            != '+'),
    ensures
        parsed_u64(text) is None,
{
    if text.len() > 0 {
        let digits = unsigned_part(text);
        let k = if text[0] == '+' {
            i - 1
        } else {
            i
        };
        assert(digits[k] == text[i]);
        assert(!is_digit(digits[k]));
    }
}

/// A positive number overrides the default, whatever that is.
pub proof fn law_good_overrides_win(text: Seq<char>, default: u64, v: u64)
    requires
        parsed_u64(text) == Some(v),
        v > 0,
    ensures
        override_or(Some(text), default) == v,
{
}

/// Each field has the positive number of its own variable, and the default where that variable is
/// unset or no positive number. The sizes are cut to 32 bits, the clamps are not.
pub proof fn law_each_variable_sets_its_field(env: EnvOverrides)
    ensures
        ({
            let cfg = configured(env);
            &&& match env.patch_size {
                Some(text) => match parsed_u64(text@) {
                    Some(v) => cfg.patch_size == if v > 0 {
                        v % 0x1_0000_0000
                    } else {
                        16
                    },
                    None => cfg.patch_size == 16,
                },
                None => cfg.patch_size == 16,
            }
            &&& match env.merge_size {
                Some(text) => match parsed_u64(text@) {
                    Some(v) => cfg.merge_size == if v > 0 {
                        v % 0x1_0000_0000
                    } else {
                        2
                    },
                    None => cfg.merge_size == 2,
                },
                None => cfg.merge_size == 2,
            }
            &&& match env.min_pixels {
                Some(text) => match parsed_u64(text@) {
                    Some(v) => cfg.min_pixels == if v > 0 {
                        v
                    } else {
                        65_536
                    },
                    None => cfg.min_pixels == 65_536,
                },
                None => cfg.min_pixels == 65_536,
            }
            &&& match env.max_pixels {
                Some(text) => match parsed_u64(text@) {
                    Some(v) => cfg.max_pixels == if v > 0 {
                        v
                    } else {
                        16_777_216
                    },
                    None => cfg.max_pixels == 16_777_216,
                },
                None => cfg.max_pixels == 16_777_216,
            }
        }),
{
}

} // verus!
