//! Image dimensions from inline `data:` URIs.

use vstd::prelude::*;

verus! {

/// What follows the first comma of a text, if it has one.
pub open spec fn after_comma(text: Seq<char>) -> Option<Seq<char>>
    decreases text.len(),
{
    if text.len() == 0 {
        None
    } else if text[0] == ',' {
        Some(text.skip(1))
    } else {
        after_comma(text.skip(1))
    }
}

/// The scheme of an inline URI.
pub open spec fn data_scheme() -> Seq<char> {
    seq!['d', 'a', 't', 'a', ':']
}

/// The payload of a `data:` URI: what follows the first comma behind the scheme.
pub open spec fn payload_of(uri: Seq<char>) -> Option<Seq<char>> {
    if data_scheme().is_prefix_of(uri) {
        after_comma(uri.skip(5))
    } else {
        None
    }
}

/// The character of the standard base64 alphabet for a number of six bits.
pub open spec fn symbol(i: nat) -> char {
    if i < 26 {
        ('A' as nat + i) as char
    } else if i < 52 {
        ('a' as nat + i - 26) as char
    } else if i < 62 {
        ('0' as nat + i - 52) as char
    } else if i == 62 {
        '+'
    } else {
        '/'
    }
}

/// Byte `i`, or zero bits behind the last byte.
pub open spec fn byte_or_zero(bytes: Seq<u8>, i: int) -> nat {
    if i < bytes.len() {
        bytes[i] as nat
    } else {
        0
    }
}

/// The first three bytes as a number of 24 bits.
pub open spec fn group(bytes: Seq<u8>) -> nat {
    byte_or_zero(bytes, 0) * 0x1_0000 + byte_or_zero(bytes, 1) * 0x100 + byte_or_zero(bytes, 2)
}

/// The four symbols of the first three bytes. Of one or two bytes, the symbols that hold none of
/// their bits are padding.
pub open spec fn quad(bytes: Seq<u8>) -> Seq<char> {
    let n = group(bytes);
    seq![
        symbol(n / 0x4_0000),
        symbol(n / 0x1000 % 64),
        if bytes.len() < 2 {
            '='
        } else {
            symbol(n / 64 % 64)
        },
        if bytes.len() < 3 {
            '='
        } else {
            symbol(n % 64)
        },
    ]
}

/// How many bytes the first four symbols hold.
pub open spec fn group_len(bytes: Seq<u8>) -> int {
    if bytes.len() < 3 {
        bytes.len() as int
    } else {
        3
    }
}

/// The base64 text of some bytes (RFC 4648, section 4): four symbols for each three bytes.
pub open spec fn base64_text(bytes: Seq<u8>) -> Seq<char>
    decreases bytes.len(),
{
    if bytes.len() == 0 {
        seq![]
    } else {
        quad(bytes) + base64_text(bytes.skip(group_len(bytes)))
    }
}

/// The bytes that a text encodes, if it is the base64 text of any.
pub open spec fn base64_bytes(text: Seq<char>) -> Option<Seq<u8>> {
    if exists|bytes: Seq<u8>| base64_text(bytes) == text {
        Some(choose|bytes: Seq<u8>| base64_text(bytes) == text)
    } else {
        None
    }
}

/// The bytes of an inline image: its payload, if there is any, decoded.
pub open spec fn inline_bytes(uri: Seq<char>) -> Option<Seq<u8>> {
    match payload_of(uri) {
        Some(payload) => if payload.len() == 0 {
            None
        } else {
            base64_bytes(payload)
        },
        None => None,
    }
}

/// The bytes start as an OpenEXR image does.
pub open spec fn is_exr(bytes: Seq<u8>) -> bool {
    bytes.len() >= 4 && bytes[0] == 0x76 && bytes[1] == 0x2f && bytes[2] == 0x31 && bytes[3] == 0x01
}

/// The bytes start as an icon does.
pub open spec fn is_icon(bytes: Seq<u8>) -> bool {
    bytes.len() >= 4 && bytes[0] == 0 && bytes[1] == 0 && bytes[2] == 1 && bytes[3] == 0
}

/// At `i` stands the `acTL` chunk of a PNG image with `2^32 - 1` frames.
pub open spec fn counts_every_frame(bytes: Seq<u8>, i: int) -> bool {
    &&& 0 <= i && i + 8 <= bytes.len()
    &&& bytes[i] == 0x61 && bytes[i + 1] == 0x63 && bytes[i + 2] == 0x54 && bytes[i + 3] == 0x4c
    &&& bytes[i + 4] == 0xff && bytes[i + 5] == 0xff && bytes[i + 6] == 0xff && bytes[i + 7] == 0xff
}

/// At `i` stands the `IHDR` chunk of a PNG image with `2^29` pixels or more in a row.
pub open spec fn is_very_wide(bytes: Seq<u8>, i: int) -> bool {
    &&& 0 <= i && i + 5 <= bytes.len()
    &&& bytes[i] == 0x49 && bytes[i + 1] == 0x48 && bytes[i + 2] == 0x44 && bytes[i + 3] == 0x52
    &&& bytes[i + 4] >= 0x20
}

/// What the header readers count fits their integers. They number bytes with 31 bits. Where a
/// machine word is shorter than 64 bits, they also multiply the tiles of an OpenEXR image, inflate
/// the colour profile of an icon, count the frames and the bytes in a row of a PNG image, and
/// collect lines, all in machine words.
pub open spec fn is_countable(bytes: Seq<u8>, word_bits: u32) -> bool {
    &&& bytes.len() <= 0x7fff_ffff
    &&& word_bits >= 64 || {
        &&& bytes.len() <= 0x400_0000
        &&& !is_exr(bytes)
        &&& !is_icon(bytes)
        &&& forall|i: int| !#[trigger] counts_every_frame(bytes, i)
        &&& forall|i: int| !#[trigger] is_very_wide(bytes, i)
    }
}

/// Width and height that the header of an encoded image gives, if its format is recognised by
/// its first bytes and the header can be read, on a machine with words of `word_bits` bits: the
/// result of [`read_header_dimensions`].
pub uninterp spec fn header_dimensions(bytes: Seq<u8>, word_bits: u32) -> Option<(u32, u32)>;

/// Width and height of an inline image; none if its header cannot be counted through.
pub open spec fn data_uri_dimensions(uri: Seq<char>) -> Option<(u32, u32)> {
    match inline_bytes(uri) {
        Some(bytes) => if is_countable(bytes, usize::BITS) {
            header_dimensions(bytes, usize::BITS)
        } else {
            None
        },
        None => None,
    }
}

/// Calls `base64::Engine::decode` of `base64::engine::general_purpose::STANDARD`, the engine for
/// the standard alphabet that requires canonical padding and no stray trailing bits. It decodes
/// exactly the texts that are the encoding of some bytes, and gives back these bytes.
#[verifier::external_body]
fn decode_base64(text: &str) -> (bytes: Option<Vec<u8>>)
    ensures
        match bytes {
            Some(b) => base64_text(b@) == text@,
            None => forall|b: Seq<u8>| #[trigger] base64_text(b) != text@,
        },
{
    base64::Engine::decode(&base64::engine::general_purpose::STANDARD, text).ok()
}

/// Calls `image::ImageReader::into_dimensions` on the bytes, after `with_guessed_format` has told
/// the format from the first of them. What it reads depends on the bytes and, since the readers of
/// some formats count sizes in machine words, on how long these are; no more is claimed of it.
/// Bytes on which a reader's counters overflow are left out.
#[verifier::external_body]
fn read_header_dimensions(bytes: Vec<u8>) -> (dimensions: Option<(u32, u32)>)
    requires
        is_countable(bytes@, usize::BITS),
    ensures
        dimensions == header_dimensions(bytes@, usize::BITS),
{
    let reader = image::ImageReader::new(std::io::Cursor::new(bytes));
    reader.with_guessed_format().ok()?.into_dimensions().ok()
}

/// The characters of the scheme, one by one.
fn scheme_char(i: usize) -> (c: char)
    requires
        i < 5,
    ensures
        c == data_scheme()[i as int],
{
    if i == 0 {
        'd'
    } else if i == 1 {
        'a'
    } else if i == 2 {
        't'
    } else if i == 3 {
        'a'
    } else {
        ':'
    }
}

/// The payload of a `data:` URI.
pub fn data_uri_payload(uri: &str) -> (payload: Option<&str>)
    ensures
        payload_of(uri@) == (match payload {
            Some(p) => Some(p@),
            None => None,
        }),
{
    let len: usize = uri.unicode_len();
    let mut seen: usize = 0;
    for c in it: uri.chars()
        invariant
            it.seq() == uri@,
            len == uri@.len(),
            seen == it.index(),
            forall|i: int| 0 <= i < 5 && i < seen ==> uri@[i] == data_scheme()[i],
            seen >= 5 ==> after_comma(uri@.skip(5)) == after_comma(uri@.skip(seen as int)),
    {
        if seen < 5 {
            if c != scheme_char(seen) {
                return None;
            }
        } else {
            proof {
                assert(uri@.skip(seen as int).skip(1) =~= uri@.skip(seen + 1));
                assert(uri@.skip(seen as int)[0] == c);
            }
            if c == ',' {
                assert(data_scheme().is_prefix_of(uri@));
                assert(uri@.subrange(seen + 1, len as int) =~= uri@.skip(seen + 1));
                return Some(uri.substring_char(seen + 1, len));
            }
        }
        seen = seen + 1;
    }
    None
}

/// Different numbers of six bits have different symbols, none of them the padding.
proof fn lemma_symbol_injective(i: nat, j: nat)
    requires
        i < 64,
        j < 64,
        symbol(i) == symbol(j),
    ensures
        i == j,
{
}

/// The symbols of a group tell the group.
proof fn lemma_digits(n: nat, m: nat)
    requires
        n < 0x100_0000,
        m < 0x100_0000,
        n / 0x4_0000 == m / 0x4_0000,
        n / 0x1000 % 64 == m / 0x1000 % 64,
        n / 64 % 64 == m / 64 % 64,
        n % 64 == m % 64,
    ensures
        n == m,
{
}

/// The first four symbols tell how many bytes they hold, and these bytes.
proof fn lemma_quad_injective(a: Seq<u8>, b: Seq<u8>)
    requires
        a.len() > 0,
        b.len() > 0,
        quad(a) == quad(b),
    ensures
        group_len(a) == group_len(b),
        a.take(group_len(a)) == b.take(group_len(b)),
{
    let (n, m) = (group(a), group(b));
    assert(quad(a)[0] == quad(b)[0]);
    assert(quad(a)[1] == quad(b)[1]);
    assert(quad(a)[2] == quad(b)[2]);
    assert(quad(a)[3] == quad(b)[3]);
    lemma_symbol_injective(n / 0x4_0000, m / 0x4_0000);
    lemma_symbol_injective(n / 0x1000 % 64, m / 0x1000 % 64);
    assert(a.len() < 2 <==> b.len() < 2);
    assert(a.len() < 3 <==> b.len() < 3);
    if a.len() >= 2 {
        lemma_symbol_injective(n / 64 % 64, m / 64 % 64);
    }
    if a.len() >= 3 {
        lemma_symbol_injective(n % 64, m % 64);
    }
    lemma_digits(n, m);
    assert(byte_or_zero(a, 0) == byte_or_zero(b, 0));
    assert(byte_or_zero(a, 1) == byte_or_zero(b, 1));
    assert(byte_or_zero(a, 2) == byte_or_zero(b, 2));
    assert(a.take(group_len(a)) =~= b.take(group_len(b)));
}

/// Every text is the encoding of at most one sequence of bytes.
pub proof fn lemma_base64_injective(a: Seq<u8>, b: Seq<u8>)
    requires
        base64_text(a) == base64_text(b),
    ensures
        a == b,
    decreases a.len(),
{
    if a.len() > 0 && b.len() > 0 {
        let (c, d) = (a.skip(group_len(a)), b.skip(group_len(b)));
        assert(base64_text(a).take(4) =~= quad(a));
        assert(base64_text(b).take(4) =~= quad(b));
        lemma_quad_injective(a, b);
        assert(base64_text(a).skip(4) =~= base64_text(c));
        assert(base64_text(b).skip(4) =~= base64_text(d));
        lemma_base64_injective(c, d);
        assert(a =~= a.take(group_len(a)) + c);
        assert(b =~= b.take(group_len(b)) + d);
    } else {
        assert(base64_text(a).len() == 0 <==> a.len() == 0);
        assert(base64_text(b).len() == 0 <==> b.len() == 0);
        assert(a =~= b);
    }
}

/// The bytes of an image that a `data:` URI holds inline; `None` for any other URI, an empty
/// payload and one that is not base64.
pub fn data_uri_bytes(uri: &str) -> (bytes: Option<Vec<u8>>)
    ensures
        inline_bytes(uri@) == (match bytes {
            Some(b) => Some(b@),
            None => None,
        }),
{
    let payload = match data_uri_payload(uri) {
        Some(payload) => payload,
        None => {
            return None;
        },
    };
    if payload.is_empty() {
        return None;
    }
    match decode_base64(payload) {
        Some(bytes) => {
            proof {
                let other = choose|b: Seq<u8>| base64_text(b) == payload@;
                lemma_base64_injective(bytes@, other);
            }
            Some(bytes)
        },
        None => None,
    }
}

/// Whether the header readers can count through the bytes, with machine words of `word_bits` bits.
pub fn can_count(bytes: &Vec<u8>, word_bits: u32) -> (can: bool)
    ensures
        can == is_countable(bytes@, word_bits),
{
    let len: usize = bytes.len();
    if len > 0x7fff_ffff {
        return false;
    }
    if word_bits >= 64 {
        return true;
    }
    if len > 0x400_0000 {
        return false;
    }
    if len >= 4 && bytes[0] == 0x76 && bytes[1] == 0x2f && bytes[2] == 0x31 && bytes[3] == 0x01 {
        return false;
    }
    if len >= 4 && bytes[0] == 0 && bytes[1] == 0 && bytes[2] == 1 && bytes[3] == 0 {
        return false;
    }
    for i in 0..len
        invariant
            len == bytes@.len(),
            len <= 0x400_0000,
            word_bits < 64,
            forall|j: int| j < i ==> !#[trigger] counts_every_frame(bytes@, j),
            forall|j: int| j < i ==> !#[trigger] is_very_wide(bytes@, j),
    {
        if len - i >= 8 && bytes[i] == 0x61 && bytes[i + 1] == 0x63 && bytes[i + 2] == 0x54
            && bytes[i + 3] == 0x4c && bytes[i + 4] == 0xff && bytes[i + 5] == 0xff && bytes[i + 6]
            == 0xff && bytes[i + 7] == 0xff {
            assert(counts_every_frame(bytes@, i as int));
            return false;
        }
        if len - i >= 5 && bytes[i] == 0x49 && bytes[i + 1] == 0x48 && bytes[i + 2] == 0x44
            && bytes[i + 3] == 0x52 && bytes[i + 4] >= 0x20 {
            assert(is_very_wide(bytes@, i as int));
            return false;
        }
    }
    true
}

/// Parse `(width, height)` from a `data:` URI's inline base64 image header.
pub fn dimensions_from_data_uri(uri: &str) -> (dimensions: Option<(u32, u32)>)
    ensures
        dimensions == data_uri_dimensions(uri@),
{
    match data_uri_bytes(uri) {
        Some(bytes) => if can_count(&bytes, usize::BITS) {
            read_header_dimensions(bytes)
        } else {
            None
        },
        None => None,
    }
}

/// A URI with another scheme is not measured: it would take a fetch.
pub proof fn law_other_schemes_have_no_dimensions(uri: Seq<char>)
    requires
        !data_scheme().is_prefix_of(uri),
    ensures
        data_uri_dimensions(uri) is None,
{
}

/// What an inline image was encoded from is what its dimensions are read from, whatever media
/// type stands before the comma. On a machine with words of 64 bits nothing is asked of the bytes
/// but that 31 bits can count them.
pub proof fn law_inline_image_is_measured(media_type: Seq<char>, bytes: Seq<u8>)
    requires
        !media_type.contains(','),
        bytes.len() > 0,
        usize::BITS == 64 && bytes.len() <= 0x7fff_ffff || is_countable(bytes, usize::BITS),
    ensures
        ({
            let uri = seq!['d', 'a', 't', 'a', ':'] + media_type + seq![','] + base64_text(bytes);
            &&& inline_bytes(uri) == Some(bytes)
            &&& data_uri_dimensions(uri) == header_dimensions(bytes, usize::BITS)
            &&& usize::BITS == 64 ==> data_uri_dimensions(uri) == header_dimensions(bytes, 64)
        }),
{
    let text = base64_text(bytes);
    let uri = data_scheme() + media_type + seq![','] + text;
    law_payload_follows_the_first_comma(media_type, text);
    let other = choose|b: Seq<u8>| base64_text(b) == text;
    lemma_base64_injective(bytes, other);
}

/// The payload is all that follows the first comma behind the scheme.
pub proof fn law_payload_follows_the_first_comma(media_type: Seq<char>, payload: Seq<char>)
    requires
        !media_type.contains(','),
    ensures
        payload_of(seq!['d', 'a', 't', 'a', ':'] + media_type + seq![','] + payload) == Some(
            payload,
        ),
{
    let uri = data_scheme() + media_type + seq![','] + payload;
    assert(data_scheme().is_prefix_of(uri));
    assert(uri.skip(5) =~= media_type + seq![','] + payload);
    lemma_after_comma(media_type, payload);
}

/// Only a URI with the scheme and a comma behind it has a payload.
pub proof fn law_payload_needs_scheme_and_comma(uri: Seq<char>)
    requires
        payload_of(uri) is Some,
    ensures
        exists|media_type: Seq<char>|
            {
                &&& !media_type.contains(',')
                &&& uri == seq!['d', 'a', 't', 'a', ':'] + #[trigger] (media_type + seq![','])
                    + payload_of(uri)->0
            },
{
    let rest = uri.skip(5);
    let before = lemma_before_comma(rest);
    let payload = payload_of(uri)->0;
    assert(uri =~= data_scheme() + rest);
    assert(uri =~= seq!['d', 'a', 't', 'a', ':'] + (before + seq![',']) + payload);
}

/// What stands before the first comma, where there is one.
proof fn lemma_before_comma(text: Seq<char>) -> (before: Seq<char>)
    requires
        after_comma(text) is Some,
    ensures
        !before.contains(','),
        text == before + seq![','] + after_comma(text)->0,
    decreases text.len(),
{
    if text[0] == ',' {
        let before = Seq::<char>::empty();
        assert(text =~= before + seq![','] + text.skip(1));
        before
    } else {
        let tail = lemma_before_comma(text.skip(1));
        let before = seq![text[0]] + tail;
        let rest = after_comma(text)->0;
        assert(text =~= seq![text[0]] + text.skip(1));
        assert(text =~= before + seq![','] + rest) by {
            assert(text.skip(1) == tail + seq![','] + rest);
            assert(seq![text[0]] + (tail + seq![','] + rest) =~= before + seq![','] + rest);
        }
        assert(!before.contains(',')) by {
            if before.contains(',') {
                let i = choose|i: int| 0 <= i < before.len() && before[i] == ',';
                assert(i > 0);
                assert(tail[i - 1] == ',');
            }
        }
        before
    }
}

/// Dimensions come from the header of a nonempty image that the URI holds inline, and from nothing
/// else.
pub proof fn law_only_inline_images_are_measured(uri: Seq<char>)
    ensures
        inline_bytes(uri) matches Some(bytes) ==> {
            &&& bytes.len() > 0
            &&& exists|media_type: Seq<char>|
                {
                    &&& !media_type.contains(',')
                    &&& uri == seq!['d', 'a', 't', 'a', ':'] + #[trigger] (media_type + seq![','])
                        + base64_text(bytes)
                }
        },
        data_uri_dimensions(uri) is Some ==> exists|media_type: Seq<char>, bytes: Seq<u8>|
            {
                &&& !media_type.contains(',')
                &&& bytes.len() > 0
                &&& uri == seq!['d', 'a', 't', 'a', ':'] + #[trigger] (media_type + seq![','])
                    + #[trigger] base64_text(bytes)
                &&& data_uri_dimensions(uri) == header_dimensions(bytes, usize::BITS)
            },
{
    if let Some(bytes) = inline_bytes(uri) {
        law_payload_needs_scheme_and_comma(uri);
        let payload = payload_of(uri)->0;
        assert(base64_text(bytes) == payload);
        let media_type = choose|media_type: Seq<char>|
            {
                &&& !media_type.contains(',')
                &&& uri == seq!['d', 'a', 't', 'a', ':'] + #[trigger] (media_type + seq![','])
                    + payload
            };
        assert(uri == seq!['d', 'a', 't', 'a', ':'] + (media_type + seq![',']) + base64_text(
            bytes,
        ));
    }
}

/// With words of 64 bits every image of at most `2^31 - 1` bytes can be counted through, whatever
/// its bytes are, and no longer one.
pub proof fn law_long_words_count_everything(bytes: Seq<u8>, word_bits: u32)
    requires
        word_bits >= 64,
    ensures
        is_countable(bytes, word_bits) <==> bytes.len() <= 0x7fff_ffff,
{
}

/// With shorter words exactly these are left out: more than `2^26` bytes, OpenEXR images, icons, an
/// `acTL` with all bits of its count set, and an `IHDR` with one of the three high bits of its
/// width set.
pub proof fn law_short_words_leave_out_little(bytes: Seq<u8>, word_bits: u32)
    requires
        word_bits < 64,
    ensures
        is_countable(bytes, word_bits) <==> {
            &&& bytes.len() <= 0x400_0000
            &&& !seq![0x76u8, 0x2f, 0x31, 0x01].is_prefix_of(bytes)
            &&& !seq![0u8, 0, 1, 0].is_prefix_of(bytes)
            &&& forall|i: int|
                0 <= i <= bytes.len() - 8 ==> #[trigger] bytes.subrange(i, i + 8) != seq![
                    0x61u8,
                    0x63,
                    0x54,
                    0x4c,
                    0xff,
                    0xff,
                    0xff,
                    0xff,
                ]
            &&& forall|i: int|
                0 <= i <= bytes.len() - 5 ==> !(#[trigger] bytes.subrange(i, i + 4) == seq![
                    0x49u8,
                    0x48,
                    0x44,
                    0x52,
                ] && bytes[i + 4] >= 32)
        },
{
    let exr = seq![0x76u8, 0x2f, 0x31, 0x01];
    let icon = seq![0u8, 0, 1, 0];
    let frames = seq![0x61u8, 0x63, 0x54, 0x4c, 0xff, 0xff, 0xff, 0xff];
    let head = seq![0x49u8, 0x48, 0x44, 0x52];
    assert(exr.is_prefix_of(bytes) <==> is_exr(bytes)) by {
        if is_exr(bytes) {
            assert(bytes.subrange(0, 4) =~= exr);
        }
        if exr.is_prefix_of(bytes) {
            assert(exr[0] == bytes[0] && exr[1] == bytes[1] && exr[2] == bytes[2] && exr[3]
                == bytes[3]);
        }
    }
    assert(icon.is_prefix_of(bytes) <==> is_icon(bytes)) by {
        if is_icon(bytes) {
            assert(bytes.subrange(0, 4) =~= icon);
        }
        if icon.is_prefix_of(bytes) {
            assert(icon[0] == bytes[0] && icon[1] == bytes[1] && icon[2] == bytes[2] && icon[3]
                == bytes[3]);
        }
    }
    assert forall|i: int| 0 <= i <= bytes.len() - 8 implies (#[trigger] bytes.subrange(i, i + 8)
        == frames) == counts_every_frame(bytes, i) by {
        let part = bytes.subrange(i, i + 8);
        if part == frames {
            assert(part[0] == 0x61 && part[1] == 0x63 && part[2] == 0x54 && part[3] == 0x4c
                && part[4] == 0xff && part[5] == 0xff && part[6] == 0xff && part[7] == 0xff);
        }
        if counts_every_frame(bytes, i) {
            assert(part =~= frames);
        }
    }
    assert forall|i: int| 0 <= i <= bytes.len() - 5 implies (#[trigger] bytes.subrange(i, i + 4)
        == head && bytes[i + 4] >= 32) == is_very_wide(bytes, i) by {
        let part = bytes.subrange(i, i + 4);
        if part == head {
            assert(part[0] == 0x49 && part[1] == 0x48 && part[2] == 0x44 && part[3] == 0x52);
        }
        if is_very_wide(bytes, i) {
            assert(part =~= head);
        }
    }
    if is_countable(bytes, word_bits) {
    } else if bytes.len() <= 0x400_0000 && !is_exr(bytes) && !is_icon(bytes) {
        if exists|i: int| counts_every_frame(bytes, i) {
            let i = choose|i: int| counts_every_frame(bytes, i);
            assert(bytes.subrange(i, i + 8) == frames);
        } else {
            let i = choose|i: int| is_very_wide(bytes, i);
            assert(bytes.subrange(i, i + 4) == head);
        }
    }
}

/// Three bytes make four symbols of six bits each, the high bits first, and what follows them is
/// encoded by itself.
pub proof fn law_three_bytes_make_four_symbols(a: u8, b: u8, c: u8, rest: Seq<u8>)
    ensures
        base64_text(seq![a, b, c] + rest) == seq![
            symbol(a as nat / 4),
            symbol((a as nat % 4) * 16 + b as nat / 16),
            symbol((b as nat % 16) * 4 + c as nat / 64),
            symbol(c as nat % 64),
        ] + base64_text(rest),
{
    let bytes = seq![a, b, c] + rest;
    assert(bytes.skip(3) =~= rest);
    assert(bytes[0] == a && bytes[1] == b && bytes[2] == c);
    lemma_six_bits_each(a as nat, b as nat, c as nat);
}

/// The symbols of a group, from its bytes.
proof fn lemma_six_bits_each(a: nat, b: nat, c: nat)
    requires
        a < 256,
        b < 256,
        c < 256,
    ensures
        ({
            let n = a * 0x1_0000 + b * 0x100 + c;
            &&& n / 0x4_0000 == a / 4
            &&& n / 0x1000 % 64 == (a % 4) * 16 + b / 16
            &&& n / 64 % 64 == (b % 16) * 4 + c / 64
            &&& n % 64 == c % 64
        }),
{
    let n = a * 0x1_0000 + b * 0x100 + c;
    let (a1, a0, b1, b0, c1, c0) = (a / 4, a % 4, b / 16, b % 16, c / 64, c % 64);
    assert(a == 4 * a1 + a0 && b == 16 * b1 + b0 && c == 64 * c1 + c0);
    assert(n == 0x4_0000 * a1 + 0x1000 * (16 * a0 + b1) + 64 * (4 * b0 + c1) + c0);
    assert(n / 0x4_0000 == a1);
    assert(n / 0x1000 == 64 * a1 + (16 * a0 + b1));
    assert(n / 64 == 64 * (64 * a1 + (16 * a0 + b1)) + (4 * b0 + c1));
}

/// One or two bytes at the end are filled up with zero bits to a whole symbol, and with padding to
/// four.
pub proof fn law_last_bytes_are_padded(a: u8, b: u8)
    ensures
        base64_text(seq![a, b]) == seq![
            symbol(a as nat / 4),
            symbol((a as nat % 4) * 16 + b as nat / 16),
            symbol((b as nat % 16) * 4),
            '=',
        ],
        base64_text(seq![a]) == seq![symbol(a as nat / 4), symbol((a as nat % 4) * 16), '=', '='],
        base64_text(Seq::empty()) == Seq::<char>::empty(),
{
    let two = seq![a, b];
    let one = seq![a];
    assert(two.skip(2) =~= Seq::empty());
    assert(one.skip(1) =~= Seq::empty());
    assert(base64_text(Seq::empty()) =~= Seq::<char>::empty());
    lemma_six_bits_each(a as nat, b as nat, 0);
    lemma_six_bits_each(a as nat, 0, 0);
    assert(base64_text(two) =~= quad(two));
    assert(base64_text(one) =~= quad(one));
}

/// The symbols, by their ASCII codes: capital letters, small letters, digits, plus and slash.
pub proof fn law_alphabet(i: nat)
    requires
        i < 64,
    ensures
        symbol(i) as nat == if i < 26 {
            i + 65
        } else if i < 52 {
            i + 71
        } else if i < 62 {
            (i - 4) as nat
        } else if i == 62 {
            43
        } else {
            47
        },
{
}

/// The first comma is the one that follows a text without commas.
proof fn lemma_after_comma(before: Seq<char>, rest: Seq<char>)
    requires
        !before.contains(','),
    ensures
        after_comma(before + seq![','] + rest) == Some(rest),
    decreases before.len(),
{
    let text = before + seq![','] + rest;
    if before.len() == 0 {
        assert(text.skip(1) =~= rest);
    } else {
        assert(before[0] != ',');
        assert(!before.skip(1).contains(',')) by {
            if before.skip(1).contains(',') {
                let i = choose|i: int| 0 <= i < before.skip(1).len() && before.skip(1)[i] == ',';
                assert(before[i + 1] == ',');
            }
        }
        lemma_after_comma(before.skip(1), rest);
        assert(text.skip(1) =~= before.skip(1) + seq![','] + rest);
    }
}

} // verus!
