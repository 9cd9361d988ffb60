//! Token-weighted prefill load estimation.
//!
//! The router weighs each in-flight request by its input sequence length so a worker holding
//! long or multimodal prompts counts as more loaded than one holding several short prompts. For a
//! multimodal request the dominant cost is the image tokens, but the language model only sees
//! those after the vision processor has expanded each image placeholder. Running that processor
//! at the router would be expensive, so the expanded token count is estimated from the image's
//! pixel dimensions.
//!
//! Only `data:` URIs and already decoded descriptors are measured; another URL would require a
//! network fetch, and such an image contributes only its placeholder token.

use crate::config;
use crate::config::MmPrefillTokenConfig;
use crate::data_uri;
use crate::request::{MultimodalData, PreprocessedRequest};
use crate::resize;
use vstd::prelude::*;

verus! {

/// The low 32 bits of a number.
pub open spec fn low_bits(x: usize) -> u32 {
    (x as nat % 0x1_0000_0000) as u32
}

/// Width and height of an item, if cheaply available: those of the descriptor, or those that the
/// header of an inline image gives.
pub open spec fn item_dimensions(item: MultimodalData) -> Option<(u32, u32)> {
    match item {
        MultimodalData::Decoded(desc) => match desc.height_width {
            Some((h, w)) => Some((low_bits(w), low_bits(h))),
            None => None,
        },
        MultimodalData::Url(url) => data_uri::data_uri_dimensions(url@),
        MultimodalData::RawUrl(url) => data_uri::data_uri_dimensions(url@),
    }
}

/// Width and height of each item.
pub open spec fn measured(items: Seq<MultimodalData>) -> Seq<Option<(u32, u32)>> {
    items.map_values(|item: MultimodalData| item_dimensions(item))
}

/// Tokens of one image; none if its dimensions are not known.
pub open spec fn image_tokens(dimensions: Option<(u32, u32)>, cfg: MmPrefillTokenConfig) -> nat {
    match dimensions {
        Some((width, height)) => resize::estimated_tokens(width as nat, height as nat, cfg),
        None => 0,
    }
}

/// Tokens of all images.
pub open spec fn total_tokens(
    dimensions: Seq<Option<(u32, u32)>>,
    cfg: MmPrefillTokenConfig,
) -> nat
    decreases dimensions.len(),
{
    if dimensions.len() == 0 {
        0
    } else {
        total_tokens(dimensions.drop_last(), cfg) + image_tokens(dimensions.last(), cfg)
    }
}

/// The text tokens and the tokens of all images add up to a number of 64 bits.
pub open spec fn sum_fits(
    text_tokens: nat,
    dimensions: Seq<Option<(u32, u32)>>,
    cfg: MmPrefillTokenConfig,
) -> bool {
    text_tokens + total_tokens(dimensions, cfg) <= u64::MAX
}

/// The weight of a request: the length of its expanded sequence if it has one, else its text
/// tokens and the tokens of its images.
pub open spec fn request_weight(request: PreprocessedRequest, cfg: MmPrefillTokenConfig) -> nat {
    match request.expanded_sequence() {
        Some(ids) => ids.len(),
        None => request.token_ids@.len() + total_tokens(measured(request.images()), cfg),
    }
}

/// The weight has 64 bits.
pub open spec fn weight_fits(request: PreprocessedRequest, cfg: MmPrefillTokenConfig) -> bool {
    request.expanded_sequence() is Some || sum_fits(
        request.token_ids@.len(),
        measured(request.images()),
        cfg,
    )
}

/// Clamps up to `2^48` px, up to 4096 images and fewer than `2^63` text tokens. Such a request has
/// a weight of 64 bits, whatever its images are.
pub open spec fn is_moderate(request: PreprocessedRequest, cfg: MmPrefillTokenConfig) -> bool {
    &&& cfg.min_pixels <= 0x1_0000_0000_0000
    &&& cfg.max_pixels <= 0x1_0000_0000_0000
    &&& request.images().len() <= 4096
    &&& request.token_ids@.len() < 0x8000_0000_0000_0000
}

/// `(width, height)` of a multimodal image item, if cheaply available.
///
/// `Decoded` descriptors carry the shape directly. `data:` URIs are base64
/// decoded and their header parsed (header only, no full pixel decode).
/// `http(s)` URLs return `None`; we deliberately avoid a network fetch on the
/// routing hot path.
pub fn image_dimensions(item: &MultimodalData) -> (dimensions: Option<(u32, u32)>)
    ensures
        dimensions == item_dimensions(*item),
{
    match item {
        MultimodalData::Decoded(desc) => match desc.image_height_width() {
            Some((h, w)) => Some((config::low_u32(w as u64), config::low_u32(h as u64))),
            None => None,
        },
        MultimodalData::Url(url) => data_uri::dimensions_from_data_uri(url.as_str()),
        MultimodalData::RawUrl(url) => data_uri::dimensions_from_data_uri(url.as_str()),
    }
}

/// The dimensions of a request's images, in order.
pub fn measure_images(request: &PreprocessedRequest) -> (dimensions: Vec<Option<(u32, u32)>>)
    ensures
        dimensions@ == measured(request.images()),
{
    let mut dimensions: Vec<Option<(u32, u32)>> = Vec::new();
    if let Some(mm) = &request.multi_modal_data {
        if let Some(images) = mm.get("image_url") {
            for i in 0..images.len()
                invariant
                    images@ == request.images(),
                    dimensions@ == measured(request.images()).take(i as int),
            {
                dimensions.push(image_dimensions(&images[i]));
                assert(measured(request.images()).take(i + 1) =~= measured(request.images()).take(
                    i as int,
                ).push(item_dimensions(images@[i as int])));
            }
            assert(measured(request.images()).take(images.len() as int) =~= measured(
                request.images(),
            ));
        }
    }
    assert(dimensions@ =~= measured(request.images()));
    dimensions
}

/// A sum of fewer images is no larger.
proof fn lemma_total_grows(
    dimensions: Seq<Option<(u32, u32)>>,
    cfg: MmPrefillTokenConfig,
    n: int,
)
    requires
        0 <= n <= dimensions.len(),
    ensures
        total_tokens(dimensions.take(n), cfg) <= total_tokens(dimensions, cfg),
    decreases dimensions.len() - n,
{
    if n == dimensions.len() {
        assert(dimensions.take(n) =~= dimensions);
    } else {
        let longer = dimensions.take(n + 1);
        assert(longer.drop_last() =~= dimensions.take(n));
        lemma_total_grows(dimensions, cfg, n + 1);
    }
}

/// Text tokens plus the token estimate of each image whose dimensions are known.
pub fn weigh(
    text_tokens: u64,
    dimensions: &Vec<Option<(u32, u32)>>,
    cfg: &MmPrefillTokenConfig,
) -> (weight: u64)
    requires
        sum_fits(text_tokens as nat, dimensions@, *cfg),
    ensures
        weight == text_tokens + total_tokens(dimensions@, *cfg),
{
    let mut weight: u64 = text_tokens;
    assert(dimensions@.take(0) =~= Seq::empty());
    for i in 0..dimensions.len()
        invariant
            sum_fits(text_tokens as nat, dimensions@, *cfg),
            weight == text_tokens + total_tokens(dimensions@.take(i as int), *cfg),
    {
        proof {
            assert(dimensions@.take(i + 1).drop_last() =~= dimensions@.take(i as int));
            assert(dimensions@.take(i + 1).last() == dimensions@[i as int]);
            lemma_total_grows(dimensions@, *cfg, i + 1);
        }
        if let Some((width, height)) = dimensions[i] {
            weight = weight + resize::estimate_image_tokens(width, height, cfg);
        }
    }
    assert(dimensions@.take(dimensions@.len() as int) =~= dimensions@);
    weight
}

/// [`weigh`], or `None` where the sum overflows.
pub fn checked_weigh(
    text_tokens: u64,
    dimensions: &Vec<Option<(u32, u32)>>,
    cfg: &MmPrefillTokenConfig,
) -> (weight: Option<u64>)
    ensures
        weight is Some <==> sum_fits(text_tokens as nat, dimensions@, *cfg),
        weight matches Some(w) ==> w == text_tokens + total_tokens(dimensions@, *cfg),
{
    let mut weight: u64 = text_tokens;
    assert(dimensions@.take(0) =~= Seq::empty());
    for i in 0..dimensions.len()
        invariant
            weight == text_tokens + total_tokens(dimensions@.take(i as int), *cfg),
    {
        proof {
            assert(dimensions@.take(i + 1).drop_last() =~= dimensions@.take(i as int));
            assert(dimensions@.take(i + 1).last() == dimensions@[i as int]);
            lemma_total_grows(dimensions@, *cfg, i + 1);
        }
        if let Some((width, height)) = dimensions[i] {
            let tokens: u64 = match resize::checked_image_tokens(width, height, cfg) {
                Some(tokens) => tokens,
                None => {
                    return None;
                },
            };
            weight = match weight.checked_add(tokens) {
                Some(sum) => sum,
                None => {
                    return None;
                },
            };
        }
    }
    assert(dimensions@.take(dimensions@.len() as int) =~= dimensions@);
    Some(weight)
}

/// Total prefill weight (input-token load) for a request.
///
/// - When an MM-expanded routing sequence is already attached (e.g. set by a
///   dedicated MM router worker), its length is authoritative and used as-is:
///   it already accounts for the multimodal tokens, so we do not re-estimate.
/// - Otherwise: the text `token_ids` length plus a pixel-derived estimate of the
///   expanded tokens for each inline/decoded image. The unexpanded placeholder
///   already in `token_ids` (one per image) leaves the estimate high by at most
///   one token per image, negligible against hundreds/thousands of image tokens.
pub fn prefill_token_weight(request: &PreprocessedRequest, cfg: &MmPrefillTokenConfig) -> (weight:
    u64)
    requires
        is_moderate(*request, *cfg) || weight_fits(*request, *cfg),
    ensures
        weight == request_weight(*request, *cfg),
{
    proof {
        if is_moderate(*request, *cfg) {
            law_moderate_requests_fit(*request, *cfg);
        }
    }
    if let Some(mm) = &request.mm_routing_info {
        if !mm.routing_token_ids.is_empty() {
            return mm.routing_token_ids.len() as u64;
        }
    }
    let dimensions = measure_images(request);
    weigh(request.token_ids.len() as u64, &dimensions, cfg)
}

/// Whether a request is moderate.
fn moderate(request: &PreprocessedRequest, cfg: &MmPrefillTokenConfig) -> (m: bool)
    ensures
        m == is_moderate(*request, *cfg),
{
    let count: usize = match &request.multi_modal_data {
        Some(mm) => match mm.get("image_url") {
            Some(images) => images.len(),
            None => 0,
        },
        None => 0,
    };
    cfg.min_pixels <= 0x1_0000_0000_0000 && cfg.max_pixels <= 0x1_0000_0000_0000 && count <= 4096
        && (request.token_ids.len() as u64) < 0x8000_0000_0000_0000
}

/// [`prefill_token_weight`], or `None` where the weight of the images overflows.
pub fn checked_prefill_token_weight(
    request: &PreprocessedRequest,
    cfg: &MmPrefillTokenConfig,
) -> (weight: Option<u64>)
    ensures
        weight is Some <==> weight_fits(*request, *cfg),
        weight matches Some(w) ==> w == request_weight(*request, *cfg),
{
    if let Some(mm) = &request.mm_routing_info {
        if !mm.routing_token_ids.is_empty() {
            return Some(prefill_token_weight(request, cfg));
        }
    }
    if moderate(request, cfg) {
        proof {
            law_moderate_requests_fit(*request, *cfg);
        }
        return Some(prefill_token_weight(request, cfg));
    }
    let dimensions = measure_images(request);
    checked_weigh(request.token_ids.len() as u64, &dimensions, cfg)
}

/// Moderate requests never overflow.
pub proof fn law_moderate_requests_fit(request: PreprocessedRequest, cfg: MmPrefillTokenConfig)
    requires
        cfg.min_pixels <= 0x1_0000_0000_0000,
        cfg.max_pixels <= 0x1_0000_0000_0000,
        request.images().len() <= 4096,
        request.token_ids@.len() < 0x8000_0000_0000_0000,
    ensures
        is_moderate(request, cfg),
        weight_fits(request, cfg),
{
    lemma_moderate_total(measured(request.images()), cfg);
}

/// Each image of a moderate request adds at most `2^51` tokens.
proof fn lemma_moderate_total(dimensions: Seq<Option<(u32, u32)>>, cfg: MmPrefillTokenConfig)
    requires
        cfg.min_pixels <= 0x1_0000_0000_0000,
        cfg.max_pixels <= 0x1_0000_0000_0000,
    ensures
        total_tokens(dimensions, cfg) <= 0x8_0000_0000_0000 * dimensions.len(),
    decreases dimensions.len(),
{
    if dimensions.len() > 0 {
        lemma_moderate_total(dimensions.drop_last(), cfg);
        if let Some((width, height)) = dimensions.last() {
            resize::law_moderate_tokens(width as nat, height as nat, cfg);
        }
    }
}

/// An expanded routing sequence is authoritative: its length is the weight, whatever else the
/// request holds and whatever the configuration.
pub proof fn law_expanded_sequence_takes_precedence(
    request: PreprocessedRequest,
    cfg: MmPrefillTokenConfig,
)
    requires
        request.expanded_sequence() is Some,
    ensures
        weight_fits(request, cfg),
        request_weight(request, cfg) == request.expanded_sequence()->0.len(),
{
}

/// A request without an expanded sequence and without images weighs its text tokens.
pub proof fn law_text_only(request: PreprocessedRequest, cfg: MmPrefillTokenConfig)
    requires
        request.expanded_sequence() is None,
        request.images().len() == 0,
    ensures
        request_weight(request, cfg) == request.token_ids@.len(),
{
}

/// The tokens of images add up, so neither their order nor how they are grouped matters.
pub proof fn law_tokens_add_up(
    a: Seq<Option<(u32, u32)>>,
    b: Seq<Option<(u32, u32)>>,
    cfg: MmPrefillTokenConfig,
)
    ensures
        total_tokens(a + b, cfg) == total_tokens(a, cfg) + total_tokens(b, cfg),
        total_tokens(a + b, cfg) == total_tokens(b + a, cfg),
{
    lemma_total_of_concat(a, b, cfg);
    lemma_total_of_concat(b, a, cfg);
}

proof fn lemma_total_of_concat(
    a: Seq<Option<(u32, u32)>>,
    b: Seq<Option<(u32, u32)>>,
    cfg: MmPrefillTokenConfig,
)
    ensures
        total_tokens(a + b, cfg) == total_tokens(a, cfg) + total_tokens(b, cfg),
    decreases b.len(),
{
    if b.len() == 0 {
        assert(a + b =~= a);
    } else {
        assert((a + b).drop_last() =~= a + b.drop_last());
        lemma_total_of_concat(a, b.drop_last(), cfg);
    }
}

/// Each image adds its own estimate, which is at least one token if the image can be measured and
/// nothing if it cannot. With it the request is never lighter.
pub proof fn law_each_image_adds_its_estimate(
    items: Seq<MultimodalData>,
    item: MultimodalData,
    cfg: MmPrefillTokenConfig,
)
    ensures
        total_tokens(measured(items.push(item)), cfg) == total_tokens(measured(items), cfg)
            + image_tokens(item_dimensions(item), cfg),
        item_dimensions(item) is Some <==> image_tokens(item_dimensions(item), cfg) >= 1,
{
    let more = measured(items.push(item));
    assert(more.drop_last() =~= measured(items));
    assert(more.last() == item_dimensions(item));
    if let Some((width, height)) = item_dimensions(item) {
        resize::law_tokens_are_units(width as nat, height as nat, cfg);
    }
}

/// An image behind a URL of another scheme than `data:` contributes only its placeholder token.
pub proof fn law_remote_images_are_skipped(
    items: Seq<MultimodalData>,
    item: MultimodalData,
    cfg: MmPrefillTokenConfig,
)
    requires
        match item {
            MultimodalData::Url(url) => !data_uri::data_scheme().is_prefix_of(url@),
            MultimodalData::RawUrl(url) => !data_uri::data_scheme().is_prefix_of(url@),
            MultimodalData::Decoded(_) => false,
        },
    ensures
        item_dimensions(item) is None,
        total_tokens(measured(items.push(item)), cfg) == total_tokens(measured(items), cfg),
{
    let more = measured(items.push(item));
    assert(more.drop_last() =~= measured(items));
    assert(more.last() == item_dimensions(item));
}

/// How many images can be measured.
pub open spec fn measured_count(dimensions: Seq<Option<(u32, u32)>>) -> nat
    decreases dimensions.len(),
{
    if dimensions.len() == 0 {
        0
    } else {
        measured_count(dimensions.drop_last()) + if dimensions.last() is Some {
            1nat
        } else {
            0
        }
    }
}

/// The length of a prompt in which the placeholder of each measured image gives way to the
/// image's tokens.
pub open spec fn expanded_length(
    text_tokens: nat,
    dimensions: Seq<Option<(u32, u32)>>,
    cfg: MmPrefillTokenConfig,
) -> int
    decreases dimensions.len(),
{
    if dimensions.len() == 0 {
        text_tokens as int
    } else {
        expanded_length(text_tokens, dimensions.drop_last(), cfg) + match dimensions.last() {
            Some(_) => image_tokens(dimensions.last(), cfg) - 1,
            None => 0,
        }
    }
}

/// The unexpanded placeholders leave the weight high by one token for each measured image, and so
/// by at most one token per image.
pub proof fn law_high_by_at_most_one_per_image(
    text_tokens: nat,
    dimensions: Seq<Option<(u32, u32)>>,
    cfg: MmPrefillTokenConfig,
)
    ensures
        text_tokens + total_tokens(dimensions, cfg) == expanded_length(text_tokens, dimensions, cfg)
            + measured_count(dimensions),
        measured_count(dimensions) <= dimensions.len(),
    decreases dimensions.len(),
{
    if dimensions.len() > 0 {
        law_high_by_at_most_one_per_image(text_tokens, dimensions.drop_last(), cfg);
    }
}

/// The dimensions of a decoded item are its own, width first: exact below `2^32`, and the low 32
/// bits above. A descriptor that is no image has none.
pub proof fn law_decoded_items_keep_their_dimensions(
    item: MultimodalData,
    height: usize,
    width: usize,
)
    ensures
        item matches MultimodalData::Decoded(desc) ==> (desc.height_width is None
            ==> item_dimensions(item) is None),
        item matches MultimodalData::Decoded(desc) ==> (desc.height_width == Some((height, width))
            ==> item_dimensions(item) == Some(
            ((width as nat % 0x1_0000_0000) as u32, (height as nat % 0x1_0000_0000) as u32),
        )),
        item matches MultimodalData::Decoded(desc) ==> (desc.height_width == Some((height, width))
            && height < 0x1_0000_0000 && width < 0x1_0000_0000 ==> {
            &&& item_dimensions(item) matches Some(d)
            &&& d.0 == width
            &&& d.1 == height
        }),
{
}

/// A URL has the same dimensions whether it was parsed or not: those that the header of the image
/// gives which it holds inline.
pub proof fn law_inline_items_are_measured(
    item: MultimodalData,
    media_type: Seq<char>,
    bytes: Seq<u8>,
)
    requires
        !media_type.contains(','),
        0 < bytes.len() <= 0x7fff_ffff,
        usize::BITS == 64,
        match item {
            MultimodalData::Url(url) => url@ == seq!['d', 'a', 't', 'a', ':'] + media_type + seq![
                ',',
            ] + data_uri::base64_text(bytes),
            MultimodalData::RawUrl(url) => url@ == seq!['d', 'a', 't', 'a', ':'] + media_type
                + seq![','] + data_uri::base64_text(bytes),
            MultimodalData::Decoded(_) => false,
        },
    ensures
        item_dimensions(item) == data_uri::header_dimensions(bytes, 64),
{
    data_uri::law_inline_image_is_measured(media_type, bytes);
}

/// A URL that does not hold a nonempty image inline, in base64 behind the first comma, has no
/// dimensions.
pub proof fn law_only_inline_items_are_measured(item: MultimodalData, url: Seq<char>)
    requires
        match item {
            MultimodalData::Url(text) => text@ == url,
            MultimodalData::RawUrl(text) => text@ == url,
            MultimodalData::Decoded(_) => false,
        },
        item_dimensions(item) is Some,
    ensures
        exists|media_type: Seq<char>, bytes: Seq<u8>|
            {
                &&& !media_type.contains(',')
                &&& bytes.len() > 0
                &&& url == seq!['d', 'a', 't', 'a', ':'] + #[trigger] (media_type + seq![','])
                    + #[trigger] data_uri::base64_text(bytes)
                &&& item_dimensions(item) == data_uri::header_dimensions(bytes, usize::BITS)
            },
{
    data_uri::law_only_inline_images_are_measured(url);
}

/// Each image is measured by itself, in order.
pub proof fn law_images_are_measured_one_by_one(items: Seq<MultimodalData>)
    ensures
        measured(items).len() == items.len(),
        forall|i: int|
            0 <= i < items.len() ==> #[trigger] measured(items)[i] == item_dimensions(items[i]),
{
}

/// One measured image makes its estimate, one that cannot be measured nothing, and so do no images.
/// With [`law_tokens_add_up`], this gives the tokens of any images.
pub proof fn law_tokens_of_one_image(width: u32, height: u32, cfg: MmPrefillTokenConfig)
    ensures
        total_tokens(seq![Some((width, height))], cfg) == resize::estimated_tokens(
            width as nat,
            height as nat,
            cfg,
        ),
        total_tokens(seq![None::<(u32, u32)>], cfg) == 0,
        total_tokens(Seq::empty(), cfg) == 0,
{
    let one = seq![Some((width, height))];
    let none = seq![None::<(u32, u32)>];
    assert(one.drop_last() =~= Seq::empty());
    assert(none.drop_last() =~= Seq::empty());
    assert(total_tokens(one.drop_last(), cfg) == 0);
    assert(total_tokens(none.drop_last(), cfg) == 0);
}

/// A sum fits exactly if it has 64 bits.
pub proof fn law_sum_fits_in_64_bits(
    text_tokens: nat,
    dimensions: Seq<Option<(u32, u32)>>,
    cfg: MmPrefillTokenConfig,
)
    ensures
        sum_fits(text_tokens, dimensions, cfg) <==> text_tokens + total_tokens(dimensions, cfg)
            <= u64::MAX,
{
}

/// A weight fits exactly if it has 64 bits.
pub proof fn law_weight_fits_in_64_bits(request: PreprocessedRequest, cfg: MmPrefillTokenConfig)
    ensures
        weight_fits(request, cfg) <==> request_weight(request, cfg) <= u64::MAX,
{
    if let Some(mm) = request.mm_routing_info {
        assert(mm.routing_token_ids.len() == mm.routing_token_ids@.len());
    }
}

/// Every text token counts: without an expanded sequence, whatever images there are, what a request
/// weighs beyond their tokens is the length of its text.
pub proof fn law_every_text_token_counts(
    request: PreprocessedRequest,
    cfg: MmPrefillTokenConfig,
    images: Seq<MultimodalData>,
)
    requires
        request.mm_routing_info matches Some(mm) ==> mm.routing_token_ids@.len() == 0,
        match request.multi_modal_data {
            Some(mm) => if mm@.contains_key("image_url"@) {
                images == mm@["image_url"@]
            } else {
                images.len() == 0
            },
            None => images.len() == 0,
        },
    ensures
        request_weight(request, cfg) - total_tokens(measured(images), cfg)
            == request.token_ids@.len(),
{
    assert(request.images() =~= images);
}

/// One more text token makes a request heavier by exactly one, with or without images.
pub proof fn law_one_more_text_token(
    request: PreprocessedRequest,
    longer: PreprocessedRequest,
    cfg: MmPrefillTokenConfig,
)
    requires
        request.mm_routing_info matches Some(mm) ==> mm.routing_token_ids@.len() == 0,
        longer.mm_routing_info matches Some(mm) ==> mm.routing_token_ids@.len() == 0,
        longer.multi_modal_data == request.multi_modal_data,
        longer.token_ids@.len() == request.token_ids@.len() + 1,
    ensures
        request_weight(longer, cfg) == request_weight(request, cfg) + 1,
{
    assert(longer.images() == request.images());
}

/// One more image makes a request heavier by that image's estimate, or by nothing if it cannot be
/// measured, however many images there are already.
pub proof fn law_one_more_image(
    request: PreprocessedRequest,
    larger: PreprocessedRequest,
    item: MultimodalData,
    cfg: MmPrefillTokenConfig,
)
    requires
        request.mm_routing_info matches Some(mm) ==> mm.routing_token_ids@.len() == 0,
        larger.mm_routing_info matches Some(mm) ==> mm.routing_token_ids@.len() == 0,
        larger.token_ids@.len() == request.token_ids@.len(),
        larger.multi_modal_data matches Some(mm) && mm@.contains_key("image_url"@)
            && mm@["image_url"@] == (match request.multi_modal_data {
            Some(before) => if before@.contains_key("image_url"@) {
                before@["image_url"@].push(item)
            } else {
                seq![item]
            },
            None => seq![item],
        }),
    ensures
        request_weight(larger, cfg) == request_weight(request, cfg) + match item_dimensions(item) {
            Some((width, height)) => resize::estimated_tokens(width as nat, height as nat, cfg),
            None => 0,
        },
{
    assert(larger.images() =~= request.images().push(item));
    law_each_image_adds_its_estimate(request.images(), item, cfg);
}

/// Where a nonempty routing sequence is attached, only its length counts.
pub proof fn law_only_the_expanded_sequence_counts(
    request: PreprocessedRequest,
    cfg: MmPrefillTokenConfig,
)
    requires
        request.mm_routing_info matches Some(mm) && mm.routing_token_ids@.len() > 0,
    ensures
        request_weight(request, cfg) == request.mm_routing_info->0.routing_token_ids@.len(),
{
}

} // verus!
