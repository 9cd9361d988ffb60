use std::io::Cursor;

use base64::{engine::general_purpose, Engine as _};
use image::{ImageFormat, RgbImage};
use prefill_router::config::MmPrefillTokenConfig;
use prefill_router::data_uri::dimensions_from_data_uri;
use prefill_router::request::{
    MediaDescriptor, MmRoutingInfo, MultimodalData, MultimodalDataMap, PreprocessedRequest,
};
use prefill_router::resize::estimate_image_tokens;
use prefill_router::weight::{
    checked_prefill_token_weight, checked_weigh, image_dimensions, measure_images,
    prefill_token_weight, weigh,
};

const QWEN3VL: MmPrefillTokenConfig = MmPrefillTokenConfig {
    patch_size: 16,
    merge_size: 2,
    min_pixels: 65_536,
    max_pixels: 16_777_216,
};

fn encoded(width: u32, height: u32, format: ImageFormat) -> Vec<u8> {
    let img = RgbImage::new(width, height);
    let mut buf = Cursor::new(Vec::new());
    img.write_to(&mut buf, format).unwrap();
    buf.into_inner()
}

fn png_data_uri(width: u32, height: u32) -> String {
    let b64 = general_purpose::STANDARD.encode(encoded(width, height, ImageFormat::Png));
    format!("data:image/png;base64,{b64}")
}

fn text_request(tokens: usize) -> PreprocessedRequest {
    PreprocessedRequest {
        token_ids: vec![1; tokens],
        multi_modal_data: None,
        mm_routing_info: None,
    }
}

fn image_request(tokens: usize, images: Vec<MultimodalData>) -> PreprocessedRequest {
    let mut mm = MultimodalDataMap::new();
    mm.insert("image_url".to_string(), images);
    PreprocessedRequest {
        token_ids: vec![1; tokens],
        multi_modal_data: Some(mm),
        mm_routing_info: None,
    }
}

fn decoded(height: usize, width: usize) -> MultimodalData {
    MultimodalData::Decoded(MediaDescriptor {
        height_width: Some((height, width)),
    })
}

#[test]
fn tokens_for_aligned_image_no_clamp() {
    // 1024x1024 is already a multiple of factor (32) and within [min,max] px.
    // tokens = 1024*1024 / 32^2 = 1024.
    assert_eq!(estimate_image_tokens(1024, 1024, &QWEN3VL), 1024);
    // 1280x768 -> 1280*768 / 1024 = 960.
    assert_eq!(estimate_image_tokens(1280, 768, &QWEN3VL), 960);
}

#[test]
fn rounds_each_side_to_factor() {
    // 1000x1000 rounds to 992x992 (round(1000/32)=31 -> 992).
    // tokens = 992*992 / 1024 = 961.
    assert_eq!(estimate_image_tokens(1000, 1000, &QWEN3VL), 961);
}

#[test]
fn tiny_image_is_floored_to_min_pixels() {
    // 16x16 is far below min_pixels (65536); smart_resize scales it up so the
    // token count is floored, not ~0.
    let tokens = estimate_image_tokens(16, 16, &QWEN3VL);
    assert!(tokens >= QWEN3VL.min_pixels / (QWEN3VL.factor() * QWEN3VL.factor()) - 1);
    assert!(tokens >= 60, "expected a floored count, got {tokens}");
}

#[test]
fn huge_image_is_capped_to_max_pixels() {
    // 10000x10000 = 1e8 px is far above max_pixels (16.7M); the token count
    // saturates near max_pixels/factor^2 = 16384 rather than ~1e8/1024.
    let tokens = estimate_image_tokens(10_000, 10_000, &QWEN3VL);
    let cap = QWEN3VL.max_pixels / (QWEN3VL.factor() * QWEN3VL.factor());
    assert!(tokens <= cap, "{tokens} should be <= cap {cap}");
    assert!(tokens > cap * 9 / 10, "{tokens} should be near cap {cap}");
}

#[test]
fn dimensions_parsed_from_data_uri() {
    let uri = png_data_uri(640, 480);
    assert_eq!(dimensions_from_data_uri(&uri), Some((640, 480)));
}

#[test]
fn http_url_yields_no_dimensions() {
    assert_eq!(
        dimensions_from_data_uri("https://example.com/cat.png"),
        None
    );
}

#[test]
fn weight_is_text_only_without_images() {
    let request = PreprocessedRequest {
        token_ids: vec![1, 2, 3, 4, 5],
        multi_modal_data: None,
        mm_routing_info: None,
    };
    assert_eq!(prefill_token_weight(&request, &QWEN3VL), 5);
}

#[test]
fn weight_adds_image_token_estimate() {
    let mut mm = MultimodalDataMap::new();
    let uri = url::Url::parse(&png_data_uri(1024, 1024)).unwrap();
    mm.insert(
        "image_url".to_string(),
        vec![MultimodalData::Url(uri.as_str().to_string())],
    );

    let request = PreprocessedRequest {
        token_ids: vec![1, 2, 3], // 3 text/placeholder tokens
        multi_modal_data: Some(mm),
        mm_routing_info: None,
    };

    // 3 text tokens + 1024 image tokens.
    assert_eq!(prefill_token_weight(&request, &QWEN3VL), 3 + 1024);
}

#[test]
fn expanded_routing_sequence_takes_precedence() {
    let request = PreprocessedRequest {
        token_ids: vec![1, 2, 3],
        multi_modal_data: None,
        mm_routing_info: Some(MmRoutingInfo {
            routing_token_ids: vec![0; 777],
        }),
    };

    // Uses the already-expanded routing sequence length, not token_ids.
    assert_eq!(prefill_token_weight(&request, &QWEN3VL), 777);
}

#[test]
fn expanded_sequence_outweighs_images() {
    let mut request = image_request(3, vec![decoded(1024, 1024)]);
    request.mm_routing_info = Some(MmRoutingInfo {
        routing_token_ids: vec![0; 9],
    });
    assert_eq!(prefill_token_weight(&request, &QWEN3VL), 9);
    assert_eq!(checked_prefill_token_weight(&request, &QWEN3VL), Some(9));
}

#[test]
fn empty_expanded_sequence_is_ignored() {
    let mut request = image_request(3, vec![decoded(1024, 1024)]);
    request.mm_routing_info = Some(MmRoutingInfo {
        routing_token_ids: vec![],
    });
    assert_eq!(prefill_token_weight(&request, &QWEN3VL), 1027);
}

#[test]
fn images_of_every_form_add_up() {
    let images = vec![
        MultimodalData::RawUrl(png_data_uri(1000, 1000)),
        MultimodalData::Url("https://example.com/cat.png".to_string()),
        decoded(768, 1280),
        MultimodalData::Decoded(MediaDescriptor { height_width: None }),
        MultimodalData::RawUrl("data:image/png;base64,AAAA".to_string()),
    ];
    let request = image_request(10, images);
    assert_eq!(
        measure_images(&request),
        vec![Some((1000, 1000)), None, Some((1280, 768)), None, None]
    );
    assert_eq!(prefill_token_weight(&request, &QWEN3VL), 10 + 961 + 960);
    assert_eq!(
        checked_prefill_token_weight(&request, &QWEN3VL),
        Some(10 + 961 + 960)
    );
}

#[test]
fn order_of_images_does_not_matter() {
    let a = image_request(1, vec![decoded(1024, 1024), decoded(16, 16)]);
    let b = image_request(1, vec![decoded(16, 16), decoded(1024, 1024)]);
    let weight = prefill_token_weight(&a, &QWEN3VL);
    assert_eq!(weight, 1 + 1024 + 64);
    assert_eq!(prefill_token_weight(&b, &QWEN3VL), weight);
}

#[test]
fn items_of_other_kinds_are_not_images() {
    let mut mm = MultimodalDataMap::new();
    mm.insert("video_url".to_string(), vec![decoded(1024, 1024)]);
    assert!(mm.get("image_url").is_none());
    assert_eq!(mm.get("video_url").unwrap().len(), 1);
    let request = PreprocessedRequest {
        token_ids: vec![7; 4],
        multi_modal_data: Some(mm),
        mm_routing_info: None,
    };
    assert_eq!(prefill_token_weight(&request, &QWEN3VL), 4);
}

#[test]
fn descriptor_gives_width_first_and_keeps_the_low_bits() {
    assert_eq!(image_dimensions(&decoded(480, 640)), Some((640, 480)));
    assert_eq!(
        image_dimensions(&decoded(0x1_0000_0003, 0x2_0000_0005)),
        Some((5, 3))
    );
}

#[test]
fn other_formats_are_recognised_by_their_first_bytes() {
    for format in [
        ImageFormat::Bmp,
        ImageFormat::Gif,
        ImageFormat::Jpeg,
        ImageFormat::WebP,
    ] {
        let b64 = general_purpose::STANDARD.encode(encoded(33, 21, format));
        let uri = format!("data:application/octet-stream;base64,{b64}");
        assert_eq!(dimensions_from_data_uri(&uri), Some((33, 21)));
    }
}

#[test]
fn tiff_images_are_not_measured() {
    let header = b"II*\0\x08\0\0\0\x02\0\0\x01\x04\0\x01\0\0\0\x21\0\0\0\x01\x01\x04\0\x01\0\0\0\x15\0\0\0\0\0\0\0";
    let b64 = general_purpose::STANDARD.encode(header);
    let uri = format!("data:image/tiff;base64,{b64}");
    assert_eq!(dimensions_from_data_uri(&uri), None);
}

#[test]
fn overflow_is_reported() {
    // one pixel grown to 2^64 of them
    let grown = MmPrefillTokenConfig {
        patch_size: 1,
        merge_size: 1,
        min_pixels: u64::MAX,
        max_pixels: u64::MAX,
    };
    let request = image_request(1, vec![decoded(1, 1)]);
    assert_eq!(checked_prefill_token_weight(&request, &grown), None);
    assert_eq!(checked_prefill_token_weight(&request, &QWEN3VL), Some(1 + 64));
    // clamps and a number of images that are not moderate, and a weight that fits all the same
    let open = MmPrefillTokenConfig {
        max_pixels: u64::MAX,
        ..QWEN3VL
    };
    assert_eq!(checked_prefill_token_weight(&request, &open), Some(1 + 64));
    let many = image_request(1, (0..5000).map(|_| decoded(1, 1)).collect());
    assert_eq!(checked_prefill_token_weight(&many, &QWEN3VL), Some(1 + 5000 * 64));
    // each estimate fits, their sum does not
    let pixels = MmPrefillTokenConfig {
        patch_size: 1,
        merge_size: 1,
        min_pixels: 0,
        max_pixels: u64::MAX,
    };
    let big = Some((u32::MAX, u32::MAX));
    let one = (u32::MAX as u64) * (u32::MAX as u64);
    assert_eq!(checked_weigh(5, &vec![big], &pixels), Some(5 + one));
    assert_eq!(weigh(5, &vec![big], &pixels), 5 + one);
    assert_eq!(checked_weigh(5, &vec![big, big], &pixels), None);
    assert_eq!(checked_prefill_token_weight(&text_request(6), &pixels), Some(6));
}

#[test]
fn many_large_images_fit() {
    let side = u32::MAX as usize;
    let images = (0..4096).map(|_| decoded(side, side)).collect();
    let request = image_request(3, images);
    assert_eq!(prefill_token_weight(&request, &QWEN3VL), 3 + 4096 * 16_384);
    assert_eq!(
        checked_prefill_token_weight(&request, &QWEN3VL),
        Some(3 + 4096 * 16_384)
    );
}

#[test]
fn weight_is_high_by_one_token_per_measured_image() {
    // five text tokens, two of them placeholders, one of an image that cannot be measured
    let images = vec![
        decoded(1024, 1024),
        MultimodalData::RawUrl("http://example.com/a.png".to_string()),
    ];
    let expanded = 5 - 1 + 1024;
    assert_eq!(
        prefill_token_weight(&image_request(5, images), &QWEN3VL),
        expanded + 1
    );
}
