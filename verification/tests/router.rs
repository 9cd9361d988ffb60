use prefill_router::config::MmPrefillTokenConfig;
use prefill_router::request::{
    MediaDescriptor, MmRoutingInfo, MultimodalData, MultimodalDataMap, PreprocessedRequest,
};
use prefill_router::router::{Dispatch, InnerPrefillRouter, RouterMode, WorkerSelection};

fn request(weight: usize) -> PreprocessedRequest {
    PreprocessedRequest {
        token_ids: vec![1, 2],
        multi_modal_data: None,
        mm_routing_info: Some(MmRoutingInfo {
            routing_token_ids: vec![0; weight],
        }),
    }
}

#[test]
fn kv_router_ignores_the_target() {
    let cfg = MmPrefillTokenConfig::default();
    for target in [None, Some(3)] {
        assert_eq!(
            InnerPrefillRouter::KvRouter.generate_to_worker(&request(9), target, &cfg),
            Some(Dispatch::Generate)
        );
    }
}

#[test]
fn simple_router_obeys_the_target() {
    let cfg = MmPrefillTokenConfig::default();
    for mode in [
        RouterMode::RoundRobin,
        RouterMode::Random,
        RouterMode::Direct,
        RouterMode::LeastLoaded,
        RouterMode::LeastPrefillLoaded,
    ] {
        assert_eq!(
            InnerPrefillRouter::SimpleRouter(mode).generate_to_worker(&request(9), Some(3), &cfg),
            Some(Dispatch::ToWorker(3))
        );
    }
}

#[test]
fn only_prefill_balancing_needs_a_weight() {
    let cfg = MmPrefillTokenConfig::default();
    for mode in [
        RouterMode::RoundRobin,
        RouterMode::Random,
        RouterMode::Direct,
        RouterMode::LeastLoaded,
    ] {
        assert_eq!(
            InnerPrefillRouter::SimpleRouter(mode).generate_to_worker(&request(9), None, &cfg),
            Some(Dispatch::Generate)
        );
    }
    assert_eq!(
        InnerPrefillRouter::SimpleRouter(RouterMode::LeastPrefillLoaded).generate_to_worker(
            &request(9),
            None,
            &cfg
        ),
        Some(Dispatch::Weighted(9))
    );
}

#[test]
fn weight_overflow_matters_only_where_the_weight_is_needed() {
    // one pixel grown to 2^64 of them
    let cfg = MmPrefillTokenConfig {
        patch_size: 1,
        merge_size: 1,
        min_pixels: u64::MAX,
        max_pixels: u64::MAX,
    };
    let mut mm = MultimodalDataMap::new();
    mm.insert(
        "image_url".to_string(),
        vec![MultimodalData::Decoded(MediaDescriptor {
            height_width: Some((1, 1)),
        })],
    );
    let request = PreprocessedRequest {
        token_ids: vec![1],
        multi_modal_data: Some(mm),
        mm_routing_info: None,
    };
    let router = InnerPrefillRouter::SimpleRouter(RouterMode::LeastPrefillLoaded);
    assert_eq!(router.generate_to_worker(&request, None, &cfg), None);
    assert_eq!(
        router.generate_to_worker(&request, Some(1), &cfg),
        Some(Dispatch::ToWorker(1))
    );
}

#[test]
fn only_simple_routers_select_ahead() {
    assert_eq!(
        InnerPrefillRouter::SimpleRouter(RouterMode::Random).select_next_worker(),
        WorkerSelection::AskRouter
    );
    assert_eq!(
        InnerPrefillRouter::KvRouter.select_next_worker(),
        WorkerSelection::Unselected
    );
}
