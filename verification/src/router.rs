//! Which way a prefill request goes.

use crate::config::MmPrefillTokenConfig;
use crate::request::PreprocessedRequest;
use crate::weight;
use crate::weight::checked_prefill_token_weight;
use vstd::prelude::*;

verus! {

/// How a simple router picks a worker.
#[derive(Clone, Copy, Debug, PartialEq, Eq, Structural)]
pub enum RouterMode {
    RoundRobin,
    Random,
    Direct,
    LeastLoaded,
    LeastPrefillLoaded,
}

/// The inner router used for prefill.
#[derive(Clone, Copy, Debug, PartialEq, Eq, Structural)]
pub enum InnerPrefillRouter {
    /// KV-aware routing.
    KvRouter,
    /// Simple routing in the given mode.
    /// Note: Per-worker metrics (active_prefill_tokens, active_decode_blocks) are only
    /// available in KV routing mode where the router has actual bookkeeping.
    SimpleRouter(RouterMode),
}

/// The entry point of a router that a request is handed to.
#[derive(Clone, Copy, Debug, PartialEq, Eq, Structural)]
pub enum Dispatch {
    /// The router picks a worker by itself.
    Generate,
    /// The request goes to this worker.
    ToWorker(u64),
    /// The router picks the worker with the least prefill load and adds this weight to it.
    Weighted(u64),
}

/// Where the next worker comes from.
#[derive(Clone, Copy, Debug, PartialEq, Eq, Structural)]
pub enum WorkerSelection {
    /// The simple router is asked.
    AskRouter,
    /// No worker is selected ahead of the request.
    Unselected,
}

impl InnerPrefillRouter {
    /// A request goes through the weighted entry point.
    pub open spec fn is_weighted(self, target_worker: Option<u64>) -> bool {
        self == InnerPrefillRouter::SimpleRouter(RouterMode::LeastPrefillLoaded)
            && target_worker is None
    }

    /// The entry point for a request of the given weight.
    pub open spec fn dispatch(self, target_worker: Option<u64>, weight: u64) -> Dispatch {
        match (self, target_worker) {
            (InnerPrefillRouter::KvRouter, _) => Dispatch::Generate,
            (InnerPrefillRouter::SimpleRouter(_), Some(worker)) => Dispatch::ToWorker(worker),
            (InnerPrefillRouter::SimpleRouter(RouterMode::LeastPrefillLoaded), None) =>
                Dispatch::Weighted(weight),
            (InnerPrefillRouter::SimpleRouter(_), None) => Dispatch::Generate,
        }
    }

    /// The entry point for a request: none only where it needs a weight that overflows.
    pub open spec fn routed(
        self,
        request: PreprocessedRequest,
        target_worker: Option<u64>,
        cfg: MmPrefillTokenConfig,
    ) -> Option<Dispatch> {
        if self.is_weighted(target_worker) && !weight::weight_fits(request, cfg) {
            None
        } else {
            Some(self.dispatch(target_worker, weight::request_weight(request, cfg) as u64))
        }
    }

    /// Where the next worker comes from.
    pub open spec fn selection(self) -> WorkerSelection {
        match self {
            InnerPrefillRouter::SimpleRouter(_) => WorkerSelection::AskRouter,
            InnerPrefillRouter::KvRouter => WorkerSelection::Unselected,
        }
    }

    /// Generate with optional direct routing to specific worker.
    /// For `KvRouter`, `target_worker` is ignored since the worker is already set on the request.
    /// For `SimpleRouter`, `target_worker` triggers direct routing.
    ///
    /// A router that balances prefill load needs the token weight of the request, so an
    /// untargeted request is handed to it with that weight. The result is `None` only where this
    /// weight overflows.
    pub fn generate_to_worker(
        &self,
        request: &PreprocessedRequest,
        target_worker: Option<u64>,
        cfg: &MmPrefillTokenConfig,
    ) -> (dispatch: Option<Dispatch>)
        ensures
            dispatch == self.routed(*request, target_worker, *cfg),
            dispatch == (if self.is_weighted(target_worker) && !weight::weight_fits(
                *request,
                *cfg,
            ) {
                None
            } else {
                Some(
                    self.dispatch(target_worker, weight::request_weight(*request, *cfg) as u64),
                )
            }),
    {
        match (*self, target_worker) {
            (InnerPrefillRouter::KvRouter, _) => Some(Dispatch::Generate),
            (InnerPrefillRouter::SimpleRouter(_), Some(worker)) => Some(Dispatch::ToWorker(worker)),
            (InnerPrefillRouter::SimpleRouter(mode), None) => {
                if mode == RouterMode::LeastPrefillLoaded {
                    match checked_prefill_token_weight(request, cfg) {
                        Some(weight) => Some(Dispatch::Weighted(weight)),
                        None => None,
                    }
                } else {
                    Some(Dispatch::Generate)
                }
            },
        }
    }

    /// Select next worker (for non-KV modes only).
    pub fn select_next_worker(&self) -> (selection: WorkerSelection)
        ensures
            selection == self.selection(),
            selection == (match *self {
                InnerPrefillRouter::SimpleRouter(_) => WorkerSelection::AskRouter,
                InnerPrefillRouter::KvRouter => WorkerSelection::Unselected,
            }),
    {
        match self {
            InnerPrefillRouter::SimpleRouter(_) => WorkerSelection::AskRouter,
            InnerPrefillRouter::KvRouter => WorkerSelection::Unselected,
        }
    }
}

/// A router that balances prefill load is never asked to pick a worker without a weight.
pub proof fn law_prefill_load_needs_a_weight(target_worker: Option<u64>, weight: u64)
    ensures
        InnerPrefillRouter::SimpleRouter(RouterMode::LeastPrefillLoaded).dispatch(
            target_worker,
            weight,
        ) != Dispatch::Generate,
{
}

/// KV-aware routing ignores the target worker, and any other routing obeys it.
pub proof fn law_target_worker(router: InnerPrefillRouter, worker: u64, weight: u64)
    ensures
        router is KvRouter ==> router.dispatch(Some(worker), weight) == router.dispatch(
            None,
            weight,
        ),
        router is SimpleRouter ==> router.dispatch(Some(worker), weight) == Dispatch::ToWorker(
            worker,
        ),
{
}

/// A router that balances prefill load is handed an untargeted request with exactly the weight of
/// that request, whatever it is; only a weight of more than 64 bits cannot be handed on.
pub proof fn law_the_weight_is_handed_on(
    request: PreprocessedRequest,
    cfg: MmPrefillTokenConfig,
    weight: u64,
)
    ensures
        ({
            let router = InnerPrefillRouter::SimpleRouter(RouterMode::LeastPrefillLoaded);
            &&& router.dispatch(None, weight) == Dispatch::Weighted(weight)
            &&& weight::request_weight(request, cfg) == weight ==> router.routed(
                request,
                None,
                cfg,
            ) == Some(Dispatch::Weighted(weight))
            &&& weight::request_weight(request, cfg) > u64::MAX ==> router.routed(
                request,
                None,
                cfg,
            ) is None
        }),
{
    weight::law_weight_fits_in_64_bits(request, cfg);
}

/// No other router looks at the weight: KV-aware routing picks a worker by itself even where one is
/// given, a target is obeyed by any simple router, and without one a simple router picks.
pub proof fn law_other_dispatch_ignores_the_weight(
    mode: RouterMode,
    request: PreprocessedRequest,
    cfg: MmPrefillTokenConfig,
    target_worker: Option<u64>,
    weight: u64,
)
    ensures
        InnerPrefillRouter::KvRouter.dispatch(target_worker, weight) == Dispatch::Generate,
        InnerPrefillRouter::KvRouter.routed(request, target_worker, cfg) == Some(
            Dispatch::Generate,
        ),
        target_worker matches Some(worker) ==> {
            &&& InnerPrefillRouter::SimpleRouter(mode).dispatch(target_worker, weight)
                == Dispatch::ToWorker(worker)
            &&& InnerPrefillRouter::SimpleRouter(mode).routed(request, target_worker, cfg) == Some(
                Dispatch::ToWorker(worker),
            )
        },
        mode != RouterMode::LeastPrefillLoaded ==> {
            &&& InnerPrefillRouter::SimpleRouter(mode).dispatch(None, weight) == Dispatch::Generate
            &&& InnerPrefillRouter::SimpleRouter(mode).routed(request, None, cfg) == Some(
                Dispatch::Generate,
            )
        },
{
}

/// A worker is selected ahead of the request exactly by the routers that are not KV-aware.
pub proof fn law_selection_is_for_simple_routers(mode: RouterMode)
    ensures
        InnerPrefillRouter::SimpleRouter(mode).selection() == WorkerSelection::AskRouter,
        InnerPrefillRouter::KvRouter.selection() == WorkerSelection::Unselected,
{
}

} // verus!
