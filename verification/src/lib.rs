//! Prefill routing by estimated token load.
//!
//! A router that balances prefill load weighs each in-flight request by the number of tokens
//! its prompt will have. Image placeholders are not expanded yet when a request is routed, so the
//! tokens of an image are estimated from its pixel dimensions, with the formula by which the
//! vision processor will resize it.
//!
//! - [`config`]: the parameters of the vision processor, and their environment overrides.
//! - [`binary64`]: the floating-point operations of that formula, as integer code.
//! - [`scaling`]: one side of an image scaled to a pixel budget, and how exact that is.
//! - [`resize`]: the size that the processor gives an image, its token count, and their laws.
//! - [`data_uri`]: the dimensions of an inline image.
//! - [`request`]: what is read of a request.
//! - [`weight`]: the weight of a request.
//! - [`router`]: which entry point of a router a request is handed to.

pub mod binary64;
pub mod config;
pub mod data_uri;
pub mod request;
pub mod resize;
pub mod router;
pub mod scaling;
pub mod weight;
