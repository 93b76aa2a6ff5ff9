//! Range-splitting proxy core: range negotiation, origin content-range
//! validation, block-aligned fragment requests, a bounded fetch pipeline and
//! in-order reassembly of fragments into exactly the bytes a client asked for.

pub mod text;
pub mod range;
pub mod config;
pub mod stream;
pub mod pipeline;
pub mod response;
