//! A StatsD ingestion core: the wire-format parser, the decisions of the
//! receive loop, and a broadcast cancellation token.

pub mod endpoint;
pub mod laws;
pub mod metrics;
pub mod reactor;
pub mod sync_token;
pub mod wire;
