//! Two verified cores: a log-structured key/value store and the delivery
//! state of a localized causal broadcast.

pub mod kvs;
pub mod lcb;
