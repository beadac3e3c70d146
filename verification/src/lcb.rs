//! Localized causal broadcast: payloads, the delivered state and the rules
//! that the link and the broadcast layers follow.

pub mod broadcast;
pub mod config;
pub mod config_error;
pub mod delivered;
pub mod enqueue;
pub mod hosts;
pub mod invariants;
pub mod laws;
pub mod link;
pub mod model;
pub mod network_error;
pub mod output;
pub mod payload;
pub mod text;
pub mod wire;
