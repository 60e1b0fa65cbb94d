//! Batch validation of session credentials against a remote identity
//! service: classification of every credential slot, deduplication by
//! identity, rate-limit fallback resolution, ordered aggregation of results,
//! friend-count filtering and the state of the continuous re-check mode.
//!
//! Network traffic, clocks and terminals stay with the caller: every function
//! here takes what a probe returned as a plain value and decides what follows.

pub mod cpu;
pub mod credentials;
pub mod models;
pub mod phase;
pub mod pool;
pub mod probe;
pub mod realtime;
pub mod text;
