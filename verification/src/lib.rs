//! A multi-tenant task queue over an ordered key-value store.
//!
//! The library decides: it turns what was read from the store into the writes
//! that follow, keeps the tenants' policies and counters, and hands out worker
//! slots. Reading, writing, sleeping and floating-point smoothing are left to
//! the program that embeds it.

pub mod baseline;
pub mod codec;
pub mod compaction;
pub mod config;
pub mod error;
pub mod fair_worker;
pub mod fraction;
pub mod grpc;
pub mod keys;
pub mod ownership;
pub mod paths;
pub mod policy;
pub mod reaper;
pub mod scheduler;
pub mod stats;
pub mod stats_daemon;
pub mod stats_store;
pub mod store;
pub mod task;
pub mod tenant;
pub mod tenant_map;
pub mod text;
pub mod throttle;

