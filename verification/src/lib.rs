//! CacheBolt: a caching reverse proxy core.
//!
//! The crate holds the request-path engine of a tiered caching proxy: cache-key
//! fingerprinting, an in-memory hot tier with memory-pressure eviction, the
//! durable-record codec shared by all storage backends, the latency-failover
//! circuit, the probabilistic refresh sampler, the bypass rules, and the
//! decision core that orchestrates a request. Transport (HTTP serving, origin
//! forwarding, object-store I/O) lives outside the library and hands it plain
//! values.

pub mod admin;
pub mod admission;
pub mod bypass;
pub mod codec;
pub mod config;
pub mod eviction;
pub mod fingerprint;
pub mod kvmap;
pub mod latency;
pub mod memory;
pub mod proxy;
pub mod queue;
pub mod refresh;
pub mod storage;
pub mod text;
