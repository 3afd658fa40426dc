//! A rule-driven DNS forwarder core: a rule engine that picks an upstream
//! resolver for each queried name, a two-level cache (rule cache and response
//! cache) with text-file persistence and a cold-start validation protocol,
//! and the pure parts of the upstream dispatcher (address and scheme parsing,
//! RCODE synthesis, DNS-over-HTTPS framing).

pub mod config;
pub mod dns;
pub mod domain;
pub mod engine;
pub mod log;
pub mod domain_cache;
pub mod persist;
pub mod pipeline;
pub mod rule_cache;
pub mod text;
pub mod transport;
