//! Verified core of a DNS subdomain enumerator.
//!
//! The library partitions a candidate wordlist across workers, builds probe
//! hostnames, drives per-worker forward lookups through a DNS resolver, and
//! collects the successful resolutions into a deterministic, sorted result
//! list. Everything that decides or computes is verified; the DNS calls
//! themselves stand behind a small set of trusted wrappers.

pub mod config;
pub mod dns;
pub mod ip;
pub mod partition;
pub mod results;
pub mod text;
