//! Speed-tested addresses for content delivery domains: the configuration
//! directives, the candidate lists, the ranking of what was measured, the
//! caches that hold the best addresses, and the answers given from them.
//!
//! Everything here computes on plain values. Reading files, connecting,
//! locking and telling the time belong to the caller, which hands in what it
//! found and carries out what it is told.

pub mod cache;
pub mod candidates;
pub mod cfst;
pub mod cfst_daemon;
pub mod config;
pub mod dns_mw_cfst;
pub mod domain;
pub mod latency;
pub mod net;
pub mod text;
pub mod time;
