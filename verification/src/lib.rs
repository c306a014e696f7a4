//! Reconciliation engine for DNS records driven by service-discovery tags.
//!
//! The library holds the verified core of an external-DNS reconciler: parsing
//! of service tags into DNS intents, the diff/apply pass against a persisted
//! record state, the session/lock state machine that enforces a single writer,
//! and the pure helpers the surrounding process needs.

pub mod dns_trait;
pub mod strutil;
pub mod consul;
pub mod state;
pub mod reconcile;
pub mod session;
pub mod nomad;
pub mod dns;
pub mod hetzner_dns;

pub use dns_trait::DnsType;
