//! Writing the DNS-01 challenge record, and waiting for it to be visible.
//!
//! Telling a certificate authority to check a record that is not visible yet
//! is the one failure no retry undoes, so the wait is not optional.

pub mod cloudflare;
pub mod provider;
pub mod resolver;
pub mod rfc2136;
pub mod settle;
pub mod tsig;
pub mod walk;
pub mod wire;

pub use provider::{challenge_name, CHALLENGE_LABEL};
pub use settle::{settle, Lookup, LOOK_INTERVAL};
