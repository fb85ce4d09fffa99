//! Certificates: what an operator uploads, what an ACME server issues, and
//! when to ask again.

pub mod acme;
pub mod attempt;
pub mod config;
pub mod crypto;
pub mod csr;
pub mod dns;
pub mod error;
pub mod inspect;
pub mod json;
pub mod jws;
pub mod ledger;
pub mod metrics;
pub mod order;
pub mod record;
pub mod renewal;
pub mod shelf;
pub mod validation;

pub use acme::{
    obtain_over, obtain_planned_over, run, Obtained, Plan, Reached, Reply, Transport, POLL_INTERVAL,
};
pub use attempt::{wait_before, whole_run, ATTEMPTS, FIRST_WAIT};
pub use csr::{generate, key_from_pem, key_to_pem, request, request_with, Request};
pub use dns::{challenge_name, CHALLENGE_LABEL};
pub use error::{Failure, Reason};
pub use inspect::{Upload, MOST_CERTIFICATES};
pub use jws::{
    account_from_pem, account_key, account_to_pem, base64url, jwk, key_authorization, record_value,
    sign, thumbprint, Account, Identify,
};
pub use metrics::{exposition, EXPIRY_METRIC, OBTAINED_METRIC};
pub use order::{
    Answer, Ask, Challenge, Flow, Progress, Publication, MOST_NONCE_RETRIES, MOST_POLLS,
};
pub use record::{
    carry_obtained, chain_id, install, key_id, order_key_id, remove, CHAIN_SUFFIX, KEY_SUFFIX,
    ORDER_KEY_SUFFIX,
};
pub use renewal::{
    backoff, due, remaining, renewable, why, Attempts, Because, Due, ALARM_AFTER, FIRST_BACKOFF,
    GROWING_WAITS, LONGEST_BACKOFF, RENEW_AT,
};
