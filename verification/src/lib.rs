//! Session-token bookkeeping for the AWS command line tools: the `config` and
//! `credentials` files, the profiles and sessions they hold, and the decisions
//! taken when a session is created, refreshed, shown or cleaned.

pub mod command_laws;
pub mod config;
pub mod credentials;
pub mod expiry;
pub mod laws;
pub mod numbers;
pub mod roundtrip;
pub mod session_handler;
pub mod text;
