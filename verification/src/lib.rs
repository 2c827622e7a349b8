//! Replays an account's on-chain event stream and reconciles the replayed total
//! claim against the on-chain total claim.

pub mod account;
pub mod account_id;
pub mod bisect;
pub mod contract;
pub mod decimal;
pub mod engine;
pub mod fallback;
pub mod json;
pub mod laws;
pub mod order;
pub mod reconcile;
pub mod run;
pub mod snapshot;
pub mod text;
pub mod timeline;
