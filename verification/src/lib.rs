//! Incrementally maintained recommendation aggregates over a changing
//! multiset of (user, item) interactions.
//!
//! The engine keeps a chain of derived collections — per-item interaction
//! counts, pairwise item co-occurrence counts, Jaccard similarities and
//! per-query top-1 recommendations — and, after each update batch,
//! surfaces only the diffs those collections produced at the batch's
//! logical time, retractions before additions, ready for broadcast.

pub mod batch;
pub mod decimal;
pub mod engine;
pub mod errors;
pub mod jaccard;
pub mod keys;
pub mod kv;
pub mod log;
pub mod model;
pub mod operators;
pub mod output;
pub mod recommend;
pub mod requests;
pub mod store;
pub mod trace;

pub use engine::{Engine, StepDiffs};
pub use errors::EngineError;
pub use log::InputLog;
pub use model::InputRow;
pub use output::OutputRecord;
pub use requests::{Change, ChangeRequest};
pub use trace::DiffStore;
