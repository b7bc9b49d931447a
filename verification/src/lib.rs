//! Core of a submission benchmarking pipeline.
//!
//! Untrusted artifacts are queued per owner, claimed oldest-first by a
//! scheduler, run in a sandbox, and the resulting score is published to a
//! best-score-per-owner leaderboard. This crate holds the verified pipeline
//! logic: queue ordering, the atomic commit of an execution result
//! (best-score upsert, bounded retries), score-protocol parsing, pseudonym
//! derivation, and the read-only query projections. The surrounding HTTP,
//! database and container plumbing lives outside the library and exchanges
//! plain values with it.

pub mod benchmarking;
pub mod pseudonym;
pub mod scoring;
pub mod views;
