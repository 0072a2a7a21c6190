//! A probabilistic batch-code library: the scheduling layer above a
//! single-query private-information-retrieval engine.
//!
//! A batch code splits a database of tuples into `m` buckets so that any
//! `k` items can be recovered by querying each bucket at most once.  Five
//! interchangeable code variants live under [`pbc`]; the thin fan-out
//! helpers for a per-bucket PIR engine live under [`multipir`].

pub mod multipir;
pub mod pbc;
