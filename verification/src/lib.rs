//! Matching-and-anonymization engine for paired capture files.
//!
//! A dataset holds "session" directories that sit two levels below a common
//! grandparent directory.  Sibling directories under one grandparent are
//! matched by counting shared filenames, the files of a matched directory
//! pair are paired by name, and every pair (or leftover singleton) receives
//! a sequential identity and a randomized recent modification time.  The
//! library computes all of this as a plan of rename operations over plain
//! values; the caller enumerates the filesystem and applies the plan.

pub mod anonymize;
pub mod audit;
pub mod consolidate;
pub mod engine;
pub mod grouping;
pub mod matching;
pub mod model;
pub mod pairing;
pub mod rng;
pub mod tally;
pub mod text;
