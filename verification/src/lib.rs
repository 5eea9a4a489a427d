//! Verified core of a small CSV statistics tool.
//!
//! The library parses simple comma-separated text into records, each a
//! byte-string label together with a fixed-point numeric value, and offers
//! four aggregate views over a record sequence: a stable sort by value, the
//! first record of minimum value, the first record of maximum value, and the
//! exact sum/count pair from which the arithmetic mean is formed.

pub mod loader;
pub mod number;
pub mod record;
pub mod stats;
