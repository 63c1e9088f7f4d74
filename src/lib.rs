//! Finding, for each input color, the candidate colors closest to it.
//!
//! The library parses color tokens, decodes hex codes, validates a request and
//! ranks scored candidates. Scores are handed in as order-preserving integer
//! keys, so that the ranking is exact and deterministic.
pub mod color;
pub mod error;
pub mod hex;
pub mod rank;
pub mod request;
