//! Content-defined chunking with per-chunk SHA-256 fingerprints.
//!
//! A byte buffer is cut into variable-length chunks at positions chosen by a
//! rolling hash over its content, and each chunk is named by the lowercase
//! hexadecimal SHA-256 digest of its bytes.

pub mod boundaries;
pub mod chunker;
pub mod detector;
pub mod error;
pub mod fingerprint;
pub mod pipeline;
