//! Incremental parsing of `multipart/form-data` bodies that arrive in chunks.

pub mod diagnostics;
pub mod headers;
pub mod invariance;
pub mod laws;
pub mod model;
pub mod parser;
pub mod pattern;
pub mod request;
pub mod sink;
pub mod units;
