//! Text reduction and chunked summarization: sentence filtering, word
//! chunking, the per-chunk summarization stage and its error type.

pub mod chunks;
pub mod error;
pub mod models;
pub mod pipeline;
pub mod sentences;
pub mod summary;
pub mod text;
