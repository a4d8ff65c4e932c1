//! Compaction pass for a generated JavaScript search-index file: a token
//! pipeline (filter, rewrite, string aggregation, serialization, preamble
//! injection) that shrinks the text while keeping the value it evaluates to.

pub mod aggregate;
pub mod pipeline;
pub mod route;
pub mod stages;
pub mod text;
pub mod token;
