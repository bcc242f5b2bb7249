//! Hybrid search: fusing full-text and vector hits.
pub mod merger;
