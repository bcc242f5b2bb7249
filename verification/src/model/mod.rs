//! Data model: projects and queries.
pub mod project;
pub mod query;
