//! Services over the data model.
pub mod project;
