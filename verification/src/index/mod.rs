//! JSON documents: filters over them and rankings by their fields.
pub mod json;
pub mod laws;
pub mod query;
pub mod secondary;
