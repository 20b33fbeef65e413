//! Tables: each an engine with its indices.
pub mod held;
pub mod manager;
pub mod names;
