//! What the servers answer.
pub mod access;
pub mod http;
pub mod laws;
pub mod outside;
pub mod tcp;
