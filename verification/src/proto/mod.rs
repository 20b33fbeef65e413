//! The text protocol: commands and replies.
pub mod codec;
pub mod command;
pub mod laws;
pub mod reply;
