//! What a node does for its user.

pub mod chat;
pub mod discovery;
