//! The agent's decision logic: loop phases, chat admission and request
//! replay protection, permissions, and the plain data it exchanges.

pub mod config;
pub mod context;
pub mod permission;
pub mod phase;
pub mod prompt;
pub mod provider;
pub mod session;
pub mod tools;
pub mod tool_calls;
pub mod messages;
