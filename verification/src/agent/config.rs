//! Plain configuration and request shapes of the agent service.

use std::collections::HashMap;
use vstd::prelude::*;

verus! {

/// Where the HTTP server listens.
#[derive(Debug, Clone)]
pub struct ServerConfig {
    pub port: u16,
    pub host: String,
    /// Allowed CORS origin (empty: any).
    pub cors_origin: String,
}

/// Where the database lives.
#[derive(Debug, Clone)]
pub struct DatabaseConfig {
    /// SQLite file path, relative to the working directory.
    pub path: String,
}

/// An external MCP tool server: how to launch it.
#[derive(Debug, Clone)]
pub struct McpServerConfig {
    pub name: String,
    pub command: String,
    pub args: Vec<String>,
    pub env: HashMap<String, String>,
}

/// A created session's identifier.
#[derive(Debug, Clone)]
pub struct SessionIdResp {
    pub session_id: String,
}

/// The sessions that exist.
#[derive(Debug, Clone)]
pub struct SessionListResp {
    pub sessions: Vec<String>,
}

/// A chat message, with an optional identifier that makes retries safe.
#[derive(Debug, Clone)]
pub struct ChatReq {
    pub message: String,
    pub request_id: Option<String>,
}

/// The user's answer to a permission request.
#[derive(Debug, Clone, Copy)]
pub struct PermissionDecisionReq {
    pub approved: bool,
}

} // verus!
