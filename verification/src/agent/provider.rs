//! Plain data exchanged with model providers.

use vstd::prelude::*;

verus! {

/// Token counts of one model call.
#[derive(Debug, Clone, Copy, PartialEq, Eq, Structural)]
pub struct TokenUsage {
    pub input_tokens: u32,
    pub output_tokens: u32,
}

/// One event of a streamed model response.
#[derive(Debug, Clone)]
pub enum StreamEvent {
    TextDelta { text: String },
    ToolCallBegin { id: String, name: String },
    ToolCallDelta { id: String, args_json: String },
    ToolCallEnd { id: String },
    Done { usage: TokenUsage },
}

/// Who wrote a message.
#[derive(Debug, Clone, Copy, PartialEq, Eq, Structural)]
pub enum Role {
    System,
    User,
    Assistant,
}

/// Errors of a model provider.
#[derive(Debug, Clone, PartialEq, Eq)]
pub enum ProviderError {
    Network(String),
    Api { status: u16, message: String },
    RateLimited { retry_after_ms: Option<u64> },
    Serialization(String),
    StreamParse(String),
}

} // verus!
