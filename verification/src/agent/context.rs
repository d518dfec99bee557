//! The context window budget of a session.

use vstd::prelude::*;

verus! {

/// Keeps a conversation within a token budget.
pub struct ContextManager {
    max_tokens: u32,
}

impl ContextManager {
    /// The budget.
    pub closed spec fn budget(self) -> u32 {
        self.max_tokens
    }

    /// A manager for a window of `max_tokens` tokens.
    pub fn new(max_tokens: u32) -> (r: Self)
        ensures
            r.budget() == max_tokens,
    {
        ContextManager { max_tokens }
    }

    /// The window size, in tokens.
    pub fn max_tokens(&self) -> (r: u32)
        ensures
            r == self.budget(),
    {
        self.max_tokens
    }
}

} // verus!
