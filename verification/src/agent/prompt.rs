//! Assembly of the system prompt.

use vstd::prelude::*;

verus! {

/// Builds the system prompt of a session.
pub struct PromptAssembly;

impl PromptAssembly {
    pub fn new() -> (r: Self) {
        PromptAssembly
    }
}

} // verus!
