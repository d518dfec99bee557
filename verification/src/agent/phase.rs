//! Phases of the agent loop and the transitions allowed between them.

use vstd::prelude::*;
use crate::text::push_str;

verus! {

/// Phase of one run of the agent loop.
#[derive(Debug, Clone, Copy, PartialEq, Eq, Structural)]
pub enum LoopPhase {
    Initializing,
    PreparingTurn,
    StreamingModel,
    ExecutingTools,
    Completed,
    Cancelled,
    Failed,
}

/// Whether the loop may go from `a` to `b`: staying put, or one of the
/// listed steps. Completed, cancelled and failed runs go nowhere else.
pub open spec fn transition_ok(a: LoopPhase, b: LoopPhase) -> bool {
    a == b || match (a, b) {
        (LoopPhase::Initializing, LoopPhase::PreparingTurn) => true,
        (LoopPhase::Initializing, LoopPhase::Cancelled) => true,
        (LoopPhase::Initializing, LoopPhase::Failed) => true,
        (LoopPhase::PreparingTurn, LoopPhase::StreamingModel) => true,
        (LoopPhase::PreparingTurn, LoopPhase::Completed) => true,
        (LoopPhase::PreparingTurn, LoopPhase::Cancelled) => true,
        (LoopPhase::PreparingTurn, LoopPhase::Failed) => true,
        (LoopPhase::StreamingModel, LoopPhase::ExecutingTools) => true,
        (LoopPhase::StreamingModel, LoopPhase::Completed) => true,
        (LoopPhase::StreamingModel, LoopPhase::Cancelled) => true,
        (LoopPhase::StreamingModel, LoopPhase::Failed) => true,
        (LoopPhase::ExecutingTools, LoopPhase::PreparingTurn) => true,
        (LoopPhase::ExecutingTools, LoopPhase::Cancelled) => true,
        (LoopPhase::ExecutingTools, LoopPhase::Failed) => true,
        _ => false,
    }
}

/// A finished run: completed, cancelled or failed.
pub open spec fn is_terminal(p: LoopPhase) -> bool {
    p == LoopPhase::Completed || p == LoopPhase::Cancelled || p == LoopPhase::Failed
}

/// The name `{:?}` gives a phase.
pub open spec fn loop_phase_debug(p: LoopPhase) -> Seq<char> {
    match p {
        LoopPhase::Initializing => "Initializing"@,
        LoopPhase::PreparingTurn => "PreparingTurn"@,
        LoopPhase::StreamingModel => "StreamingModel"@,
        LoopPhase::ExecutingTools => "ExecutingTools"@,
        LoopPhase::Completed => "Completed"@,
        LoopPhase::Cancelled => "Cancelled"@,
        LoopPhase::Failed => "Failed"@,
    }
}

impl LoopPhase {
    /// Whether the loop may go from this phase to `next`.
    pub fn can_transition_to(self, next: LoopPhase) -> (r: bool)
        ensures
            r == transition_ok(self, next),
    {
        if self == next {
            return true;
        }
        match (self, next) {
            (LoopPhase::Initializing, LoopPhase::PreparingTurn)
            | (LoopPhase::Initializing, LoopPhase::Cancelled)
            | (LoopPhase::Initializing, LoopPhase::Failed)
            | (LoopPhase::PreparingTurn, LoopPhase::StreamingModel)
            | (LoopPhase::PreparingTurn, LoopPhase::Completed)
            | (LoopPhase::PreparingTurn, LoopPhase::Cancelled)
            | (LoopPhase::PreparingTurn, LoopPhase::Failed)
            | (LoopPhase::StreamingModel, LoopPhase::ExecutingTools)
            | (LoopPhase::StreamingModel, LoopPhase::Completed)
            | (LoopPhase::StreamingModel, LoopPhase::Cancelled)
            | (LoopPhase::StreamingModel, LoopPhase::Failed)
            | (LoopPhase::ExecutingTools, LoopPhase::PreparingTurn)
            | (LoopPhase::ExecutingTools, LoopPhase::Cancelled)
            | (LoopPhase::ExecutingTools, LoopPhase::Failed) => true,
            _ => false,
        }
    }

    /// The name `{:?}` gives the phase.
    pub fn debug_name(self) -> (r: &'static str)
        ensures
            r@ == loop_phase_debug(self),
    {
        match self {
            LoopPhase::Initializing => "Initializing",
            LoopPhase::PreparingTurn => "PreparingTurn",
            LoopPhase::StreamingModel => "StreamingModel",
            LoopPhase::ExecutingTools => "ExecutingTools",
            LoopPhase::Completed => "Completed",
            LoopPhase::Cancelled => "Cancelled",
            LoopPhase::Failed => "Failed",
        }
    }
}

/// Errors of the agent loop.
#[derive(Debug, Clone, PartialEq, Eq)]
pub enum AgentError {
    /// A phase change the loop does not allow, as `from -> to`.
    InvalidPhaseTransition(String),
    ProviderError(String),
    StreamError(String),
}

/// Moves the loop to `next` when that is allowed; otherwise leaves it and
/// reports the refused step.
pub fn advance_phase(current: &mut LoopPhase, next: LoopPhase) -> (r: Result<(), AgentError>)
    ensures
        r is Ok <==> transition_ok(*old(current), next),
        r is Ok ==> *final(current) == next,
        r is Err ==> *final(current) == *old(current),
        r matches Err(e) ==> e matches AgentError::InvalidPhaseTransition(msg) && msg@ == loop_phase_debug(
            *old(current),
        ) + " -> "@ + loop_phase_debug(next),
{
    if current.can_transition_to(next) {
        *current = next;
        Ok(())
    } else {
        let mut msg = current.debug_name().to_owned();
        push_str(&mut msg, " -> ");
        push_str(&mut msg, next.debug_name());
        Err(AgentError::InvalidPhaseTransition(msg))
    }
}

/// A finished run stays finished: from a completed, cancelled or failed
/// phase the only allowed step is to stay.
pub proof fn law_terminal_phases_are_final(a: LoopPhase, b: LoopPhase)
    requires
        is_terminal(a),
        transition_ok(a, b),
    ensures
        b == a,
{
}

/// No phase leads back to `Initializing`.
pub proof fn law_no_return_to_initializing(a: LoopPhase)
    requires
        a != LoopPhase::Initializing,
    ensures
        !transition_ok(a, LoopPhase::Initializing),
{
}

} // verus!
