//! The decisions taken for each tool call of the model: whether it may run,
//! must wait for the user's approval, or is answered with an error. The
//! caller runs the tools and waits for approvals; these functions say what
//! to do and what follows from what came back.

use vstd::prelude::*;
use crate::agent::permission::{approval_key, Permission, PermissionGate};
use crate::agent::session::SessionState;
use crate::text::{push_str, str_eq};

verus! {

/// What to do with one tool call.
#[derive(Debug, Clone)]
pub enum ToolStep {
    /// Answer the call with this error message, running nothing.
    Refuse(String),
    /// Run the tool.
    Run,
    /// Record the call as awaiting approval and wait for the user.
    Ask,
}

/// How waiting for the user's approval ended.
#[derive(Debug, Clone)]
pub enum ApprovalOutcome {
    Approved,
    Rejected,
    /// No answer: the wait was cancelled, timed out or lost its channel.
    Failed(String),
}

/// A session with the allowed list `allowed` lets tool `name` run: an
/// empty list allows every tool.
pub open spec fn tool_allowed(allowed: Seq<String>, name: Seq<char>) -> bool {
    allowed.len() == 0 || exists|i: int| 0 <= i < allowed.len() && (#[trigger] allowed[i])@ == name
}

pub open spec fn not_allowed_message(name: Seq<char>) -> Seq<char> {
    "Tool '"@ + name + "' is not allowed in this session"@
}

pub open spec fn denied_message(name: Seq<char>) -> Seq<char> {
    "Permission denied for tool: "@ + name
}

pub open spec fn already_pending_message() -> Seq<char> {
    "Another tool approval is already pending"@
}

/// The step a permission leads to: run, refuse, or ask, unless another
/// approval is already pending.
pub open spec fn permission_step(perm: Permission, name: Seq<char>, approval_pending: bool, r: ToolStep) -> bool {
    match perm {
        Permission::Auto => r is Run,
        Permission::Deny => r matches ToolStep::Refuse(m) && m@ == denied_message(name),
        Permission::Ask => if approval_pending {
            r matches ToolStep::Refuse(m) && m@ == already_pending_message()
        } else {
            r is Ask
        },
    }
}

fn is_allowed(allowed: &Vec<String>, name: &str) -> (r: bool)
    ensures
        r == tool_allowed(allowed@, name@),
{
    if allowed.len() == 0 {
        return true;
    }
    let mut i: usize = 0;
    while i < allowed.len()
        invariant
            i <= allowed@.len(),
            forall|k: int| 0 <= k < i ==> (#[trigger] allowed@[k])@ != name@,
        decreases allowed.len() - i,
    {
        if str_eq(allowed[i].as_str(), name) {
            return true;
        }
        i += 1;
    }
    false
}

/// The step a permission leads to for a call of `name`.
pub fn step_for_permission(perm: Permission, name: &str, approval_pending: bool) -> (r: ToolStep)
    ensures
        permission_step(perm, name@, approval_pending, r),
{
    proof {
        reveal_strlit("Another tool approval is already pending");
    }
    match perm {
        Permission::Auto => ToolStep::Run,
        Permission::Deny => {
            let mut m = "Permission denied for tool: ".to_owned();
            push_str(&mut m, name);
            ToolStep::Refuse(m)
        },
        Permission::Ask => {
            if approval_pending {
                ToolStep::Refuse("Another tool approval is already pending".to_owned())
            } else {
                ToolStep::Ask
            }
        },
    }
}

/// Decides a tool call of `name` with argument digest `args_digest`: a
/// tool missing from the session's allowed list is refused; otherwise the
/// permission that `check_with_cache` gives decides (see `permission_step`).
pub fn plan_tool_call(
    allowed: &Vec<String>,
    gate: &mut PermissionGate,
    name: &str,
    args_digest: &str,
    approval_pending: bool,
) -> (r: ToolStep)
    ensures
        final(gate).approved() == old(gate).approved(),
        !tool_allowed(allowed@, name@) ==> (r matches ToolStep::Refuse(m) && m@ == not_allowed_message(name@)),
        tool_allowed(allowed@, name@) ==> permission_step(Permission::Auto, name@, approval_pending, r),
{
    if !is_allowed(allowed, name) {
        let mut m = "Tool '".to_owned();
        push_str(&mut m, name);
        push_str(&mut m, "' is not allowed in this session");
        return ToolStep::Refuse(m);
    }
    let perm = gate.check_with_cache(name, args_digest);
    step_for_permission(perm, name, approval_pending)
}

/// Starts waiting for the user's approval of a call: the call becomes the
/// pending one and the session waits.
pub fn begin_approval<T>(state: &mut SessionState, pending: &mut Option<T>, call: T)
    ensures
        *final(pending) == Some(call),
        *final(state) == SessionState::WaitingApproval,
{
    *pending = Some(call);
    *state = SessionState::WaitingApproval;
}

/// What follows the wait for an approval of a call of `name`: the pending
/// call is cleared and a waiting session runs again; an approved call is
/// remembered as approved and runs; a rejected one is refused; a wait that
/// failed answers the call with its message.
pub fn finish_approval<T>(
    state: &mut SessionState,
    pending: &mut Option<T>,
    gate: &mut PermissionGate,
    name: &str,
    args_digest: &str,
    outcome: ApprovalOutcome,
) -> (r: ToolStep)
    ensures
        *final(pending) is None,
        *old(state) == SessionState::WaitingApproval ==> *final(state) == SessionState::Running,
        *old(state) != SessionState::WaitingApproval ==> *final(state) == *old(state),
        outcome is Approved ==> r is Run && final(gate).approved().contains(approval_key(name@, args_digest@)) && forall|
            k: Seq<char>,
        | old(gate).approved().contains(k) ==> final(gate).approved().contains(k),
        !(outcome is Approved) ==> final(gate).approved() == old(gate).approved(),
        outcome is Rejected ==> (r matches ToolStep::Refuse(m) && m@ == denied_message(name@)),
        outcome matches ApprovalOutcome::Failed(msg) ==> (r matches ToolStep::Refuse(m) && m == msg),
{
    *pending = None;
    if *state == SessionState::WaitingApproval {
        *state = SessionState::Running;
    }
    match outcome {
        ApprovalOutcome::Approved => {
            gate.approve(name, args_digest);
            ToolStep::Run
        },
        ApprovalOutcome::Rejected => {
            let mut m = "Permission denied for tool: ".to_owned();
            push_str(&mut m, name);
            ToolStep::Refuse(m)
        },
        ApprovalOutcome::Failed(msg) => ToolStep::Refuse(msg),
    }
}

} // verus!
