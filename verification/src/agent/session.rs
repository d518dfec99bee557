//! Sessions: their states, the phases reported to clients, and the request
//! ledger that makes chat requests idempotent.

use std::collections::VecDeque;
use vstd::prelude::*;
use crate::agent::phase::LoopPhase;
use crate::text::{str_eq, to_chars, trim_chars, trim_spec, from_chars};

verus! {

/// What a session is doing.
#[derive(Debug, Clone, Copy, PartialEq, Eq, Structural)]
pub enum SessionState {
    Idle,
    Running,
    WaitingApproval,
    Completed,
    Error,
}

/// The loop phase as clients see it.
#[derive(Debug, Clone, Copy, PartialEq, Eq, Structural)]
pub enum Phase {
    Initializing,
    PreparingTurn,
    StreamingModel,
    ExecutingTools,
    Completed,
    Cancelled,
    Failed,
}

/// The client phase of a loop phase (the same name).
pub open spec fn phase_of(lp: LoopPhase) -> Phase {
    match lp {
        LoopPhase::Initializing => Phase::Initializing,
        LoopPhase::PreparingTurn => Phase::PreparingTurn,
        LoopPhase::StreamingModel => Phase::StreamingModel,
        LoopPhase::ExecutingTools => Phase::ExecutingTools,
        LoopPhase::Completed => Phase::Completed,
        LoopPhase::Cancelled => Phase::Cancelled,
        LoopPhase::Failed => Phase::Failed,
    }
}

/// The wire name of a phase.
pub open spec fn phase_name(p: Phase) -> Seq<char> {
    match p {
        Phase::Initializing => "initializing"@,
        Phase::PreparingTurn => "preparing_turn"@,
        Phase::StreamingModel => "streaming_model"@,
        Phase::ExecutingTools => "executing_tools"@,
        Phase::Completed => "completed"@,
        Phase::Cancelled => "cancelled"@,
        Phase::Failed => "failed"@,
    }
}

impl Phase {
    /// The client phase of a loop phase.
    pub fn from_loop_phase(lp: LoopPhase) -> (r: Phase)
        ensures
            r == phase_of(lp),
    {
        match lp {
            LoopPhase::Initializing => Phase::Initializing,
            LoopPhase::PreparingTurn => Phase::PreparingTurn,
            LoopPhase::StreamingModel => Phase::StreamingModel,
            LoopPhase::ExecutingTools => Phase::ExecutingTools,
            LoopPhase::Completed => Phase::Completed,
            LoopPhase::Cancelled => Phase::Cancelled,
            LoopPhase::Failed => Phase::Failed,
        }
    }

    /// The wire name of the phase (what it displays as).
    pub fn name(&self) -> (r: &'static str)
        ensures
            r@ == phase_name(*self),
    {
        match self {
            Phase::Initializing => "initializing",
            Phase::PreparingTurn => "preparing_turn",
            Phase::StreamingModel => "streaming_model",
            Phase::ExecutingTools => "executing_tools",
            Phase::Completed => "completed",
            Phase::Cancelled => "cancelled",
            Phase::Failed => "failed",
        }
    }
}

/// Each loop phase maps to a different client phase.
pub proof fn law_phase_of_injective(a: LoopPhase, b: LoopPhase)
    requires
        phase_of(a) == phase_of(b),
    ensures
        a == b,
{
}

/// How many finished request identifiers a session remembers.
pub const MAX_RECENT_REQUEST_IDS: usize = 128;

/// The remembered identifiers after finishing request `active`: a new one
/// is appended, and the oldest are forgotten beyond the limit.
pub open spec fn finished_recent(active: Option<Seq<char>>, recent: Seq<Seq<char>>) -> Seq<Seq<char>> {
    match active {
        None => recent,
        Some(id) => if recent.contains(id) {
            recent
        } else {
            let pushed = recent.push(id);
            if pushed.len() > MAX_RECENT_REQUEST_IDS {
                pushed.skip(pushed.len() - MAX_RECENT_REQUEST_IDS)
            } else {
                pushed
            }
        },
    }
}

/// The request a session is serving and the requests it finished lately,
/// oldest first.
pub struct RequestLedger {
    active_request_id: Option<String>,
    recent_request_ids: VecDeque<String>,
}

/// The view of an optional string.
pub open spec fn opt_string(o: Option<String>) -> Option<Seq<char>> {
    match o {
        Some(s) => Some(s@),
        None => None,
    }
}

impl RequestLedger {
    /// The request being served.
    pub closed spec fn active(self) -> Option<Seq<char>> {
        opt_string(self.active_request_id)
    }

    /// The requests finished lately, oldest first.
    pub closed spec fn recent(self) -> Seq<Seq<char>> {
        self.recent_request_ids@.map_values(|s: String| s@)
    }

    /// At most the limit, each once.
    pub open spec fn wf(self) -> bool {
        self.recent().len() <= MAX_RECENT_REQUEST_IDS && self.recent().no_duplicates()
    }

    /// No request served or finished yet.
    pub fn new() -> (r: Self)
        ensures
            r.wf(),
            r.active() is None,
            r.recent() == Seq::<Seq<char>>::empty(),
    {
        let r = RequestLedger { active_request_id: None, recent_request_ids: VecDeque::new() };
        assert(r.recent() =~= Seq::<Seq<char>>::empty());
        r
    }

    /// Starts serving `request_id` (or an anonymous request).
    pub fn begin_request(&mut self, request_id: Option<String>)
        ensures
            final(self).active() == opt_string(request_id),
            final(self).recent() == old(self).recent(),
            old(self).wf() ==> final(self).wf(),
    {
        self.active_request_id = request_id;
    }

    /// The request being served.
    pub fn active_request_id(&self) -> (r: Option<&str>)
        ensures
            match r {
                Some(s) => self.active() == Some(s@),
                None => self.active() is None,
            },
    {
        match &self.active_request_id {
            Some(s) => Some(s.as_str()),
            None => None,
        }
    }

    /// Whether `request_id` was finished lately.
    pub fn is_request_processed(&self, request_id: &str) -> (r: bool)
        ensures
            r == self.recent().contains(request_id@),
    {
        let mut i: usize = 0;
        while i < self.recent_request_ids.len()
            invariant
                i <= self.recent_request_ids@.len(),
                forall|k: int| 0 <= k < i ==> self.recent()[k] != request_id@,
            decreases self.recent_request_ids.len() - i,
        {
            if str_eq(self.recent_request_ids[i].as_str(), request_id) {
                assert(self.recent()[i as int] == request_id@);
                return true;
            }
            i += 1;
        }
        false
    }

    /// Finishes the request being served: it is remembered (once), and the
    /// oldest remembered requests are forgotten beyond the limit.
    pub fn finish_request(&mut self)
        requires
            old(self).wf(),
        ensures
            final(self).wf(),
            final(self).active() is None,
            final(self).recent() == finished_recent(old(self).active(), old(self).recent()),
    {
        let request_id = match self.active_request_id.take() {
            Some(id) => id,
            None => {
                return;
            },
        };
        if self.is_request_processed(request_id.as_str()) {
            return;
        }
        let ghost r0 = self.recent();
        let ghost pushed = r0.push(request_id@);
        self.recent_request_ids.push_back(request_id);
        assert(self.recent() =~= pushed.skip(0));
        let ghost mut d: int = 0;
        while self.recent_request_ids.len() > MAX_RECENT_REQUEST_IDS
            invariant
                self.active_request_id is None,
                0 <= d <= pushed.len(),
                self.recent() == pushed.skip(d),
                d == 0 || pushed.len() - d >= MAX_RECENT_REQUEST_IDS,
            decreases self.recent_request_ids.len(),
        {
            let ghost before = self.recent();
            self.recent_request_ids.pop_front();
            assert(self.recent() =~= before.skip(1));
            assert(pushed.skip(d + 1) =~= before.skip(1));
            proof {
                d = d + 1;
            }
        }
        proof {
            assert(pushed.no_duplicates()) by {
                assert forall|a: int, b: int| 0 <= a < b < pushed.len() implies pushed[a] != pushed[b] by {
                    if b == pushed.len() - 1 {
                        assert(!r0.contains(request_id@));
                        assert(r0[a] == pushed[a]);
                    } else {
                        assert(r0[a] == pushed[a] && r0[b] == pushed[b]);
                    }
                }
            }
            if pushed.len() > MAX_RECENT_REQUEST_IDS {
                assert(d == pushed.len() - MAX_RECENT_REQUEST_IDS);
            } else {
                assert(d == 0);
            }
            assert forall|a: int, b: int| 0 <= a < b < self.recent().len() implies self.recent()[a] != self.recent()[b] by {
                assert(self.recent()[a] == pushed[a + d]);
                assert(self.recent()[b] == pushed[b + d]);
            }
        }
    }
}

/// A finished request is remembered as finished.
pub proof fn law_finished_request_is_processed(id: Seq<char>, recent: Seq<Seq<char>>)
    requires
        recent.len() <= MAX_RECENT_REQUEST_IDS,
    ensures
        finished_recent(Some(id), recent).contains(id),
{
    let r = finished_recent(Some(id), recent);
    if !recent.contains(id) {
        let pushed = recent.push(id);
        assert(r[r.len() - 1] == id);
    }
}

/// A request identifier with its surrounding whitespace removed; a blank
/// one counts as none.
pub open spec fn normalized_request_id(request_id: Option<Seq<char>>) -> Option<Seq<char>> {
    match request_id {
        Some(id) => if trim_spec(id).len() == 0 {
            None
        } else {
            Some(trim_spec(id))
        },
        None => None,
    }
}

/// Trims a request identifier; a blank one becomes none.
pub fn normalize_request_id(request_id: Option<String>) -> (r: Option<String>)
    ensures
        opt_string(r) == normalized_request_id(opt_string(request_id)),
{
    match request_id {
        Some(id) => {
            let chars = to_chars(id.as_str());
            let t = trim_chars(&chars);
            if t.len() == 0 {
                None
            } else {
                Some(from_chars(t.as_slice()))
            }
        },
        None => None,
    }
}

/// Why a chat request was refused.
#[derive(Debug, Clone, Copy, PartialEq, Eq, Structural)]
pub enum StartChatError {
    SessionNotFound,
    /// The session already runs another request.
    SessionBusy,
    /// The request was already served.
    DuplicateRequestId,
}

/// Why a permission decision was refused.
#[derive(Debug, Clone, Copy, PartialEq, Eq, Structural)]
pub enum ResolvePermissionError {
    SessionNotFound,
    NoPendingApproval,
    ApprovalChannelClosed,
}

/// What an admitted chat request does.
#[derive(Debug, Clone, Copy, PartialEq, Eq, Structural)]
pub enum ChatAdmission {
    /// Start a new run of the loop.
    StartLoop,
    /// The same request is already running: follow its events.
    JoinRunning,
}

/// Whether a session is busy with a run.
pub open spec fn busy(state: SessionState) -> bool {
    state == SessionState::Running || state == SessionState::WaitingApproval
}

/// Decides a chat request on a session in `state` whose ledger is
/// `ledger`, with the request identifier as sent. A request already served
/// is refused; on a busy session only a retry of the running request is
/// let in (to follow its events); otherwise the session starts running the
/// request.
pub fn admit_chat(state: &mut SessionState, ledger: &mut RequestLedger, request_id: Option<String>) -> (r: Result<
    ChatAdmission,
    StartChatError,
>)
    requires
        old(ledger).wf(),
    ensures
        final(ledger).wf(),
        final(ledger).recent() == old(ledger).recent(),
        match normalized_request_id(opt_string(request_id)) {
            Some(id) => if old(ledger).recent().contains(id) {
                r == Err::<ChatAdmission, StartChatError>(StartChatError::DuplicateRequestId)
                    && *final(state) == *old(state) && final(ledger).active() == old(ledger).active()
            } else if busy(*old(state)) {
                if old(ledger).active() == Some(id) {
                    r == Ok::<ChatAdmission, StartChatError>(ChatAdmission::JoinRunning)
                        && *final(state) == *old(state) && final(ledger).active() == old(ledger).active()
                } else {
                    r == Err::<ChatAdmission, StartChatError>(StartChatError::SessionBusy)
                        && *final(state) == *old(state) && final(ledger).active() == old(ledger).active()
                }
            } else {
                r == Ok::<ChatAdmission, StartChatError>(ChatAdmission::StartLoop)
                    && *final(state) == SessionState::Running && final(ledger).active() == Some(id)
            },
            None => if busy(*old(state)) {
                r == Err::<ChatAdmission, StartChatError>(StartChatError::SessionBusy)
                    && *final(state) == *old(state) && final(ledger).active() == old(ledger).active()
            } else {
                r == Ok::<ChatAdmission, StartChatError>(ChatAdmission::StartLoop)
                    && *final(state) == SessionState::Running && final(ledger).active() is None
            },
        },
{
    let normalized = normalize_request_id(request_id);
    let is_busy = *state == SessionState::Running || *state == SessionState::WaitingApproval;
    match normalized {
        Some(req_id) => {
            if ledger.is_request_processed(req_id.as_str()) {
                return Err(StartChatError::DuplicateRequestId);
            }
            if is_busy {
                let same = match ledger.active_request_id() {
                    Some(a) => str_eq(a, req_id.as_str()),
                    None => false,
                };
                if same {
                    Ok(ChatAdmission::JoinRunning)
                } else {
                    Err(StartChatError::SessionBusy)
                }
            } else {
                *state = SessionState::Running;
                ledger.begin_request(Some(req_id));
                Ok(ChatAdmission::StartLoop)
            }
        },
        None => {
            if is_busy {
                return Err(StartChatError::SessionBusy);
            }
            *state = SessionState::Running;
            ledger.begin_request(None);
            Ok(ChatAdmission::StartLoop)
        },
    }
}

/// Takes a pending permission decision: refused when none is pending; a
/// session waiting for approval runs again.
pub fn take_pending_approval<T>(state: &mut SessionState, pending: &mut Option<T>) -> (r: Result<
    T,
    ResolvePermissionError,
>)
    ensures
        r is Ok <==> *old(pending) is Some,
        r matches Ok(t) ==> *old(pending) == Some(t),
        r is Err ==> r == Err::<T, ResolvePermissionError>(ResolvePermissionError::NoPendingApproval),
        *final(pending) is None,
        r is Ok && *old(state) == SessionState::WaitingApproval ==> *final(state) == SessionState::Running,
        !(r is Ok && *old(state) == SessionState::WaitingApproval) ==> *final(state) == *old(state),
{
    let taken = pending.take();
    match taken {
        Some(t) => {
            if *state == SessionState::WaitingApproval {
                *state = SessionState::Running;
            }
            Ok(t)
        },
        None => Err(ResolvePermissionError::NoPendingApproval),
    }
}

} // verus!
