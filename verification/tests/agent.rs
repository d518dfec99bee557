//! Agent loop phases, chat admission, request ledger and permissions.

use wem_kernel::agent::permission::{Permission, PermissionGate};
use wem_kernel::agent::phase::{advance_phase, AgentError, LoopPhase};
use wem_kernel::agent::session::{
    admit_chat, normalize_request_id, take_pending_approval, ChatAdmission, Phase, RequestLedger, ResolvePermissionError,
    SessionState, StartChatError, MAX_RECENT_REQUEST_IDS,
};
use wem_kernel::agent::tools::ToolResult;
use wem_kernel::agent::messages::{convert_messages, ContentBlock, Message, WireMessage};
use wem_kernel::agent::provider::Role;
use wem_kernel::agent::tool_calls::{begin_approval, finish_approval, plan_tool_call, step_for_permission, ApprovalOutcome, ToolStep};
use wem_kernel::agent::context::ContextManager;

#[test]
fn loop_phase_transitions() {
    assert!(LoopPhase::Initializing.can_transition_to(LoopPhase::PreparingTurn));
    assert!(LoopPhase::ExecutingTools.can_transition_to(LoopPhase::PreparingTurn));
    assert!(LoopPhase::Completed.can_transition_to(LoopPhase::Completed));
    assert!(!LoopPhase::Completed.can_transition_to(LoopPhase::PreparingTurn));
    assert!(!LoopPhase::StreamingModel.can_transition_to(LoopPhase::Initializing));
    let mut p = LoopPhase::Initializing;
    assert!(advance_phase(&mut p, LoopPhase::PreparingTurn).is_ok());
    assert_eq!(p, LoopPhase::PreparingTurn);
    match advance_phase(&mut p, LoopPhase::ExecutingTools) {
        Err(AgentError::InvalidPhaseTransition(msg)) => assert_eq!(msg, "PreparingTurn -> ExecutingTools"),
        _ => panic!("expected an invalid transition"),
    }
    assert_eq!(p, LoopPhase::PreparingTurn);
}

#[test]
fn client_phase_names() {
    assert_eq!(Phase::from_loop_phase(LoopPhase::StreamingModel), Phase::StreamingModel);
    assert_eq!(Phase::from_loop_phase(LoopPhase::ExecutingTools).name(), "executing_tools");
    assert_eq!(Phase::PreparingTurn.name(), "preparing_turn");
}

#[test]
fn request_ledger_remembers_finished_requests() {
    let mut l = RequestLedger::new();
    l.begin_request(Some("r1".to_string()));
    assert_eq!(l.active_request_id(), Some("r1"));
    assert!(!l.is_request_processed("r1"));
    l.finish_request();
    assert_eq!(l.active_request_id(), None);
    assert!(l.is_request_processed("r1"));
    l.begin_request(None);
    l.finish_request();
    assert!(!l.is_request_processed(""));
}

#[test]
fn request_ledger_forgets_oldest_beyond_limit() {
    let mut l = RequestLedger::new();
    for i in 0..(MAX_RECENT_REQUEST_IDS + 2) {
        l.begin_request(Some(format!("r{}", i)));
        l.finish_request();
    }
    assert!(!l.is_request_processed("r0"));
    assert!(!l.is_request_processed("r1"));
    assert!(l.is_request_processed("r2"));
    assert!(l.is_request_processed(&format!("r{}", MAX_RECENT_REQUEST_IDS + 1)));
}

#[test]
fn request_ids_are_trimmed() {
    assert_eq!(normalize_request_id(Some("  abc ".to_string())), Some("abc".to_string()));
    assert_eq!(normalize_request_id(Some("   ".to_string())), None);
    assert_eq!(normalize_request_id(None), None);
}

#[test]
fn chat_admission() {
    let mut state = SessionState::Idle;
    let mut l = RequestLedger::new();
    assert_eq!(admit_chat(&mut state, &mut l, Some(" r1 ".to_string())), Ok(ChatAdmission::StartLoop));
    assert_eq!(state, SessionState::Running);
    assert_eq!(l.active_request_id(), Some("r1"));
    assert_eq!(admit_chat(&mut state, &mut l, Some("r1".to_string())), Ok(ChatAdmission::JoinRunning));
    assert_eq!(admit_chat(&mut state, &mut l, Some("r2".to_string())), Err(StartChatError::SessionBusy));
    assert_eq!(admit_chat(&mut state, &mut l, None), Err(StartChatError::SessionBusy));
    l.finish_request();
    state = SessionState::Completed;
    assert_eq!(admit_chat(&mut state, &mut l, Some("r1".to_string())), Err(StartChatError::DuplicateRequestId));
    assert_eq!(admit_chat(&mut state, &mut l, None), Ok(ChatAdmission::StartLoop));
}

#[test]
fn pending_approval_is_taken_once() {
    let mut state = SessionState::WaitingApproval;
    let mut pending = Some(7u8);
    assert_eq!(take_pending_approval(&mut state, &mut pending), Ok(7));
    assert_eq!(state, SessionState::Running);
    assert_eq!(take_pending_approval(&mut state, &mut pending), Err(ResolvePermissionError::NoPendingApproval));
}

#[test]
fn permissions() {
    let mut gate = PermissionGate::new();
    assert_eq!(gate.check("file_read"), Permission::Auto);
    assert!(!gate.is_approved("shell", "abc"));
    gate.approve("shell", "abc");
    assert!(gate.is_approved("shell", "abc"));
    assert!(!gate.is_approved("shell", "abd"));
    assert_eq!(gate.check_with_cache("shell", "abc"), Permission::Auto);
}

#[test]
fn tool_results_and_context() {
    let ok = ToolResult::ok("done".to_string());
    assert!(!ok.is_error);
    assert_eq!(ok.content, "done");
    let err = ToolResult::error("boom".to_string());
    assert!(err.is_error);
    assert_eq!(ContextManager::new(1000).max_tokens(), 1000);
}

#[test]
fn tool_outside_allowed_list_is_refused() {
    let mut gate = PermissionGate::new();
    let allowed = vec!["file_read".to_string()];
    match plan_tool_call(&allowed, &mut gate, "shell_exec", "{}", false) {
        ToolStep::Refuse(m) => assert_eq!(m, "Tool 'shell_exec' is not allowed in this session"),
        other => panic!("unexpected {:?}", other),
    }
    assert!(matches!(plan_tool_call(&allowed, &mut gate, "file_read", "{}", false), ToolStep::Run));
    assert!(matches!(plan_tool_call(&Vec::new(), &mut gate, "anything", "{}", true), ToolStep::Run));
}

#[test]
fn permission_steps() {
    match step_for_permission(Permission::Deny, "shell_exec", false) {
        ToolStep::Refuse(m) => assert_eq!(m, "Permission denied for tool: shell_exec"),
        other => panic!("unexpected {:?}", other),
    }
    match step_for_permission(Permission::Ask, "shell_exec", true) {
        ToolStep::Refuse(m) => assert_eq!(m, "Another tool approval is already pending"),
        other => panic!("unexpected {:?}", other),
    }
    assert!(matches!(step_for_permission(Permission::Ask, "shell_exec", false), ToolStep::Ask));
    assert!(matches!(step_for_permission(Permission::Auto, "shell_exec", false), ToolStep::Run));
}

#[test]
fn approval_wait_and_outcomes() {
    let mut gate = PermissionGate::new();
    let mut state = SessionState::Running;
    let mut pending: Option<String> = None;
    begin_approval(&mut state, &mut pending, "shell_exec".to_string());
    assert_eq!(state, SessionState::WaitingApproval);
    assert_eq!(pending.as_deref(), Some("shell_exec"));
    let step = finish_approval(&mut state, &mut pending, &mut gate, "shell_exec", "d1", ApprovalOutcome::Approved);
    assert!(matches!(step, ToolStep::Run));
    assert_eq!(state, SessionState::Running);
    assert!(pending.is_none());
    assert!(gate.is_approved("shell_exec", "d1"));

    begin_approval(&mut state, &mut pending, "shell_exec".to_string());
    match finish_approval(&mut state, &mut pending, &mut gate, "shell_exec", "d2", ApprovalOutcome::Rejected) {
        ToolStep::Refuse(m) => assert_eq!(m, "Permission denied for tool: shell_exec"),
        other => panic!("unexpected {:?}", other),
    }
    assert!(!gate.is_approved("shell_exec", "d2"));
    let failed = ApprovalOutcome::Failed("Tool approval timed out".to_string());
    match finish_approval(&mut state, &mut pending, &mut gate, "shell_exec", "d3", failed) {
        ToolStep::Refuse(m) => assert_eq!(m, "Tool approval timed out"),
        other => panic!("unexpected {:?}", other),
    }
}

#[test]
fn conversation_converts_message_by_message() {
    let sys = Message { role: Role::System, content: vec![ContentBlock::Text { text: "be brief".to_string() }] };
    let user = Message {
        role: Role::User,
        content: vec![
            ContentBlock::Text { text: "hi".to_string() },
            ContentBlock::ToolResult { tool_use_id: "t1".to_string(), content: "42".to_string(), is_error: false },
        ],
    };
    let calls = Message::assistant_tool_calls(vec![
        ContentBlock::Text { text: "a".to_string() },
        ContentBlock::ToolUse { id: "t2".to_string(), name: "file_read".to_string(), input: "{\"path\":\"x\"}".to_string() },
        ContentBlock::Text { text: "b".to_string() },
    ]);
    let plain = Message::assistant("done".to_string());
    let empty = Message::assistant_tool_calls(Vec::new());
    let wire = convert_messages(&vec![sys, user, calls, plain, empty]);
    assert_eq!(wire.len(), 5);
    assert!(matches!(&wire[0], WireMessage::System { content } if content == "be brief"));
    assert!(matches!(&wire[1], WireMessage::User { content } if content == "hi"));
    assert!(matches!(&wire[2], WireMessage::Tool { content, tool_call_id } if content == "42" && tool_call_id == "t1"));
    match &wire[3] {
        WireMessage::Assistant { content, tool_calls } => {
            assert_eq!(content.as_deref(), Some("ab"));
            let cs = tool_calls.as_ref().unwrap();
            assert_eq!(cs.len(), 1);
            assert_eq!(cs[0].id, "t2");
            assert_eq!(cs[0].name, "file_read");
            assert_eq!(cs[0].arguments, "{\"path\":\"x\"}");
        },
        other => panic!("unexpected {:?}", other),
    }
    assert!(matches!(&wire[4], WireMessage::Assistant { content: Some(c), tool_calls: None } if c == "done"));
}

#[test]
fn message_text_content_is_first_text() {
    let m = Message::tool_result("t".to_string(), "out".to_string(), true);
    assert!(m.text_content().is_none());
    let u = Message::user("hello".to_string());
    assert_eq!(u.text_content().map(|s| s.as_str()), Some("hello"));
}
