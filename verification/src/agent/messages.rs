//! Chat messages, and their translation into the message list of a chat
//! completions request.

use vstd::prelude::*;
use crate::agent::provider::Role;
use crate::text::push_str;

verus! {

/// A piece of a message: text, a tool call, or a tool's result.
#[derive(Debug, Clone)]
pub enum ContentBlock {
    Text { text: String },
    /// A call of tool `name`; `input` holds its arguments as JSON text.
    ToolUse { id: String, name: String, input: String },
    ToolResult { tool_use_id: String, content: String, is_error: bool },
}

/// One message of a conversation.
#[derive(Debug, Clone)]
pub struct Message {
    pub role: Role,
    pub content: Vec<ContentBlock>,
}

/// A tool call as a chat completions request carries it.
#[derive(Debug, Clone)]
pub struct WireToolCall {
    pub id: String,
    pub name: String,
    pub arguments: String,
}

/// A message as a chat completions request carries it.
#[derive(Debug, Clone)]
pub enum WireMessage {
    System { content: String },
    User { content: String },
    Tool { content: String, tool_call_id: String },
    Assistant { content: Option<String>, tool_calls: Option<Vec<WireToolCall>> },
}

// ─── Reading a message ───────────────────────────────────────────

/// The first text piece of `bs`, if any.
pub open spec fn first_text(bs: Seq<ContentBlock>) -> Option<String>
    decreases bs.len(),
{
    if bs.len() == 0 {
        None
    } else {
        match first_text(bs.drop_last()) {
            Some(t) => Some(t),
            None => match bs.last() {
                ContentBlock::Text { text } => Some(text),
                _ => None,
            },
        }
    }
}

/// The text pieces of `bs`, joined.
pub open spec fn joined_text(bs: Seq<ContentBlock>) -> Seq<char>
    decreases bs.len(),
{
    if bs.len() == 0 {
        Seq::empty()
    } else {
        joined_text(bs.drop_last()) + match bs.last() {
            ContentBlock::Text { text } => text@,
            _ => Seq::empty(),
        }
    }
}

pub open spec fn has_text(bs: Seq<ContentBlock>) -> bool {
    exists|i: int| 0 <= i < bs.len() && bs[i] is Text
}

pub open spec fn has_tool_use(bs: Seq<ContentBlock>) -> bool {
    exists|i: int| 0 <= i < bs.len() && bs[i] is ToolUse
}

impl Message {
    /// A user message holding `text`.
    pub fn user(text: String) -> (r: Self)
        ensures
            r.role == Role::User,
            r.content@ == seq![ContentBlock::Text { text }],
    {
        let mut content: Vec<ContentBlock> = Vec::new();
        content.push(ContentBlock::Text { text });
        Message { role: Role::User, content }
    }

    /// An assistant message holding `text`.
    pub fn assistant(text: String) -> (r: Self)
        ensures
            r.role == Role::Assistant,
            r.content@ == seq![ContentBlock::Text { text }],
    {
        let mut content: Vec<ContentBlock> = Vec::new();
        content.push(ContentBlock::Text { text });
        Message { role: Role::Assistant, content }
    }

    /// An assistant message made of the given pieces (its tool calls).
    pub fn assistant_tool_calls(calls: Vec<ContentBlock>) -> (r: Self)
        ensures
            r.role == Role::Assistant,
            r.content == calls,
    {
        Message { role: Role::Assistant, content: calls }
    }

    /// A user message carrying the result of tool call `tool_use_id`.
    pub fn tool_result(tool_use_id: String, content: String, is_error: bool) -> (r: Self)
        ensures
            r.role == Role::User,
            r.content@ == seq![ContentBlock::ToolResult { tool_use_id, content, is_error }],
    {
        let mut blocks: Vec<ContentBlock> = Vec::new();
        blocks.push(ContentBlock::ToolResult { tool_use_id, content, is_error });
        Message { role: Role::User, content: blocks }
    }

    /// The first text piece of the message, if any.
    pub fn text_content(&self) -> (r: Option<&String>)
        ensures
            first_text(self.content@) matches Some(t) ==> r matches Some(s) && *s == t,
            first_text(self.content@) is None ==> r is None,
    {
        let mut i: usize = 0;
        while i < self.content.len()
            invariant
                i <= self.content@.len(),
                first_text(self.content@.take(i as int)) is None,
            decreases self.content.len() - i,
        {
            proof {
                assert(self.content@.take(i + 1).drop_last() =~= self.content@.take(i as int));
            }
            match &self.content[i] {
                ContentBlock::Text { text } => {
                    proof {
                        lemma_first_text_prefix(self.content@, i as int + 1);
                    }
                    return Some(text);
                },
                _ => {},
            }
            i += 1;
        }
        proof {
            assert(self.content@.take(self.content@.len() as int) =~= self.content@);
        }
        None
    }
}

/// The first text of a sequence is the first text of any prefix that has
/// one.
proof fn lemma_first_text_prefix(bs: Seq<ContentBlock>, n: int)
    requires
        0 <= n <= bs.len(),
        first_text(bs.take(n)) is Some,
    ensures
        first_text(bs) == first_text(bs.take(n)),
    decreases bs.len(),
{
    if n < bs.len() {
        assert(bs.drop_last().take(n) =~= bs.take(n));
        lemma_first_text_prefix(bs.drop_last(), n);
    } else {
        assert(bs.take(n) =~= bs);
    }
}

// ─── The request's messages ──────────────────────────────────────

/// `cs` are the tool calls of the pieces `bs`, in order.
pub open spec fn calls_of(cs: Seq<WireToolCall>, bs: Seq<ContentBlock>) -> bool
    decreases bs.len(),
{
    if bs.len() == 0 {
        cs.len() == 0
    } else {
        match bs.last() {
            ContentBlock::ToolUse { id, name, input } => cs.len() > 0 && cs.last() == (WireToolCall {
                id,
                name,
                arguments: input,
            }) && calls_of(cs.drop_last(), bs.drop_last()),
            _ => calls_of(cs, bs.drop_last()),
        }
    }
}

/// `ws` are the request messages of the pieces `bs` of a user message: one
/// user message per text, one tool message per tool result.
pub open spec fn user_parts(ws: Seq<WireMessage>, bs: Seq<ContentBlock>) -> bool
    decreases bs.len(),
{
    if bs.len() == 0 {
        ws.len() == 0
    } else {
        match bs.last() {
            ContentBlock::Text { text } => ws.len() > 0 && ws.last() == (WireMessage::User { content: text })
                && user_parts(ws.drop_last(), bs.drop_last()),
            ContentBlock::ToolResult { tool_use_id, content, .. } => ws.len() > 0 && ws.last() == (WireMessage::Tool {
                content,
                tool_call_id: tool_use_id,
            }) && user_parts(ws.drop_last(), bs.drop_last()),
            _ => user_parts(ws, bs.drop_last()),
        }
    }
}

/// The content and calls of the request message of an assistant message
/// with tool calls: its texts joined (none if it has no text), and its
/// calls.
pub open spec fn assistant_ok(content: Option<String>, tool_calls: Option<Vec<WireToolCall>>, bs: Seq<ContentBlock>) -> bool {
    &&& if has_text(bs) {
        content matches Some(c) && c@ == joined_text(bs)
    } else {
        content is None
    }
    &&& tool_calls matches Some(cs) && calls_of(cs@, bs)
}

/// `ws` are the request messages of message `m`: a system message gives
/// one with its first text (empty if none); a user message gives one per
/// text or tool result; an assistant message with tool calls gives one
/// holding its texts joined (none if it has no text) and its calls; any
/// other assistant message gives one with its first text, if it has one.
pub open spec fn message_parts(ws: Seq<WireMessage>, m: Message) -> bool {
    let bs = m.content@;
    match m.role {
        Role::System => ws.len() == 1 && (ws[0] matches WireMessage::System { content } && match first_text(bs) {
            Some(t) => content == t,
            None => content@.len() == 0,
        }),
        Role::User => user_parts(ws, bs),
        Role::Assistant => if has_tool_use(bs) {
            ws.len() == 1 && (ws[0] matches WireMessage::Assistant { content, tool_calls } && assistant_ok(
                content,
                tool_calls,
                bs,
            ))
        } else {
            match first_text(bs) {
                Some(t) => ws == seq![WireMessage::Assistant { content: Some(t), tool_calls: None }],
                None => ws.len() == 0,
            }
        },
    }
}

/// `ws` are the request messages of the conversation `ms`, message by
/// message.
pub open spec fn converted(ws: Seq<WireMessage>, ms: Seq<Message>) -> bool
    decreases ms.len(),
{
    if ms.len() == 0 {
        ws.len() == 0
    } else {
        exists|k: int|
            #![trigger ws.take(k)]
            0 <= k <= ws.len() && converted(ws.take(k), ms.drop_last()) && message_parts(ws.skip(k), ms.last())
    }
}

fn user_messages(bs: &Vec<ContentBlock>) -> (r: Vec<WireMessage>)
    ensures
        user_parts(r@, bs@),
{
    let mut r: Vec<WireMessage> = Vec::new();
    let mut j: usize = 0;
    while j < bs.len()
        invariant
            j <= bs@.len(),
            user_parts(r@, bs@.take(j as int)),
        decreases bs.len() - j,
    {
        let ghost prev = r@;
        proof {
            assert(bs@.take(j + 1).drop_last() =~= bs@.take(j as int));
            assert(bs@.take(j + 1).last() == bs@[j as int]);
        }
        match &bs[j] {
            ContentBlock::Text { text } => {
                r.push(WireMessage::User { content: text.clone() });
                assert(r@.drop_last() =~= prev);
            },
            ContentBlock::ToolResult { tool_use_id, content, .. } => {
                r.push(WireMessage::Tool { content: content.clone(), tool_call_id: tool_use_id.clone() });
                assert(r@.drop_last() =~= prev);
            },
            _ => {},
        }
        j += 1;
    }
    proof {
        assert(bs@.take(bs@.len() as int) =~= bs@);
    }
    r
}

fn assistant_with_calls(bs: &Vec<ContentBlock>) -> (r: WireMessage)
    requires
        has_tool_use(bs@),
    ensures
        r matches WireMessage::Assistant { content, tool_calls } && assistant_ok(content, tool_calls, bs@),
{
    let mut text = String::new();
    let mut any_text = false;
    let mut calls: Vec<WireToolCall> = Vec::new();
    let mut j: usize = 0;
    proof {
        assert(text@ =~= joined_text(bs@.take(0)));
    }
    while j < bs.len()
        invariant
            j <= bs@.len(),
            text@ == joined_text(bs@.take(j as int)),
            any_text == has_text(bs@.take(j as int)),
            calls_of(calls@, bs@.take(j as int)),
        decreases bs.len() - j,
    {
        let ghost prev = calls@;
        let ghost t = bs@.take(j + 1);
        proof {
            assert(t.drop_last() =~= bs@.take(j as int));
            assert(t.last() == bs@[j as int]);
        }
        match &bs[j] {
            ContentBlock::Text { text: s } => {
                push_str(&mut text, s.as_str());
                any_text = true;
                assert(t[j as int] is Text);
            },
            ContentBlock::ToolUse { id, name, input } => {
                calls.push(WireToolCall { id: id.clone(), name: name.clone(), arguments: input.clone() });
                assert(calls@.drop_last() =~= prev);
                assert(text@ =~= joined_text(t));
            },
            ContentBlock::ToolResult { .. } => {
                assert(text@ =~= joined_text(t));
            },
        }
        proof {
            if has_text(t) && !has_text(bs@.take(j as int)) {
                let i = choose|i: int| 0 <= i < t.len() && t[i] is Text;
                if i < j {
                    assert(bs@.take(j as int)[i] == t[i]);
                }
            }
            if has_text(bs@.take(j as int)) {
                let i = choose|i: int| 0 <= i < j && bs@.take(j as int)[i] is Text;
                assert(t[i] == bs@.take(j as int)[i]);
            }
        }
        j += 1;
    }
    proof {
        assert(bs@.take(bs@.len() as int) =~= bs@);
    }
    let content = if any_text {
        Some(text)
    } else {
        None
    };
    WireMessage::Assistant { content, tool_calls: Some(calls) }
}

fn any_tool_use(bs: &Vec<ContentBlock>) -> (r: bool)
    ensures
        r == has_tool_use(bs@),
{
    let mut j: usize = 0;
    while j < bs.len()
        invariant
            j <= bs@.len(),
            forall|i: int| 0 <= i < j ==> !(bs@[i] is ToolUse),
        decreases bs.len() - j,
    {
        if let ContentBlock::ToolUse { .. } = &bs[j] {
            return true;
        }
        j += 1;
    }
    false
}

/// The request messages of one message (see `message_parts`).
fn message_to_wire(m: &Message) -> (r: Vec<WireMessage>)
    ensures
        message_parts(r@, *m),
{
    let mut r: Vec<WireMessage> = Vec::new();
    match m.role {
        Role::System => {
            let content = match m.text_content() {
                Some(t) => t.clone(),
                None => String::new(),
            };
            r.push(WireMessage::System { content });
        },
        Role::User => {
            r = user_messages(&m.content);
        },
        Role::Assistant => {
            if any_tool_use(&m.content) {
                r.push(assistant_with_calls(&m.content));
            } else {
                match m.text_content() {
                    Some(t) => {
                        r.push(WireMessage::Assistant { content: Some(t.clone()), tool_calls: None });
                    },
                    None => {},
                }
            }
        },
    }
    r
}

/// Translates a conversation into the messages of a chat completions
/// request, message by message (see `message_parts`).
pub fn convert_messages(messages: &Vec<Message>) -> (r: Vec<WireMessage>)
    ensures
        converted(r@, messages@),
{
    let mut r: Vec<WireMessage> = Vec::new();
    let mut i: usize = 0;
    while i < messages.len()
        invariant
            i <= messages@.len(),
            converted(r@, messages@.take(i as int)),
        decreases messages.len() - i,
    {
        let part = message_to_wire(&messages[i]);
        let ghost prev = r@;
        let mut part_mut = part;
        let ghost pv = part_mut@;
        r.append(&mut part_mut);
        proof {
            let ms = messages@.take(i + 1);
            assert(ms.drop_last() =~= messages@.take(i as int));
            assert(ms.last() == messages@[i as int]);
            let k = prev.len() as int;
            assert(r@.take(k) =~= prev);
            assert(r@.skip(k) =~= pv);
        }
        i += 1;
    }
    proof {
        assert(messages@.take(messages@.len() as int) =~= messages@);
    }
    r
}

} // verus!
