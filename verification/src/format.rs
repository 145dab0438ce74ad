//! Message format abstraction for downstream consumers.
//!
//! A format adapter converts between the session representation and a
//! downstream wire representation, estimates per-message token counts, and
//! reports the context window the downstream consumer allows.

use vstd::prelude::*;

use crate::error::ContextError;
use crate::session::Message;
use crate::session::MessageRole;
use crate::session::Session;
use crate::session::spec_estimate_chars;

verus! {

/// Capability for converting between the session representation and a
/// downstream wire representation `T`.
pub trait MessageFormat<T> {
    /// Convert session messages to the downstream format.
    fn from_session(&self, session: &Session) -> Result<Vec<T>, ContextError>;

    /// Convert downstream messages back to a session.
    fn to_session(&self, messages: &[T], session_name: String) -> Result<Session, ContextError>;

    /// Estimate the token count of a single downstream message.
    fn estimate_tokens(&self, message: &T) -> usize;

    /// The maximum context window size for this format.
    fn max_context_tokens(&self) -> usize;
}

/// Estimated token count of a text: `ceil(chars / 4)`.
fn estimate_text_tokens(s: &str) -> (r: usize)
    ensures
        r as nat == spec_estimate_chars(s@),
{
    let len = s.unicode_len();
    if len == 0 {
        0
    } else {
        let r = (len - 1) / 4 + 1;
        proof {
            assert(r as int == (len as int + 3) / 4) by (nonlinear_arith)
                requires
                    1 <= len <= usize::MAX,
                    r == (len - 1) as int / 4 + 1,
            ;
        }
        r
    }
}

/// Wire role label of a session role in the Bedrock format; tool results are
/// sent as user messages.
pub open spec fn bedrock_role_label(r: MessageRole) -> Seq<char> {
    match r {
        MessageRole::System => "system"@,
        MessageRole::User => "user"@,
        MessageRole::Assistant => "assistant"@,
        MessageRole::Tool => "user"@,
    }
}

/// Session role parsed from a Bedrock wire label; unknown labels fall back
/// to the user role.
pub open spec fn bedrock_parsed_role(label: Seq<char>) -> MessageRole {
    if label == "system"@ {
        MessageRole::System
    } else if label == "user"@ {
        MessageRole::User
    } else if label == "assistant"@ {
        MessageRole::Assistant
    } else {
        MessageRole::User
    }
}

/// Wire role label of a session role in the OpenAI format; tool results are
/// sent with the function role.
pub open spec fn openai_role_label(r: MessageRole) -> Seq<char> {
    match r {
        MessageRole::System => "system"@,
        MessageRole::User => "user"@,
        MessageRole::Assistant => "assistant"@,
        MessageRole::Tool => "function"@,
    }
}

/// Session role parsed from an OpenAI wire label; unknown labels fall back
/// to the user role.
pub open spec fn openai_parsed_role(label: Seq<char>) -> MessageRole {
    if label == "system"@ {
        MessageRole::System
    } else if label == "user"@ {
        MessageRole::User
    } else if label == "assistant"@ {
        MessageRole::Assistant
    } else if label == "function"@ {
        MessageRole::Tool
    } else {
        MessageRole::User
    }
}

/// AWS Bedrock message format.
#[derive(Debug, Clone)]
pub struct BedrockFormat {
    pub max_tokens: usize,
}

impl Default for BedrockFormat {
    /// A conservative default context window.
    fn default() -> (r: Self)
        ensures
            r.max_tokens == 8000,
    {
        Self { max_tokens: 8000 }
    }
}

impl BedrockFormat {
    /// A Bedrock format with the given context window.
    pub fn new(max_tokens: usize) -> (r: Self)
        ensures
            r.max_tokens == max_tokens,
    {
        Self { max_tokens }
    }
}

/// Simplified Bedrock message representation for the format trait.
#[derive(Debug, Clone)]
pub struct BedrockMessage {
    pub role: String,
    pub content: String,
}

impl MessageFormat<BedrockMessage> for BedrockFormat {
    /// Render every session message with its Bedrock role label and its
    /// content, in order. Never fails.
    fn from_session(&self, session: &Session) -> (r: Result<Vec<BedrockMessage>, ContextError>)
        ensures
            r matches Ok(v) && v@.len() == session.messages@.len() && (forall|i: int|
                0 <= i < v@.len() ==> (#[trigger] v@[i]).role@ == bedrock_role_label(
                    session.messages@[i].role,
                ) && v@[i].content@ == session.messages@[i].content@),
    {
        let ghost msgs = session.messages@;
        let mut out: Vec<BedrockMessage> = Vec::new();
        let mut i: usize = 0;
        while i < session.messages.len()
            invariant
                0 <= i <= msgs.len(),
                session.messages@ == msgs,
                out@.len() == i,
                forall|k: int|
                    0 <= k < i ==> (#[trigger] out@[k]).role@ == bedrock_role_label(msgs[k].role)
                        && out@[k].content@ == msgs[k].content@,
            decreases msgs.len() - i,
        {
            let m = &session.messages[i];
            let label: &str = match m.role {
                MessageRole::System => "system",
                MessageRole::User => "user",
                MessageRole::Assistant => "assistant",
                MessageRole::Tool => "user",
            };
            out.push(BedrockMessage { role: String::from_str(label), content: m.content.clone() });
            i = i + 1;
        }
        Ok(out)
    }

    /// Build a session named `session_name` whose messages carry the parsed
    /// role and the content of each wire message, in order. Never fails.
    fn to_session(&self, messages: &[BedrockMessage], session_name: String) -> (r: Result<
        Session,
        ContextError,
    >)
        ensures
            r matches Ok(s) && s.wf() && s.name == session_name && s.messages@.len()
                == messages@.len() && (forall|i: int|
                0 <= i < messages@.len() ==> (#[trigger] s.messages@[i]).role
                    == bedrock_parsed_role(messages@[i].role@) && s.messages@[i].content@
                    == messages@[i].content@ && s.messages@[i].token_count is None),
    {
        let ghost wire = messages@;
        let mut session = Session::with_name(session_name);
        let sys_label = String::from_str("system");
        let user_label = String::from_str("user");
        let asst_label = String::from_str("assistant");
        let mut i: usize = 0;
        while i < messages.len()
            invariant
                0 <= i <= wire.len(),
                messages@ == wire,
                sys_label@ == "system"@,
                user_label@ == "user"@,
                asst_label@ == "assistant"@,
                session.wf(),
                session.name == session_name,
                session.messages@.len() == i,
                forall|k: int|
                    0 <= k < i ==> (#[trigger] session.messages@[k]).role == bedrock_parsed_role(
                        wire[k].role@,
                    ) && session.messages@[k].content@ == wire[k].content@
                        && session.messages@[k].token_count is None,
            decreases wire.len() - i,
        {
            let w = &messages[i];
            let role = if w.role == sys_label {
                MessageRole::System
            } else if w.role == user_label {
                MessageRole::User
            } else if w.role == asst_label {
                MessageRole::Assistant
            } else {
                MessageRole::User
            };
            proof {
                assert(role == bedrock_parsed_role(wire[i as int].role@));
            }
            session.add_message(Message::new(role, w.content.clone()));
            i = i + 1;
        }
        Ok(session)
    }

    /// Estimated token count of a wire message: `ceil(chars / 4)`.
    fn estimate_tokens(&self, message: &BedrockMessage) -> (r: usize)
        ensures
            r as nat == spec_estimate_chars(message.content@),
    {
        estimate_text_tokens(message.content.as_str())
    }

    /// The configured context window.
    fn max_context_tokens(&self) -> (r: usize)
        ensures
            r == self.max_tokens,
    {
        self.max_tokens
    }
}

/// OpenAI message format.
#[derive(Debug, Clone)]
pub struct OpenAIFormat {
    pub max_tokens: usize,
}

impl Default for OpenAIFormat {
    /// The GPT-3.5 context window.
    fn default() -> (r: Self)
        ensures
            r.max_tokens == 4000,
    {
        Self { max_tokens: 4000 }
    }
}

impl OpenAIFormat {
    /// An OpenAI format with the given context window.
    pub fn new(max_tokens: usize) -> (r: Self)
        ensures
            r.max_tokens == max_tokens,
    {
        Self { max_tokens }
    }

    /// The GPT-4 context window.
    pub fn gpt4() -> (r: Self)
        ensures
            r.max_tokens == 8000,
    {
        Self { max_tokens: 8000 }
    }

    /// The GPT-4 Turbo context window.
    pub fn gpt4_turbo() -> (r: Self)
        ensures
            r.max_tokens == 128000,
    {
        Self { max_tokens: 128000 }
    }
}

/// Simplified OpenAI message representation.
#[derive(Debug, Clone)]
pub struct OpenAIMessage {
    pub role: String,
    pub content: String,
}

impl MessageFormat<OpenAIMessage> for OpenAIFormat {
    /// Render every session message with its OpenAI role label and its
    /// content, in order. Never fails.
    fn from_session(&self, session: &Session) -> (r: Result<Vec<OpenAIMessage>, ContextError>)
        ensures
            r matches Ok(v) && v@.len() == session.messages@.len() && (forall|i: int|
                0 <= i < v@.len() ==> (#[trigger] v@[i]).role@ == openai_role_label(
                    session.messages@[i].role,
                ) && v@[i].content@ == session.messages@[i].content@),
    {
        let ghost msgs = session.messages@;
        let mut out: Vec<OpenAIMessage> = Vec::new();
        let mut i: usize = 0;
        while i < session.messages.len()
            invariant
                0 <= i <= msgs.len(),
                session.messages@ == msgs,
                out@.len() == i,
                forall|k: int|
                    0 <= k < i ==> (#[trigger] out@[k]).role@ == openai_role_label(msgs[k].role)
                        && out@[k].content@ == msgs[k].content@,
            decreases msgs.len() - i,
        {
            let m = &session.messages[i];
            let label: &str = match m.role {
                MessageRole::System => "system",
                MessageRole::User => "user",
                MessageRole::Assistant => "assistant",
                MessageRole::Tool => "function",
            };
            out.push(OpenAIMessage { role: String::from_str(label), content: m.content.clone() });
            i = i + 1;
        }
        Ok(out)
    }

    /// Build a session named `session_name` whose messages carry the parsed
    /// role and the content of each wire message, in order. Never fails.
    fn to_session(&self, messages: &[OpenAIMessage], session_name: String) -> (r: Result<
        Session,
        ContextError,
    >)
        ensures
            r matches Ok(s) && s.wf() && s.name == session_name && s.messages@.len()
                == messages@.len() && (forall|i: int|
                0 <= i < messages@.len() ==> (#[trigger] s.messages@[i]).role == openai_parsed_role(
                    messages@[i].role@,
                ) && s.messages@[i].content@ == messages@[i].content@
                    && s.messages@[i].token_count is None),
    {
        let ghost wire = messages@;
        let mut session = Session::with_name(session_name);
        let sys_label = String::from_str("system");
        let user_label = String::from_str("user");
        let asst_label = String::from_str("assistant");
        let func_label = String::from_str("function");
        let mut i: usize = 0;
        while i < messages.len()
            invariant
                0 <= i <= wire.len(),
                messages@ == wire,
                sys_label@ == "system"@,
                user_label@ == "user"@,
                asst_label@ == "assistant"@,
                func_label@ == "function"@,
                session.wf(),
                session.name == session_name,
                session.messages@.len() == i,
                forall|k: int|
                    0 <= k < i ==> (#[trigger] session.messages@[k]).role == openai_parsed_role(
                        wire[k].role@,
                    ) && session.messages@[k].content@ == wire[k].content@
                        && session.messages@[k].token_count is None,
            decreases wire.len() - i,
        {
            let w = &messages[i];
            let role = if w.role == sys_label {
                MessageRole::System
            } else if w.role == user_label {
                MessageRole::User
            } else if w.role == asst_label {
                MessageRole::Assistant
            } else if w.role == func_label {
                MessageRole::Tool
            } else {
                MessageRole::User
            };
            proof {
                assert(role == openai_parsed_role(wire[i as int].role@));
            }
            session.add_message(Message::new(role, w.content.clone()));
            i = i + 1;
        }
        Ok(session)
    }

    /// Estimated token count of a wire message: `ceil(chars / 4)`.
    fn estimate_tokens(&self, message: &OpenAIMessage) -> (r: usize)
        ensures
            r as nat == spec_estimate_chars(message.content@),
    {
        estimate_text_tokens(message.content.as_str())
    }

    /// The configured context window.
    fn max_context_tokens(&self) -> (r: usize)
        ensures
            r == self.max_tokens,
    {
        self.max_tokens
    }
}

/// An OpenAI role label round-trips for every role: parsing the rendered
/// label of a role gives the role back.
pub proof fn lemma_openai_role_round_trip(r: MessageRole)
    ensures
        openai_parsed_role(openai_role_label(r)) == r,
{
    reveal_strlit("system");
    reveal_strlit("user");
    reveal_strlit("assistant");
    reveal_strlit("function");
    assert("system"@.len() == 6);
    assert("user"@.len() == 4);
    assert("assistant"@.len() == 9);
    assert("function"@.len() == 8);
}

/// A Bedrock role label round-trips for every role except Tool, which is
/// folded into the user role on the wire.
pub proof fn lemma_bedrock_role_round_trip(r: MessageRole)
    ensures
        r != MessageRole::Tool ==> bedrock_parsed_role(bedrock_role_label(r)) == r,
        bedrock_parsed_role(bedrock_role_label(MessageRole::Tool)) == MessageRole::User,
{
    reveal_strlit("system");
    reveal_strlit("user");
    reveal_strlit("assistant");
    assert("system"@.len() == 6);
    assert("user"@.len() == 4);
    assert("assistant"@.len() == 9);
}

} // verus!
