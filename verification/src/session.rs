//! Session management and message handling.
//!
//! A session is an ordered log of messages. Token accounting is a cheap
//! length-based approximation: one token per four characters, rounded up.

use vstd::prelude::*;

use crate::error::ContextError;

verus! {

/// Role of a message in the conversation.
#[derive(Debug, Clone, Copy, PartialEq, Eq, Structural)]
pub enum MessageRole {
    System,
    User,
    Assistant,
    Tool,
}

/// A single message in a conversation.
///
/// The identifier is the 128-bit value of a version-4 UUID; the timestamp
/// counts milliseconds since the Unix epoch. Metadata is an open key-value
/// bag that the core never interprets; keys are unique.
#[derive(Debug, Clone)]
pub struct Message {
    pub id: u128,
    pub role: MessageRole,
    pub content: String,
    pub timestamp: i64,
    pub token_count: Option<usize>,
    pub metadata: Vec<(String, String)>,
}

/// Estimated token count of a character sequence: `ceil(length / 4)`.
pub open spec fn spec_estimate_chars(s: Seq<char>) -> nat {
    ((s.len() + 3) / 4) as nat
}

/// Estimated token count of a message: its cached count if present,
/// else the estimate derived from its content.
pub open spec fn spec_estimated_tokens(m: Message) -> nat {
    match m.token_count {
        Some(c) => c as nat,
        None => spec_estimate_chars(m.content@),
    }
}

/// Sum of the estimated token counts of a message sequence.
pub open spec fn total_tokens_of(msgs: Seq<Message>) -> nat
    decreases msgs.len(),
{
    if msgs.len() == 0 {
        0
    } else {
        spec_estimated_tokens(msgs[0]) + total_tokens_of(msgs.drop_first())
    }
}

/// The messages with a timestamp strictly greater than `since`, in order.
pub open spec fn since_kept(msgs: Seq<Message>, since: i64) -> Seq<Message>
    decreases msgs.len(),
{
    if msgs.len() == 0 {
        Seq::empty()
    } else if msgs[0].timestamp > since {
        seq![msgs[0]] + since_kept(msgs.drop_first(), since)
    } else {
        since_kept(msgs.drop_first(), since)
    }
}

/// A metadata bag with `key` bound to `value`: the first pair holding `key`
/// is replaced, and a missing key is appended at the end.
pub open spec fn meta_set(
    md: Seq<(String, String)>,
    key: String,
    value: String,
) -> Seq<(String, String)>
    decreases md.len(),
{
    if md.len() == 0 {
        seq![(key, value)]
    } else if md[0].0@ == key@ {
        seq![(key, value)] + md.drop_first()
    } else {
        seq![md[0]] + meta_set(md.drop_first(), key, value)
    }
}

/// The turns appear in non-decreasing timestamp order.
pub open spec fn chronological(msgs: Seq<Message>) -> bool {
    forall|i: int, j: int| 0 <= i < j < msgs.len() ==> msgs[i].timestamp <= msgs[j].timestamp
}

/// Relies on `uuid::Uuid::new_v4` for a random version-4 identifier and on
/// `uuid::Uuid::as_u128` for its 128 bits. The value is random; nothing is
/// promised of it.
#[verifier::external_body]
fn fresh_id() -> u128 {
    uuid::Uuid::new_v4().as_u128()
}

/// Relies on `chrono::Utc::now` (which panics if the system clock is before
/// the Unix epoch, so a returned value is at or after it) and on
/// `chrono::DateTime::timestamp_millis`: milliseconds since the epoch.
#[verifier::external_body]
fn now_millis() -> (r: i64)
    ensures
        0 <= r,
{
    chrono::Utc::now().timestamp_millis()
}

/// Relies on `chrono::DateTime::from_timestamp_millis` and chrono's formatter
/// to render a human-readable session name from a timestamp. Nothing is
/// relied on about the text.
#[verifier::external_body]
fn session_name_for(ms: i64) -> String {
    match chrono::DateTime::<chrono::Utc>::from_timestamp_millis(ms) {
        Some(t) => format!("session-{}", t.format("%Y%m%d-%H%M%S")),
        None => format!("session-{}", ms),
    }
}

impl Message {
    /// Create a new message with a fresh identifier and the current time.
    pub fn new(role: MessageRole, content: String) -> (r: Self)
        ensures
            r.role == role,
            r.content == content,
            r.token_count is None,
            r.metadata@ == Seq::<(String, String)>::empty(),
    {
        Self {
            id: fresh_id(),
            role,
            content,
            timestamp: now_millis(),
            token_count: None,
            metadata: Vec::new(),
        }
    }

    /// Create a new system message.
    pub fn system(content: String) -> (r: Self)
        ensures
            r.role == MessageRole::System,
            r.content == content,
            r.token_count is None,
            r.metadata@ == Seq::<(String, String)>::empty(),
    {
        Self::new(MessageRole::System, content)
    }

    /// Create a new user message.
    pub fn user(content: String) -> (r: Self)
        ensures
            r.role == MessageRole::User,
            r.content == content,
            r.token_count is None,
            r.metadata@ == Seq::<(String, String)>::empty(),
    {
        Self::new(MessageRole::User, content)
    }

    /// Create a new assistant message.
    pub fn assistant(content: String) -> (r: Self)
        ensures
            r.role == MessageRole::Assistant,
            r.content == content,
            r.token_count is None,
            r.metadata@ == Seq::<(String, String)>::empty(),
    {
        Self::new(MessageRole::Assistant, content)
    }

    /// Create a new tool message.
    pub fn tool(content: String) -> (r: Self)
        ensures
            r.role == MessageRole::Tool,
            r.content == content,
            r.token_count is None,
            r.metadata@ == Seq::<(String, String)>::empty(),
    {
        Self::new(MessageRole::Tool, content)
    }

    /// Set the cached token count for this message.
    pub fn with_token_count(self, count: usize) -> (r: Self)
        ensures
            r.id == self.id,
            r.role == self.role,
            r.content == self.content,
            r.timestamp == self.timestamp,
            r.token_count == Some(count),
            r.metadata == self.metadata,
    {
        Message { token_count: Some(count), ..self }
    }

    /// Bind `key` to `value` in this message's metadata bag, replacing any
    /// earlier binding of the same key.
    pub fn with_metadata(self, key: String, value: String) -> (r: Self)
        ensures
            r.id == self.id,
            r.role == self.role,
            r.content == self.content,
            r.timestamp == self.timestamp,
            r.token_count == self.token_count,
            r.metadata@ == meta_set(self.metadata@, key, value),
    {
        let Message { id, role, content, timestamp, token_count, mut metadata } = self;
        let ghost orig = metadata@;
        proof {
            assert(orig.skip(0) =~= orig);
            assert(orig.take(0) + meta_set(orig, key, value) =~= meta_set(orig, key, value));
        }
        let mut i: usize = 0;
        let mut found = false;
        while i < metadata.len() && !found
            invariant
                0 <= i <= metadata@.len(),
                metadata@ == orig,
                !found ==> meta_set(orig, key, value) == orig.take(i as int) + meta_set(
                    orig.skip(i as int),
                    key,
                    value,
                ),
                found ==> i < orig.len() && meta_set(orig, key, value) == orig.take(i as int)
                    + seq![(key, value)] + orig.skip(i as int + 1),
            decreases orig.len() - i + (if found { 0int } else { 1int }),
        {
            if metadata[i].0 == key {
                found = true;
                proof {
                    let tail = orig.skip(i as int);
                    assert(tail[0] == orig[i as int]);
                    assert(tail.drop_first() =~= orig.skip(i as int + 1));
                    assert(meta_set(tail, key, value) == seq![(key, value)] + orig.skip(
                        i as int + 1,
                    ));
                    assert(orig.take(i as int) + (seq![(key, value)] + orig.skip(i as int + 1))
                        =~= orig.take(i as int) + seq![(key, value)] + orig.skip(i as int + 1));
                }
            } else {
                proof {
                    let tail = orig.skip(i as int);
                    assert(tail[0] == orig[i as int]);
                    assert(tail.drop_first() =~= orig.skip(i as int + 1));
                    assert(orig.take(i as int).push(orig[i as int]) =~= orig.take(i as int + 1));
                    assert(orig.take(i as int) + (seq![tail[0]] + meta_set(
                        tail.drop_first(),
                        key,
                        value,
                    )) =~= orig.take(i as int + 1) + meta_set(orig.skip(i as int + 1), key, value));
                }
                i = i + 1;
            }
        }
        if found {
            metadata.remove(i);
            metadata.insert(i, (key, value));
            proof {
                assert(metadata@ =~= orig.take(i as int) + seq![(key, value)] + orig.skip(
                    i as int + 1,
                ));
            }
        } else {
            metadata.push((key, value));
            proof {
                assert(orig.skip(i as int) =~= Seq::<(String, String)>::empty());
                assert(metadata@ =~= orig.take(i as int) + seq![(key, value)]);
            }
        }
        Message { id, role, content, timestamp, token_count, metadata }
    }

    /// Estimated token count: the cached count if set, else `ceil(chars / 4)`.
    pub fn estimate_tokens(&self) -> (r: usize)
        ensures
            r as nat == spec_estimated_tokens(*self),
    {
        match self.token_count {
            Some(c) => c,
            None => {
                let len = self.content.as_str().unicode_len();
                if len == 0 {
                    0
                } else {
                    let r = (len - 1) / 4 + 1;
                    proof {
                        assert(r as int == (len as int + 3) / 4) by (nonlinear_arith)
                            requires
                                1 <= len <= usize::MAX,
                                r == (len - 1) as int / 4 + 1,
                        ;
                    }
                    r
                }
            },
        }
    }
}

/// A conversation session: an ordered sequence of messages plus bookkeeping.
#[derive(Debug, Clone)]
pub struct Session {
    pub id: u128,
    pub name: String,
    pub created_at: i64,
    pub updated_at: i64,
    pub messages: Vec<Message>,
    pub metadata: Vec<(String, String)>,
}

impl Session {
    /// The session's bookkeeping invariant: it was not updated before it
    /// was created.
    pub open spec fn wf(self) -> bool {
        self.created_at <= self.updated_at
    }

    /// Create a new empty session named after the current time.
    pub fn new() -> (r: Self)
        ensures
            r.wf(),
            r.created_at == r.updated_at,
            r.messages@ == Seq::<Message>::empty(),
            r.metadata@ == Seq::<(String, String)>::empty(),
    {
        let now = now_millis();
        Self {
            id: fresh_id(),
            name: session_name_for(now),
            created_at: now,
            updated_at: now,
            messages: Vec::new(),
            metadata: Vec::new(),
        }
    }

    /// Create a new empty session with a custom name.
    pub fn with_name(name: String) -> (r: Self)
        ensures
            r.wf(),
            r.name == name,
            r.created_at == r.updated_at,
            r.messages@ == Seq::<Message>::empty(),
            r.metadata@ == Seq::<(String, String)>::empty(),
    {
        let now = now_millis();
        Self {
            id: fresh_id(),
            name,
            created_at: now,
            updated_at: now,
            messages: Vec::new(),
            metadata: Vec::new(),
        }
    }

    /// Advance the update timestamp to the current time; a clock that has
    /// gone backwards never rewinds it.
    fn touch(&mut self)
        ensures
            final (self).id == old(self).id,
            final (self).name == old(self).name,
            final (self).created_at == old(self).created_at,
            final (self).messages == old(self).messages,
            final (self).metadata == old(self).metadata,
            final (self).updated_at >= old(self).updated_at,
    {
        let t = now_millis();
        if t > self.updated_at {
            self.updated_at = t;
        }
    }

    /// Append a message to the session.
    pub fn add_message(&mut self, message: Message)
        ensures
            final (self).messages@ == old(self).messages@.push(message),
            final (self).id == old(self).id,
            final (self).name == old(self).name,
            final (self).created_at == old(self).created_at,
            final (self).metadata == old(self).metadata,
            final (self).updated_at >= old(self).updated_at,
            old(self).wf() ==> final (self).wf(),
    {
        self.messages.push(message);
        self.touch();
    }

    /// Append a user message with the given content.
    pub fn add_user_message(&mut self, content: String)
        ensures
            final (self).messages@.len() == old(self).messages@.len() + 1,
            final (self).messages@.last().role == MessageRole::User,
            final (self).messages@.last().content == content,
            final (self).messages@.drop_last() == old(self).messages@,
            final (self).id == old(self).id,
            final (self).name == old(self).name,
            final (self).created_at == old(self).created_at,
            final (self).metadata == old(self).metadata,
            final (self).updated_at >= old(self).updated_at,
    {
        self.add_message(Message::user(content));
        proof {
            assert(final (self).messages@.drop_last() =~= old(self).messages@);
        }
    }

    /// Append an assistant message with the given content.
    pub fn add_assistant_message(&mut self, content: String)
        ensures
            final (self).messages@.len() == old(self).messages@.len() + 1,
            final (self).messages@.last().role == MessageRole::Assistant,
            final (self).messages@.last().content == content,
            final (self).messages@.drop_last() == old(self).messages@,
            final (self).id == old(self).id,
            final (self).name == old(self).name,
            final (self).created_at == old(self).created_at,
            final (self).metadata == old(self).metadata,
            final (self).updated_at >= old(self).updated_at,
    {
        self.add_message(Message::assistant(content));
        proof {
            assert(final (self).messages@.drop_last() =~= old(self).messages@);
        }
    }

    /// Append a system message with the given content.
    pub fn add_system_message(&mut self, content: String)
        ensures
            final (self).messages@.len() == old(self).messages@.len() + 1,
            final (self).messages@.last().role == MessageRole::System,
            final (self).messages@.last().content == content,
            final (self).messages@.drop_last() == old(self).messages@,
            final (self).id == old(self).id,
            final (self).name == old(self).name,
            final (self).created_at == old(self).created_at,
            final (self).metadata == old(self).metadata,
            final (self).updated_at >= old(self).updated_at,
    {
        self.add_message(Message::system(content));
        proof {
            assert(final (self).messages@.drop_last() =~= old(self).messages@);
        }
    }

    /// Append a tool message with the given content.
    pub fn add_tool_message(&mut self, content: String)
        ensures
            final (self).messages@.len() == old(self).messages@.len() + 1,
            final (self).messages@.last().role == MessageRole::Tool,
            final (self).messages@.last().content == content,
            final (self).messages@.drop_last() == old(self).messages@,
            final (self).id == old(self).id,
            final (self).name == old(self).name,
            final (self).created_at == old(self).created_at,
            final (self).metadata == old(self).metadata,
            final (self).updated_at >= old(self).updated_at,
    {
        self.add_message(Message::tool(content));
        proof {
            assert(final (self).messages@.drop_last() =~= old(self).messages@);
        }
    }

    /// Total estimated token count of all messages.
    pub fn total_tokens(&self) -> (r: usize)
        requires
            total_tokens_of(self.messages@) <= usize::MAX,
        ensures
            r as nat == total_tokens_of(self.messages@),
    {
        let ghost msgs = self.messages@;
        proof {
            assert(msgs.skip(0) =~= msgs);
        }
        let mut sum: usize = 0;
        let mut i: usize = 0;
        while i < self.messages.len()
            invariant
                0 <= i <= msgs.len(),
                self.messages@ == msgs,
                total_tokens_of(msgs) <= usize::MAX,
                sum as nat + total_tokens_of(msgs.skip(i as int)) == total_tokens_of(msgs),
            decreases msgs.len() - i,
        {
            proof {
                lemma_total_tokens_skip(msgs, i as int);
            }
            let t = self.messages[i].estimate_tokens();
            sum = sum + t;
            i = i + 1;
        }
        proof {
            assert(msgs.skip(msgs.len() as int) =~= Seq::<Message>::empty());
        }
        sum
    }

    /// All messages with a timestamp strictly after `since`, in order.
    pub fn messages_since(&self, since: i64) -> (r: Vec<&Message>)
        ensures
            r@.map_values(|m: &Message| *m) == since_kept(self.messages@, since),
    {
        let ghost msgs = self.messages@;
        let mut r: Vec<&Message> = Vec::new();
        proof {
            assert(msgs.skip(0) =~= msgs);
            assert(r@.map_values(|m: &Message| *m) =~= Seq::<Message>::empty());
            assert(Seq::<Message>::empty() + since_kept(msgs, since) =~= since_kept(msgs, since));
        }
        let mut i: usize = 0;
        while i < self.messages.len()
            invariant
                0 <= i <= msgs.len(),
                self.messages@ == msgs,
                r@.map_values(|m: &Message| *m) + since_kept(msgs.skip(i as int), since)
                    == since_kept(msgs, since),
            decreases msgs.len() - i,
        {
            let ghost pre = r@.map_values(|m: &Message| *m);
            let ghost tail = msgs.skip(i as int);
            proof {
                assert(tail[0] == msgs[i as int]);
                assert(tail.drop_first() =~= msgs.skip(i as int + 1));
            }
            if self.messages[i].timestamp > since {
                let m = &self.messages[i];
                proof {
                    assert(*m == msgs[i as int]);
                }
                r.push(m);
                proof {
                    assert(r@.map_values(|m: &Message| *m) =~= pre.push(msgs[i as int]));
                    assert(pre.push(msgs[i as int]) + since_kept(msgs.skip(i as int + 1), since)
                        =~= pre + (seq![msgs[i as int]] + since_kept(
                        msgs.skip(i as int + 1),
                        since,
                    )));
                }
            }
            i = i + 1;
        }
        proof {
            assert(msgs.skip(msgs.len() as int) =~= Seq::<Message>::empty());
            assert(r@.map_values(|m: &Message| *m) + Seq::<Message>::empty() =~= r@.map_values(
                |m: &Message| *m,
            ));
        }
        r
    }

    /// The most recent `count` messages in original order; the full sequence
    /// if `count` is at least the session length.
    pub fn recent_messages(&self, count: usize) -> (r: Vec<&Message>)
        ensures
            r@.map_values(|m: &Message| *m) == self.messages@.skip(
                if count >= self.messages@.len() {
                    0
                } else {
                    self.messages@.len() - count
                },
            ),
    {
        let ghost msgs = self.messages@;
        let start: usize = if count >= self.messages.len() {
            0
        } else {
            self.messages.len() - count
        };
        let mut r: Vec<&Message> = Vec::new();
        let mut i: usize = start;
        while i < self.messages.len()
            invariant
                start <= i <= msgs.len(),
                self.messages@ == msgs,
                r@.len() == i - start,
                forall|k: int| 0 <= k < r@.len() ==> *(#[trigger] r@[k]) == msgs[start + k],
            decreases msgs.len() - i,
        {
            let m = &self.messages[i];
            proof {
                assert(*m == msgs[i as int]);
            }
            r.push(m);
            i = i + 1;
        }
        proof {
            assert(r@.map_values(|m: &Message| *m) =~= msgs.skip(start as int));
        }
        r
    }

    /// Drop the oldest messages until the log fits `max_tokens` or is empty.
    fn compact_sliding(&mut self, max_tokens: usize)
        requires
            total_tokens_of(old(self).messages@) <= usize::MAX,
        ensures
            final (self).messages@ == crate::compaction::sliding_kept(
                old(self).messages@,
                max_tokens as nat,
            ),
            final (self).id == old(self).id,
            final (self).name == old(self).name,
            final (self).created_at == old(self).created_at,
            final (self).updated_at == old(self).updated_at,
            final (self).metadata == old(self).metadata,
    {
        loop
            invariant
                total_tokens_of(self.messages@) <= usize::MAX,
                crate::compaction::sliding_kept(self.messages@, max_tokens as nat)
                    == crate::compaction::sliding_kept(old(self).messages@, max_tokens as nat),
                self.id == old(self).id,
                self.name == old(self).name,
                self.created_at == old(self).created_at,
                self.updated_at == old(self).updated_at,
                self.metadata == old(self).metadata,
            ensures
                total_tokens_of(self.messages@) <= max_tokens || self.messages@.len() == 0,
                crate::compaction::sliding_kept(self.messages@, max_tokens as nat)
                    == crate::compaction::sliding_kept(old(self).messages@, max_tokens as nat),
                self.id == old(self).id,
                self.name == old(self).name,
                self.created_at == old(self).created_at,
                self.updated_at == old(self).updated_at,
                self.metadata == old(self).metadata,
            decreases self.messages@.len(),
        {
            let t = self.total_tokens();
            if t > max_tokens && self.messages.len() > 0 {
                let ghost pre = self.messages@;
                let _ = self.messages.remove(0);
                proof {
                    assert(self.messages@ =~= pre.drop_first());
                }
            } else {
                break ;
            }
        }
    }

    /// Keep System turns within `system_tokens`, then the most recent
    /// non-System turns within `recent_tokens`; the two budgets are
    /// evaluated independently.
    fn compact_system_and_recent(&mut self, system_tokens: usize, recent_tokens: usize)
        requires
            total_tokens_of(old(self).messages@) <= usize::MAX,
        ensures
            final (self).messages@ == crate::compaction::system_and_recent_kept(
                old(self).messages@,
                system_tokens as nat,
                recent_tokens as nat,
            ),
            final (self).id == old(self).id,
            final (self).name == old(self).name,
            final (self).created_at == old(self).created_at,
            final (self).updated_at == old(self).updated_at,
            final (self).metadata == old(self).metadata,
    {
        let ghost orig = self.messages@;
        let mut sys: Vec<Message> = Vec::new();
        let mut rest: Vec<Message> = Vec::new();
        let mut used: usize = 0;
        let ghost mut k: int = 0;
        proof {
            assert(orig.skip(0) =~= orig);
            assert(Seq::<Message>::empty() + crate::compaction::system_kept(
                orig,
                system_tokens as nat,
                0,
            ) =~= crate::compaction::system_kept(orig, system_tokens as nat, 0));
            assert(Seq::<Message>::empty() + crate::compaction::non_system(orig)
                =~= crate::compaction::non_system(orig));
        }
        while self.messages.len() > 0
            invariant
                0 <= k <= orig.len(),
                self.messages@ == orig.skip(k),
                used <= system_tokens,
                crate::compaction::system_kept(orig, system_tokens as nat, 0) == sys@
                    + crate::compaction::system_kept(orig.skip(k), system_tokens as nat, used as nat),
                crate::compaction::non_system(orig) == rest@ + crate::compaction::non_system(
                    orig.skip(k),
                ),
                self.id == old(self).id,
                self.name == old(self).name,
                self.created_at == old(self).created_at,
                self.updated_at == old(self).updated_at,
                self.metadata == old(self).metadata,
            decreases orig.len() - k,
        {
            let ghost tail = orig.skip(k);
            let m = self.messages.remove(0);
            let t = m.estimate_tokens();
            proof {
                assert(tail[0] == orig[k]);
                assert(m == tail[0]);
                assert(tail.drop_first() =~= orig.skip(k + 1));
                assert(self.messages@ =~= orig.skip(k + 1));
            }
            if m.role == MessageRole::System {
                if t <= system_tokens - used {
                    let ghost pre = sys@;
                    let ghost used0 = used as nat;
                    sys.push(m);
                    used = used + t;
                    proof {
                        assert(used as nat == used0 + t);
                        assert(crate::compaction::system_kept(tail, system_tokens as nat, used0)
                            == seq![tail[0]] + crate::compaction::system_kept(
                            orig.skip(k + 1),
                            system_tokens as nat,
                            used as nat,
                        ));
                        assert(pre + (seq![tail[0]] + crate::compaction::system_kept(
                            orig.skip(k + 1),
                            system_tokens as nat,
                            used as nat,
                        )) =~= sys@ + crate::compaction::system_kept(
                            orig.skip(k + 1),
                            system_tokens as nat,
                            used as nat,
                        ));
                    }
                }
            } else {
                let ghost pre = rest@;
                rest.push(m);
                proof {
                    assert(crate::compaction::non_system(tail) == seq![tail[0]]
                        + crate::compaction::non_system(orig.skip(k + 1)));
                    assert(pre + (seq![tail[0]] + crate::compaction::non_system(orig.skip(k + 1)))
                        =~= rest@ + crate::compaction::non_system(orig.skip(k + 1)));
                }
            }
            proof {
                k = k + 1;
            }
        }
        proof {
            assert(orig.skip(orig.len() as int) =~= Seq::<Message>::empty());
            assert(sys@ + Seq::<Message>::empty() =~= sys@);
            assert(rest@ + Seq::<Message>::empty() =~= rest@);
            assert(sys@ == crate::compaction::system_kept(orig, system_tokens as nat, 0));
            assert(rest@ == crate::compaction::non_system(orig));
        }
        let ghost full = rest@;
        let mut rec: Vec<Message> = Vec::new();
        let mut rused: usize = 0;
        proof {
            assert(crate::compaction::recent_kept(full, recent_tokens as nat, 0) + Seq::<
                Message,
            >::empty() =~= crate::compaction::recent_kept(full, recent_tokens as nat, 0));
        }
        loop
            invariant_except_break
                rused <= recent_tokens,
                crate::compaction::recent_kept(full, recent_tokens as nat, 0)
                    == crate::compaction::recent_kept(rest@, recent_tokens as nat, rused as nat)
                    + rec@,
            ensures
                rec@ == crate::compaction::recent_kept(full, recent_tokens as nat, 0),
            decreases rest@.len(),
        {
            if rest.len() == 0 {
                proof {
                    assert(crate::compaction::recent_kept(rest@, recent_tokens as nat, rused as nat)
                        == Seq::<Message>::empty());
                    assert(Seq::<Message>::empty() + rec@ =~= rec@);
                }
                break ;
            }
            let ghost pre = rest@;
            let m_opt = rest.pop();
            let m = m_opt.unwrap();
            let t = m.estimate_tokens();
            proof {
                assert(m == pre.last());
                assert(rest@ =~= pre.drop_last());
            }
            if t <= recent_tokens - rused {
                let ghost rpre = rec@;
                let ghost rused0 = rused as nat;
                rec.insert(0, m);
                rused = rused + t;
                proof {
                    assert(rused as nat == rused0 + t);
                    assert(crate::compaction::recent_kept(pre, recent_tokens as nat, rused0)
                        == crate::compaction::recent_kept(
                        pre.drop_last(),
                        recent_tokens as nat,
                        rused as nat,
                    ) + seq![pre.last()]);
                    assert(rec@ =~= seq![pre.last()] + rpre);
                    assert(crate::compaction::recent_kept(
                        pre.drop_last(),
                        recent_tokens as nat,
                        rused as nat,
                    ) + (seq![pre.last()] + rpre) =~= (crate::compaction::recent_kept(
                        pre.drop_last(),
                        recent_tokens as nat,
                        rused as nat,
                    ) + seq![pre.last()]) + rpre);
                }
            } else {
                proof {
                    assert(crate::compaction::recent_kept(pre, recent_tokens as nat, rused as nat)
                        == Seq::<Message>::empty());
                    assert(Seq::<Message>::empty() + rec@ =~= rec@);
                }
                break ;
            }
        }
        self.messages = sys;
        self.messages.append(&mut rec);
    }

    /// Reduce the log with the Intelligent policy under its default scorer
    /// configuration.
    fn compact_intelligent(&mut self, target_tokens: usize)
        requires
            total_tokens_of(old(self).messages@) <= usize::MAX,
        ensures
            final (self).id == old(self).id,
            final (self).name == old(self).name,
            final (self).created_at == old(self).created_at,
            final (self).updated_at == old(self).updated_at,
            final (self).metadata == old(self).metadata,
            total_tokens_of(old(self).messages@) <= target_tokens ==> final (self).messages@
                == old(self).messages@,
            total_tokens_of(old(self).messages@) > target_tokens ==> final (self).messages@
                == crate::compaction::intelligent_kept(
                crate::compaction::spec_default_compactor(),
                old(self).messages@,
                target_tokens as nat,
            ),
    {
        let compactor = crate::compaction::IntelligentCompactor::default();
        let _ = crate::compaction::ContextCompactor::compact(&compactor, self, target_tokens);
    }

    /// Apply a compaction strategy to reduce the log's token count: a no-op
    /// that leaves the session untouched when the log already fits
    /// `target_tokens`, else exactly what the policy keeps. Never fails.
    pub fn compact(&mut self, strategy: &crate::compaction::CompactionStrategy, target_tokens: usize) -> (r:
        Result<(), ContextError>)
        requires
            total_tokens_of(old(self).messages@) <= usize::MAX,
        ensures
            r is Ok,
            final (self).id == old(self).id,
            final (self).name == old(self).name,
            final (self).created_at == old(self).created_at,
            final (self).metadata == old(self).metadata,
            final (self).updated_at >= old(self).updated_at,
            old(self).wf() ==> final (self).wf(),
            total_tokens_of(old(self).messages@) <= target_tokens ==> *final (self) == *old(self),
            total_tokens_of(old(self).messages@) > target_tokens ==> final (self).messages@
                == crate::compaction::strategy_kept(*strategy, old(self).messages@),
    {
        let total = self.total_tokens();
        if total <= target_tokens {
            return Ok(());
        }
        match strategy {
            crate::compaction::CompactionStrategy::Sliding { max_tokens } => {
                self.compact_sliding(*max_tokens);
            },
            crate::compaction::CompactionStrategy::SystemAndRecent {
                system_tokens,
                recent_tokens,
            } => {
                self.compact_system_and_recent(*system_tokens, *recent_tokens);
            },
            crate::compaction::CompactionStrategy::Intelligent { target_tokens: goal } => {
                self.compact_intelligent(*goal);
            },
        }
        self.touch();
        Ok(())
    }

    /// One unit of work: append a turn, then compact if the log exceeds
    /// `max_tokens`. Compaction always happens after the append, so a log
    /// handed to persistence afterwards is within budget whenever the policy
    /// can reach it.
    pub fn append_and_compact(
        &mut self,
        message: Message,
        strategy: &crate::compaction::CompactionStrategy,
        max_tokens: usize,
    ) -> (r: Result<(), ContextError>)
        requires
            total_tokens_of(old(self).messages@.push(message)) <= usize::MAX,
        ensures
            r is Ok,
            final (self).id == old(self).id,
            final (self).name == old(self).name,
            final (self).created_at == old(self).created_at,
            final (self).metadata == old(self).metadata,
            final (self).updated_at >= old(self).updated_at,
            old(self).wf() ==> final (self).wf(),
            total_tokens_of(old(self).messages@.push(message)) <= max_tokens
                ==> final (self).messages@ == old(self).messages@.push(message),
            total_tokens_of(old(self).messages@.push(message)) > max_tokens
                ==> final (self).messages@ == crate::compaction::strategy_kept(
                *strategy,
                old(self).messages@.push(message),
            ),
    {
        self.add_message(message);
        let total = self.total_tokens();
        if total > max_tokens {
            self.compact(strategy, max_tokens)
        } else {
            Ok(())
        }
    }
}

/// Peeling one message off the front of a sum of estimated token counts.
pub proof fn lemma_total_tokens_skip(msgs: Seq<Message>, i: int)
    requires
        0 <= i < msgs.len(),
    ensures
        total_tokens_of(msgs.skip(i)) == spec_estimated_tokens(msgs[i]) + total_tokens_of(
            msgs.skip(i + 1),
        ),
{
    assert(msgs.skip(i)[0] == msgs[i]);
    assert(msgs.skip(i).drop_first() =~= msgs.skip(i + 1));
}

/// The sum of estimated token counts distributes over concatenation.
pub proof fn lemma_total_tokens_add(a: Seq<Message>, b: Seq<Message>)
    ensures
        total_tokens_of(a + b) == total_tokens_of(a) + total_tokens_of(b),
    decreases a.len(),
{
    if a.len() == 0 {
        assert(a + b =~= b);
    } else {
        assert((a + b).drop_first() =~= a.drop_first() + b);
        lemma_total_tokens_add(a.drop_first(), b);
    }
}

} // verus!
