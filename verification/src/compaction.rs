//! Context compaction strategies.
//!
//! Three interchangeable policies reduce a conversation log to fit a token
//! budget by dropping whole turns, never reordering survivors within a scan.

use vstd::prelude::*;

use crate::error::ContextError;
use crate::session::Message;
use crate::session::MessageRole;
use crate::session::Session;
use crate::session::lemma_total_tokens_add;
use crate::session::lemma_total_tokens_skip;
use crate::session::spec_estimated_tokens;
use crate::session::total_tokens_of;
use vstd::set_lib::lemma_int_range;
use vstd::set_lib::set_int_range;

verus! {

/// Strategies for compacting conversation context when approaching token
/// limits. Each variant is a complete algorithm parameterized by budgets.
#[derive(Debug, Clone)]
pub enum CompactionStrategy {
    /// Remove oldest messages until the log fits `max_tokens` or is empty.
    Sliding { max_tokens: usize },
    /// Keep system messages within `system_tokens` plus the most recent
    /// non-system messages within `recent_tokens`; the two budgets are
    /// evaluated independently.
    SystemAndRecent { system_tokens: usize, recent_tokens: usize },
    /// Priority-ordered eviction preserving chronological order, aiming at
    /// `target_tokens`.
    Intelligent { target_tokens: usize },
}

impl Default for CompactionStrategy {
    /// The default policy: system messages within 1000 tokens plus recent
    /// conversation within 6000 tokens.
    fn default() -> (r: Self)
        ensures
            r == (CompactionStrategy::SystemAndRecent {
                system_tokens: 1000,
                recent_tokens: 6000,
            }),
    {
        Self::SystemAndRecent { system_tokens: 1000, recent_tokens: 6000 }
    }
}

/// The sliding policy: the longest suffix reached by repeatedly dropping the
/// oldest turn until the log fits `max_tokens` or is empty.
pub open spec fn sliding_kept(msgs: Seq<Message>, max_tokens: nat) -> Seq<Message>
    decreases msgs.len(),
{
    if total_tokens_of(msgs) <= max_tokens || msgs.len() == 0 {
        msgs
    } else {
        sliding_kept(msgs.drop_first(), max_tokens)
    }
}

/// Greedy oldest-to-newest keep of System turns whose cumulative tokens stay
/// within `budget`; a System turn that would overflow is skipped permanently
/// and scanning continues past it.
pub open spec fn system_kept(msgs: Seq<Message>, budget: nat, used: nat) -> Seq<Message>
    decreases msgs.len(),
{
    if msgs.len() == 0 {
        Seq::empty()
    } else {
        let t = spec_estimated_tokens(msgs[0]);
        if msgs[0].role is System && used + t <= budget {
            seq![msgs[0]] + system_kept(msgs.drop_first(), budget, (used + t) as nat)
        } else {
            system_kept(msgs.drop_first(), budget, used)
        }
    }
}

/// The non-System turns, in original order.
pub open spec fn non_system(msgs: Seq<Message>) -> Seq<Message>
    decreases msgs.len(),
{
    if msgs.len() == 0 {
        Seq::empty()
    } else if msgs[0].role is System {
        non_system(msgs.drop_first())
    } else {
        seq![msgs[0]] + non_system(msgs.drop_first())
    }
}

/// Greedy newest-to-oldest keep of turns whose cumulative tokens stay within
/// `budget`, stopping at the first turn that would overflow: all older turns
/// are dropped, even if individually small.
pub open spec fn recent_kept(msgs: Seq<Message>, budget: nat, used: nat) -> Seq<Message>
    decreases msgs.len(),
{
    if msgs.len() == 0 {
        Seq::empty()
    } else {
        let t = spec_estimated_tokens(msgs.last());
        if used + t <= budget {
            recent_kept(msgs.drop_last(), budget, (used + t) as nat) + seq![msgs.last()]
        } else {
            Seq::empty()
        }
    }
}

/// The SystemAndRecent policy: kept System turns (in original relative order)
/// followed by kept recent non-System turns (in original relative order).
/// System turns are always grouped first, even when they appear after
/// non-System turns chronologically: only order within each group is kept.
pub open spec fn system_and_recent_kept(
    msgs: Seq<Message>,
    system_budget: nat,
    recent_budget: nat,
) -> Seq<Message> {
    system_kept(msgs, system_budget, 0) + recent_kept(non_system(msgs), recent_budget, 0)
}

/// Smart compactor that preserves high-priority messages.
///
/// Priorities are per-mille fixed-point numbers: each signal is normalized
/// to 0..=1000 and multiplied by a per-mille weight.
pub struct IntelligentCompactor {
    /// Minimum number of recent messages to always keep.
    pub min_recent_messages: usize,
    /// Per-mille weight for recency in priority calculation.
    pub recency_weight: u32,
    /// Per-mille weight for role in priority calculation.
    pub role_weight: u32,
    /// Per-mille weight for length of content in priority calculation.
    pub content_weight: u32,
}

impl Default for IntelligentCompactor {
    /// Keep at least the 5 most recent messages; weight recency at 1.0,
    /// role at 0.5 and content length at 0.3.
    fn default() -> (r: Self)
        ensures
            r == spec_default_compactor(),
    {
        Self { min_recent_messages: 5, recency_weight: 1000, role_weight: 500, content_weight: 300 }
    }
}

/// The default retention-scorer configuration.
pub open spec fn spec_default_compactor() -> IntelligentCompactor {
    IntelligentCompactor {
        min_recent_messages: 5,
        recency_weight: 1000,
        role_weight: 500,
        content_weight: 300,
    }
}

/// Role signal, per mille: system messages are important, tool results are
/// valuable, user turns matter least.
pub open spec fn role_score_milli(r: MessageRole) -> int {
    match r {
        MessageRole::System => 1000,
        MessageRole::Tool => 800,
        MessageRole::Assistant => 600,
        MessageRole::User => 400,
    }
}

/// Content-length signal, per mille: one point per character, capped at 1000.
pub open spec fn content_milli(m: Message) -> int {
    if m.content@.len() <= 1000 {
        m.content@.len() as int
    } else {
        1000
    }
}

/// Recency signal, per mille: position scaled by the log length, capped.
pub open spec fn recency_milli(i: int, n: int) -> int {
    if (i * 1000) / n <= 1000 {
        (i * 1000) / n
    } else {
        1000
    }
}

/// Retention score of the message at index `i`: the weighted sum of the
/// recency, role and content signals.
#[verifier::opaque]
pub open spec fn spec_priority(c: IntelligentCompactor, msgs: Seq<Message>, i: int) -> int {
    recency_milli(i, msgs.len() as int) * (c.recency_weight as int) + role_score_milli(
        msgs[i].role,
    ) * (c.role_weight as int) + content_milli(msgs[i]) * (c.content_weight as int)
}

/// Candidate `i` is evicted strictly later than candidate `j`: it scores
/// higher, or scores equally and is older. This is a strict total order on
/// distinct indices, which makes the scan order deterministic.
pub open spec fn ranked_before(c: IntelligentCompactor, msgs: Seq<Message>, i: int, j: int) -> bool {
    spec_priority(c, msgs, i) > spec_priority(c, msgs, j) || (spec_priority(c, msgs, i)
        == spec_priority(c, msgs, j) && i < j)
}

/// The candidate in `pending` that every other pending candidate ranks after.
pub open spec fn best_candidate(c: IntelligentCompactor, msgs: Seq<Message>, pending: Set<int>) -> int {
    choose|i: int|
        pending.contains(i) && (forall|j: int|
            pending.contains(j) && j != i ==> ranked_before(c, msgs, i, j))
}

/// The candidates of `pending`, highest rank first. `fuel` bounds the
/// recursion; callers pass the cardinality of `pending`.
pub open spec fn rank_of(
    c: IntelligentCompactor,
    msgs: Seq<Message>,
    pending: Set<int>,
    fuel: nat,
) -> Seq<int>
    decreases fuel,
{
    if pending.is_empty() || fuel == 0 {
        Seq::empty()
    } else {
        let b = best_candidate(c, msgs, pending);
        seq![b] + rank_of(c, msgs, pending.remove(b), (fuel - 1) as nat)
    }
}

/// Greedy acceptance: walk the candidates in `order`, accepting each whose
/// estimated tokens still fit the target on top of `used`; a candidate that
/// would overflow is rejected outright and scanning continues.
pub open spec fn greedy_accepted(
    msgs: Seq<Message>,
    order: Seq<int>,
    target: int,
    used: int,
) -> Seq<int>
    decreases order.len(),
{
    if order.len() == 0 {
        Seq::empty()
    } else {
        let i = order[0];
        let t = spec_estimated_tokens(msgs[i]) as int;
        if used + t <= target {
            seq![i] + greedy_accepted(msgs, order.drop_first(), target, used + t)
        } else {
            greedy_accepted(msgs, order.drop_first(), target, used)
        }
    }
}

/// The messages at the indices of `keep` from position `i` on, in
/// chronological order.
pub open spec fn selected(msgs: Seq<Message>, keep: Set<int>, i: int) -> Seq<Message>
    decreases msgs.len() - i when 0 <= i <= msgs.len()
{
    if i >= msgs.len() {
        Seq::empty()
    } else if keep.contains(i) {
        seq![msgs[i]] + selected(msgs, keep, i + 1)
    } else {
        selected(msgs, keep, i + 1)
    }
}

/// The Intelligent policy: the last `min_recent_messages` turns are retained
/// unconditionally; earlier turns are accepted greedily in order of retention
/// score while the total stays within `target`, then the survivors are laid
/// out in their original chronological order.
/// The boundary of the unconditionally retained suffix: everything from this
/// index on is kept regardless of score.
pub open spec fn recent_cut(c: IntelligentCompactor, msgs: Seq<Message>) -> int {
    let n = msgs.len() as int;
    if (c.min_recent_messages as int) < n {
        n - (c.min_recent_messages as int)
    } else {
        0
    }
}

pub open spec fn intelligent_kept(
    c: IntelligentCompactor,
    msgs: Seq<Message>,
    target: nat,
) -> Seq<Message> {
    let n = msgs.len() as int;
    let cut = recent_cut(c, msgs);
    let reserved = total_tokens_of(msgs.skip(cut));
    let order = rank_of(c, msgs, vstd::set_lib::set_int_range(0, cut), cut as nat);
    let accepted = greedy_accepted(msgs, order, target as int, reserved as int);
    selected(msgs, accepted.to_set().union(vstd::set_lib::set_int_range(cut, n)), 0)
}

/// What a policy keeps of a message sequence. The Intelligent variant scores
/// with the default retention-scorer configuration and leaves a log that
/// already fits its own budget untouched.
pub open spec fn strategy_kept(s: CompactionStrategy, msgs: Seq<Message>) -> Seq<Message> {
    match s {
        CompactionStrategy::Sliding { max_tokens } => sliding_kept(msgs, max_tokens as nat),
        CompactionStrategy::SystemAndRecent { system_tokens, recent_tokens } => {
            system_and_recent_kept(msgs, system_tokens as nat, recent_tokens as nat)
        },
        CompactionStrategy::Intelligent { target_tokens } => {
            if total_tokens_of(msgs) <= target_tokens {
                msgs
            } else {
                intelligent_kept(spec_default_compactor(), msgs, target_tokens as nat)
            }
        },
    }
}

/// A nonempty finite candidate set has a best candidate, and `best_candidate`
/// returns it.
pub proof fn lemma_best_candidate(c: IntelligentCompactor, msgs: Seq<Message>, pending: Set<int>)
    requires
        pending.finite(),
        pending.len() > 0,
    ensures
        pending.contains(best_candidate(c, msgs, pending)),
        forall|j: int|
            pending.contains(j) && j != best_candidate(c, msgs, pending) ==> ranked_before(
                c,
                msgs,
                best_candidate(c, msgs, pending),
                j,
            ),
    decreases pending.len(),
{
    let e = pending.choose();
    if pending.is_empty() {
        assert(pending =~= Set::empty());
        assert(false);
    }
    assert(pending.contains(e));
    let rest = pending.remove(e);
    if rest.len() == 0 {
        if !rest.is_empty() {
            let x = rest.choose();
            assert(rest.contains(x));
            vstd::set_lib::lemma_set_empty_equivalency_len(rest);
            assert(false);
        }
        assert forall|j: int| pending.contains(j) && j != e implies ranked_before(
            c,
            msgs,
            e,
            j,
        ) by {
            assert(rest.contains(j));
            assert(rest =~= Set::empty());
        }
        assert(pending.contains(e) && (forall|j: int|
            pending.contains(j) && j != e ==> ranked_before(c, msgs, e, j)));
    } else {
        lemma_best_candidate(c, msgs, rest);
        let b2 = best_candidate(c, msgs, rest);
        let w = if ranked_before(c, msgs, e, b2) {
            e
        } else {
            b2
        };
        assert forall|j: int| pending.contains(j) && j != w implies ranked_before(
            c,
            msgs,
            w,
            j,
        ) by {
            if j == e {
                assert(w == b2);
                assert(ranked_before(c, msgs, b2, e));
            } else {
                assert(rest.contains(j));
                if j != b2 {
                    assert(ranked_before(c, msgs, b2, j));
                }
            }
        }
        assert(pending.contains(w) && (forall|j: int|
            pending.contains(j) && j != w ==> ranked_before(c, msgs, w, j)));
    }
}

/// The best candidate is unique: any candidate that ranks before every other
/// pending candidate is `best_candidate`.
pub proof fn lemma_best_unique(
    c: IntelligentCompactor,
    msgs: Seq<Message>,
    pending: Set<int>,
    i: int,
)
    requires
        pending.finite(),
        pending.len() > 0,
        pending.contains(i),
        forall|j: int| pending.contains(j) && j != i ==> ranked_before(c, msgs, i, j),
    ensures
        best_candidate(c, msgs, pending) == i,
{
    lemma_best_candidate(c, msgs, pending);
    let b = best_candidate(c, msgs, pending);
    if b != i {
        assert(ranked_before(c, msgs, b, i));
        assert(ranked_before(c, msgs, i, b));
        assert(false);
    }
}

/// One step of the greedy scan: removing the best-ranked candidate from the
/// pending set peels one layer off the rank order and the greedy acceptance.
proof fn lemma_greedy_step(
    c: IntelligentCompactor,
    msgs: Seq<Message>,
    pend0: Set<int>,
    b: int,
    target: int,
    used0: int,
)
    requires
        pend0.finite(),
        pend0.len() > 0,
        pend0.contains(b),
        forall|j: int| pend0.contains(j) && j != b ==> ranked_before(c, msgs, b, j),
    ensures
        ({
            let t = spec_estimated_tokens(msgs[b]) as int;
            let rest = rank_of(c, msgs, pend0.remove(b), pend0.remove(b).len());
            greedy_accepted(msgs, rank_of(c, msgs, pend0, pend0.len()), target, used0) == (
            if used0 + t <= target {
                seq![b] + greedy_accepted(msgs, rest, target, used0 + t)
            } else {
                greedy_accepted(msgs, rest, target, used0)
            })
        }),
{
    vstd::set_lib::lemma_set_empty_equivalency_len(pend0);
    lemma_best_unique(c, msgs, pend0, b);
    let rest = rank_of(c, msgs, pend0.remove(b), pend0.remove(b).len());
    assert(rank_of(c, msgs, pend0, pend0.len()) == seq![b] + rest);
    assert((seq![b] + rest)[0] == b);
    assert((seq![b] + rest).drop_first() =~= rest);
}

/// Membership in a sequence with one entry appended.
proof fn lemma_push_contains(s: Seq<int>, b: int, x: int)
    ensures
        s.push(b).contains(x) <==> (s.contains(x) || x == b),
{
    let p = s.push(b);
    if p.contains(x) {
        let w = choose|w: int| 0 <= w < p.len() && p[w] == x;
        if w < s.len() {
            assert(s[w] == x);
            assert(s.contains(x));
        }
    }
    if s.contains(x) {
        let w = choose|w: int| 0 <= w < s.len() && s[w] == x;
        assert(p[w] == x);
        assert(p.contains(x));
    }
    if x == b {
        assert(p[p.len() - 1] == x);
        assert(p.contains(x));
    }
}

/// The first index whose message carries `id`, if any.
pub open spec fn find_id(msgs: Seq<Message>, id: u128) -> Option<int>
    decreases msgs.len(),
{
    if msgs.len() == 0 {
        None
    } else if msgs[0].id == id {
        Some(0int)
    } else {
        match find_id(msgs.drop_first(), id) {
            Some(j) => Some(j + 1),
            None => None,
        }
    }
}

/// The position of the message carrying `id`, or 0 when no message does.
pub open spec fn id_position(msgs: Seq<Message>, id: u128) -> int {
    match find_id(msgs, id) {
        Some(j) => j,
        None => 0,
    }
}

/// `find_id` returns the first matching index, or reports that none matches.
pub proof fn lemma_find_id(msgs: Seq<Message>, id: u128)
    ensures
        match find_id(msgs, id) {
            Some(j) => 0 <= j < msgs.len() && msgs[j].id == id && (forall|k: int|
                0 <= k < j ==> msgs[k].id != id),
            None => forall|k: int| 0 <= k < msgs.len() ==> msgs[k].id != id,
        },
    decreases msgs.len(),
{
    if msgs.len() > 0 && msgs[0].id != id {
        let rest = msgs.drop_first();
        lemma_find_id(rest, id);
        match find_id(rest, id) {
            Some(j2) => {
                assert(find_id(msgs, id) == Some(j2 + 1));
                assert(msgs[j2 + 1] == rest[j2]);
                assert forall|k: int| 0 <= k < j2 + 1 implies msgs[k].id != id by {
                    if k >= 1 {
                        assert(msgs[k] == rest[k - 1]);
                    }
                }
            },
            None => {
                assert forall|k: int| 0 <= k < msgs.len() implies msgs[k].id != id by {
                    if k >= 1 {
                        assert(msgs[k] == rest[k - 1]);
                    }
                }
            },
        }
    }
}

/// Capability for compacting a session and for scoring a turn's retention
/// priority; implementations are interchangeable scorers.
pub trait ContextCompactor {
    /// Compact a session to fit within the target token count.
    fn compact(&self, session: &mut Session, target_tokens: usize) -> Result<(), ContextError>
        requires
            total_tokens_of(old(session).messages@) <= usize::MAX,
    ;

    /// Estimate the priority of a message: higher means more important to
    /// keep.
    fn message_priority(&self, message: &Message, context: &Session) -> u64
        requires
            context.messages@.len() > 0,
    ;
}

impl IntelligentCompactor {
    /// Retention score of the message at index `i` of the session, as a
    /// per-mille fixed-point weighted sum of recency, role and content.
    fn priority_at(&self, session: &Session, i: usize) -> (r: u64)
        requires
            i < session.messages@.len(),
        ensures
            r as int == spec_priority(*self, session.messages@, i as int),
    {
        let n = session.messages.len();
        let m = &session.messages[i];
        let rm128: u128 = ((i as u128) * 1000) / (n as u128);
        let rm: u64 = if rm128 <= 1000 {
            rm128 as u64
        } else {
            1000
        };
        let role: u64 = match m.role {
            MessageRole::System => 1000,
            MessageRole::Tool => 800,
            MessageRole::Assistant => 600,
            MessageRole::User => 400,
        };
        let len = m.content.as_str().unicode_len();
        let cm: u64 = if len <= 1000 {
            len as u64
        } else {
            1000
        };
        proof {
            reveal(spec_priority);
            assert(rm as int == recency_milli(i as int, n as int));
            assert(role as int == role_score_milli(session.messages@[i as int].role));
            assert(cm as int == content_milli(session.messages@[i as int]));
            assert(rm * (self.recency_weight as u64) <= 1000 * 0xffff_ffffu64) by (nonlinear_arith)
                requires
                    rm <= 1000,
                    self.recency_weight <= 0xffff_ffffu32,
            ;
            assert(role * (self.role_weight as u64) <= 1000 * 0xffff_ffffu64) by (nonlinear_arith)
                requires
                    role <= 1000,
                    self.role_weight <= 0xffff_ffffu32,
            ;
            assert(cm * (self.content_weight as u64) <= 1000 * 0xffff_ffffu64) by (nonlinear_arith)
                requires
                    cm <= 1000,
                    self.content_weight <= 0xffff_ffffu32,
            ;
        }
        rm * (self.recency_weight as u64) + role * (self.role_weight as u64) + cm
            * (self.content_weight as u64)
    }

    /// Greedy acceptance in rank order: repeatedly select the best remaining
    /// candidate below `cut` and accept it if its tokens still fit
    /// `target_tokens` on top of what is already used. The returned flags
    /// mark the accepted candidates.
    #[verifier::rlimit(100)]
    fn greedy_select(
        &self,
        session: &Session,
        cut: usize,
        reserved: usize,
        target_tokens: usize,
    ) -> (keepf: Vec<bool>)
        requires
            cut <= session.messages@.len(),
        ensures
            keepf@.len() == cut,
            forall|x: int|
                0 <= x < cut ==> ((#[trigger] keepf@[x]) <==> greedy_accepted(
                    session.messages@,
                    rank_of(*self, session.messages@, set_int_range(0, cut as int), cut as nat),
                    target_tokens as int,
                    reserved as int,
                ).contains(x)),
    {
        let ghost orig = session.messages@;
        let ghost full_greedy = greedy_accepted(
            orig,
            rank_of(*self, orig, set_int_range(0, cut as int), cut as nat),
            target_tokens as int,
            reserved as int,
        );

        // Retention scores of the candidates before the cut.
        let mut scores: Vec<u64> = Vec::new();
        let mut i: usize = 0;
        while i < cut
            invariant
                0 <= i <= cut,
                cut <= session.messages@.len(),
                session.messages@ == orig,
                scores@.len() == i,
                forall|k: int|
                    0 <= k < i ==> (#[trigger] scores@[k]) as int == spec_priority(*self, orig, k),
            decreases cut - i,
        {
            let s = self.priority_at(session, i);
            scores.push(s);
            i = i + 1;
        }

        let mut chosen: Vec<bool> = vec![false; cut];
        let mut keepf: Vec<bool> = vec![false; cut];
        let mut remaining: usize = cut;
        let mut used: usize = reserved;
        let ghost mut pend: Set<int> = set_int_range(0, cut as int);
        let ghost mut acc: Seq<int> = Seq::empty();
        proof {
            lemma_int_range(0, cut as int);
            assert(Seq::<int>::empty() + greedy_accepted(
                orig,
                rank_of(*self, orig, pend, pend.len()),
                target_tokens as int,
                used as int,
            ) =~= full_greedy);
        }
        while remaining > 0
            invariant
                cut <= session.messages@.len(),
                session.messages@ == orig,
                scores@.len() == cut,
                forall|k: int|
                    0 <= k < cut ==> (#[trigger] scores@[k]) as int == spec_priority(
                        *self,
                        orig,
                        k,
                    ),
                pend.finite(),
                remaining == pend.len(),
                chosen@.len() == cut,
                keepf@.len() == cut,
                forall|x: int| #[trigger] pend.contains(x) <==> (0 <= x < cut && !chosen@[x]),
                forall|x: int| 0 <= x < cut ==> ((#[trigger] keepf@[x]) <==> acc.contains(x)),
                acc + greedy_accepted(
                    orig,
                    rank_of(*self, orig, pend, pend.len()),
                    target_tokens as int,
                    used as int,
                ) == full_greedy,
            decreases remaining,
        {
            // Scan for the best remaining candidate: highest score, oldest
            // position on ties.
            let mut best_i: usize = 0;
            let mut best_s: u64 = 0;
            let mut have = false;
            let mut q: usize = 0;
            while q < cut
                invariant
                    0 <= q <= cut,
                    cut <= orig.len(),
                    chosen@.len() == cut,
                    scores@.len() == cut,
                    forall|k: int|
                        0 <= k < cut ==> (#[trigger] scores@[k]) as int == spec_priority(
                            *self,
                            orig,
                            k,
                        ),
                    have ==> best_i < q && !chosen@[best_i as int] && best_s == scores@[best_i as int],
                    have ==> forall|x: int|
                        0 <= x < q && !(#[trigger] chosen@[x]) && x != best_i as int
                            ==> ranked_before(*self, orig, best_i as int, x),
                    !have ==> forall|x: int| 0 <= x < q ==> #[trigger] chosen@[x],
                decreases cut - q,
            {
                if !chosen[q] {
                    let s = scores[q];
                    if !have || s > best_s {
                        best_i = q;
                        best_s = s;
                        have = true;
                    }
                }
                q = q + 1;
            }
            proof {
                vstd::set_lib::lemma_set_empty_equivalency_len(pend);
                if !have {
                    let e = choose|e: int| pend.contains(e);
                    assert(pend.contains(e));
                    assert(!chosen@[e]);
                    assert(chosen@[e]);
                    assert(false);
                }
                assert(pend.contains(best_i as int));
                assert forall|x: int|
                    pend.contains(x) && x != best_i as int implies ranked_before(
                    *self,
                    orig,
                    best_i as int,
                    x,
                ) by {
                    assert(0 <= x < cut && !chosen@[x]);
                }
                lemma_greedy_step(
                    *self,
                    orig,
                    pend,
                    best_i as int,
                    target_tokens as int,
                    used as int,
                );
            }
            let t = session.messages[best_i].estimate_tokens();
            let ghost pend0 = pend;
            let ghost acc0 = acc;
            let ghost used0 = used as int;
            let ghost chosen0 = chosen@;
            let accept = used <= target_tokens && t <= target_tokens - used;
            if accept {
                used = used + t;
                keepf[best_i] = true;
            }
            chosen[best_i] = true;
            remaining = remaining - 1;
            proof {
                pend = pend0.remove(best_i as int);
                assert forall|x: int| #[trigger] pend.contains(x) <==> (0 <= x < cut
                    && !chosen@[x]) by {
                    if x == best_i as int {
                        assert(!pend.contains(x));
                        assert(chosen@[x]);
                    } else if 0 <= x < cut {
                        assert(pend.contains(x) <==> pend0.contains(x));
                        assert(chosen@[x] == chosen0[x]);
                    } else {
                        assert(!pend0.contains(x));
                        assert(!pend.contains(x));
                    }
                }
                let rest = rank_of(*self, orig, pend, pend.len());
                if accept {
                    acc = acc0.push(best_i as int);
                    assert(used as int == used0 + spec_estimated_tokens(orig[best_i as int]));
                    assert(acc0 + (seq![best_i as int] + greedy_accepted(
                        orig,
                        rest,
                        target_tokens as int,
                        used as int,
                    )) =~= acc + greedy_accepted(orig, rest, target_tokens as int, used as int));
                    assert forall|x: int| 0 <= x < cut implies ((#[trigger] keepf@[x])
                        <==> acc.contains(x)) by {
                        lemma_push_contains(acc0, best_i as int, x);
                    }
                } else {
                    assert(used0 + spec_estimated_tokens(orig[best_i as int]) > target_tokens);
                }
            }
        }
        proof {
            vstd::set_lib::lemma_set_empty_equivalency_len(pend);
            assert(pend == Set::<int>::empty());
            assert(pend.is_empty());
            assert(rank_of(*self, orig, pend, pend.len()) == Seq::<int>::empty());
            assert(acc + Seq::<int>::empty() =~= acc);
            assert(acc == full_greedy);
            assert forall|x: int| 0 <= x < cut implies ((#[trigger] keepf@[x])
                <==> full_greedy.contains(x)) by {}
        }
        keepf
    }
}

/// The survivor set encoded by the acceptance flags: flagged indices below
/// `cut`, and every index from `cut` to `n`.
pub open spec fn keep_set_of(flags: Seq<bool>, cut: int, n: int) -> Set<int> {
    Set::new(|x: int| (0 <= x < cut && flags[x]) || (cut <= x < n))
}

/// Two survivor sets that agree from position `i` on select the same
/// messages.
pub proof fn lemma_selected_agree(msgs: Seq<Message>, k1: Set<int>, k2: Set<int>, i: int)
    requires
        0 <= i <= msgs.len(),
        forall|x: int| i <= x < msgs.len() ==> (k1.contains(x) <==> k2.contains(x)),
    ensures
        selected(msgs, k1, i) == selected(msgs, k2, i),
    decreases msgs.len() - i,
{
    if i < msgs.len() {
        lemma_selected_agree(msgs, k1, k2, i + 1);
    }
}

/// Rebuild a session's message list from acceptance flags: a message below
/// `cut` survives when flagged, and every message from `cut` on survives.
/// Survivors keep their original order and identity.
fn rebuild_selected(session: &mut Session, keepf: &Vec<bool>, cut: usize)
    requires
        keepf@.len() == cut,
        cut <= old(session).messages@.len(),
    ensures
        final (session).messages@ == selected(
            old(session).messages@,
            keep_set_of(keepf@, cut as int, old(session).messages@.len() as int),
            0,
        ),
        final (session).id == old(session).id,
        final (session).name == old(session).name,
        final (session).created_at == old(session).created_at,
        final (session).updated_at == old(session).updated_at,
        final (session).metadata == old(session).metadata,
{
    let ghost orig = session.messages@;
    let ghost keepset = keep_set_of(keepf@, cut as int, orig.len() as int);
    let n = session.messages.len();
    let mut out: Vec<Message> = Vec::new();
    let mut w: usize = 0;
    proof {
        assert(orig.skip(0) =~= orig);
        assert(Seq::<Message>::empty() + selected(orig, keepset, 0) =~= selected(orig, keepset, 0));
    }
    while w < n
        invariant
            0 <= w <= n,
            n == orig.len(),
            keepf@.len() == cut,
            cut <= n,
            keepset == keep_set_of(keepf@, cut as int, orig.len() as int),
            session.messages@ == orig.skip(w as int),
            out@ + selected(orig, keepset, w as int) == selected(orig, keepset, 0),
            session.id == old(session).id,
            session.name == old(session).name,
            session.created_at == old(session).created_at,
            session.updated_at == old(session).updated_at,
            session.metadata == old(session).metadata,
        decreases n - w,
    {
        let ghost tail = orig.skip(w as int);
        let m = session.messages.remove(0);
        proof {
            assert(tail[0] == orig[w as int]);
            assert(m == tail[0]);
            assert(tail.drop_first() =~= orig.skip(w as int + 1));
            assert(session.messages@ =~= orig.skip(w as int + 1));
        }
        let keep = if w < cut {
            keepf[w]
        } else {
            true
        };
        proof {
            assert(keep == keepset.contains(w as int));
        }
        if keep {
            let ghost outpre = out@;
            out.push(m);
            proof {
                assert(selected(orig, keepset, w as int) == seq![orig[w as int]] + selected(
                    orig,
                    keepset,
                    w as int + 1,
                ));
                assert(outpre + (seq![orig[w as int]] + selected(orig, keepset, w as int + 1))
                    =~= out@ + selected(orig, keepset, w as int + 1));
            }
        } else {
            proof {
                assert(selected(orig, keepset, w as int) == selected(orig, keepset, w as int + 1));
            }
        }
        w = w + 1;
    }
    proof {
        assert(selected(orig, keepset, n as int) == Seq::<Message>::empty());
        assert(out@ + Seq::<Message>::empty() =~= out@);
    }
    session.messages = out;
}

impl ContextCompactor for IntelligentCompactor {
    /// Estimate the priority of a message by the position of the first
    /// message with the same identifier (0 when absent).
    fn message_priority(&self, message: &Message, context: &Session) -> (r: u64)
        ensures
            r as int == spec_priority(
                *self,
                context.messages@,
                id_position(context.messages@, message.id),
            ),
    {
        let ghost msgs = context.messages@;
        let mut pos: usize = 0;
        let mut found = false;
        let mut i: usize = 0;
        while i < context.messages.len() && !found
            invariant
                0 <= i <= msgs.len(),
                context.messages@ == msgs,
                msgs.len() > 0,
                !found ==> pos == 0 && (forall|k: int| 0 <= k < i ==> msgs[k].id != message.id),
                found ==> pos < msgs.len() && msgs[pos as int].id == message.id && (forall|k: int|
                    0 <= k < pos ==> msgs[k].id != message.id),
            decreases msgs.len() - i + (if found {
                0int
            } else {
                1int
            }),
        {
            if context.messages[i].id == message.id {
                pos = i;
                found = true;
            } else {
                i = i + 1;
            }
        }
        proof {
            lemma_find_id(msgs, message.id);
            if found {
                match find_id(msgs, message.id) {
                    Some(j) => {
                        assert(!(j < pos as int));
                        assert(!((pos as int) < j));
                    },
                    None => {
                        assert(false);
                    },
                }
            }
            assert(id_position(msgs, message.id) == pos as int);
        }
        self.priority_at(context, pos)
    }

    /// Compact the session to fit `target_tokens`: a no-op when the log is
    /// already within budget; otherwise the last `min_recent_messages` turns
    /// are retained unconditionally and earlier turns are kept greedily in
    /// order of retention score, survivors staying in chronological order.
    /// Compact the session to fit `target_tokens`: a no-op when the log is
    /// already within budget; otherwise the last `min_recent_messages` turns
    /// are retained unconditionally and earlier turns are kept greedily in
    /// order of retention score, survivors staying in chronological order.
    fn compact(&self, session: &mut Session, target_tokens: usize) -> (r: Result<
        (),
        ContextError,
    >)
        ensures
            r is Ok,
            final (session).id == old(session).id,
            final (session).name == old(session).name,
            final (session).created_at == old(session).created_at,
            final (session).updated_at == old(session).updated_at,
            final (session).metadata == old(session).metadata,
            total_tokens_of(old(session).messages@) <= target_tokens ==> final (session).messages@
                == old(session).messages@,
            total_tokens_of(old(session).messages@) > target_tokens ==> final (session).messages@
                == intelligent_kept(*self, old(session).messages@, target_tokens as nat),
    {
        let total = session.total_tokens();
        if total <= target_tokens {
            return Ok(());
        }
        let ghost orig = session.messages@;
        let n = session.messages.len();
        let keep_recent: usize = if self.min_recent_messages < n {
            self.min_recent_messages
        } else {
            n
        };
        let cut = n - keep_recent;

        // Token cost of the unconditionally retained suffix.
        proof {
            assert(orig.take(cut as int) + orig.skip(cut as int) =~= orig);
            lemma_total_tokens_add(orig.take(cut as int), orig.skip(cut as int));
        }
        let mut reserved: usize = 0;
        let mut j: usize = cut;
        while j < n
            invariant
                cut <= j <= n,
                n == orig.len(),
                session.messages@ == orig,
                total_tokens_of(orig.skip(cut as int)) <= usize::MAX,
                reserved as nat + total_tokens_of(orig.skip(j as int)) == total_tokens_of(
                    orig.skip(cut as int),
                ),
            decreases n - j,
        {
            proof {
                lemma_total_tokens_skip(orig, j as int);
            }
            let t = session.messages[j].estimate_tokens();
            reserved = reserved + t;
            j = j + 1;
        }
        proof {
            assert(orig.skip(n as int) =~= Seq::<Message>::empty());
            assert(reserved as nat == total_tokens_of(orig.skip(cut as int)));
        }

        let keepf = self.greedy_select(session, cut, reserved, target_tokens);
        rebuild_selected(session, &keepf, cut);
        proof {
            let full_greedy = greedy_accepted(
                orig,
                rank_of(*self, orig, set_int_range(0, cut as int), cut as nat),
                target_tokens as int,
                reserved as int,
            );
            let k1 = keep_set_of(keepf@, cut as int, n as int);
            let k2 = full_greedy.to_set().union(set_int_range(cut as int, n as int));
            assert forall|x: int| 0 <= x < n implies (k1.contains(x) <==> k2.contains(x)) by {
                if x < cut {
                    assert(!set_int_range(cut as int, n as int).contains(x));
                    assert(full_greedy.to_set().contains(x) <==> full_greedy.contains(x));
                }
            }
            lemma_selected_agree(orig, k1, k2, 0);
            assert(session.messages@ == intelligent_kept(*self, orig, target_tokens as nat));
        }
        Ok(())
    }
}

} // verus!
