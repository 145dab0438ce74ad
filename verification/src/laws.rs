//! Laws of the compaction engine, each stated over the policy spec functions
//! and proved once for all inputs.

use vstd::prelude::*;

use crate::compaction::CompactionStrategy;
use crate::compaction::IntelligentCompactor;
use crate::compaction::greedy_accepted;
use crate::compaction::intelligent_kept;
use crate::compaction::lemma_best_candidate;
use crate::compaction::non_system;
use crate::compaction::rank_of;
use crate::compaction::recent_cut;
use crate::compaction::recent_kept;
use crate::compaction::selected;
use crate::compaction::sliding_kept;
use crate::compaction::strategy_kept;
use crate::compaction::system_and_recent_kept;
use crate::compaction::system_kept;
use crate::session::Message;
use crate::session::chronological;
use crate::session::lemma_total_tokens_add;
use crate::session::spec_estimated_tokens;
use crate::session::total_tokens_of;
use vstd::set_lib::lemma_int_range;
use vstd::set_lib::lemma_set_empty_equivalency_len;
use vstd::set_lib::set_int_range;

verus! {

/// `a` is obtained from `b` by deleting zero or more entries: the survivors
/// appear in `b`'s order.
pub open spec fn subsequence_of(a: Seq<Message>, b: Seq<Message>) -> bool
    decreases b.len(),
{
    if a.len() == 0 {
        true
    } else if b.len() == 0 {
        false
    } else {
        (a[0] == b[0] && subsequence_of(a.drop_first(), b.drop_first())) || subsequence_of(
            a,
            b.drop_first(),
        )
    }
}

/// Every sequence is a subsequence of itself.
pub proof fn lemma_subsequence_refl(s: Seq<Message>)
    ensures
        subsequence_of(s, s),
    decreases s.len(),
{
    if s.len() > 0 {
        lemma_subsequence_refl(s.drop_first());
    }
}

/// Every entry of a subsequence occurs in the base sequence, no earlier than
/// its own position.
pub proof fn lemma_subsequence_element(a: Seq<Message>, b: Seq<Message>, k: int) -> (l: int)
    requires
        subsequence_of(a, b),
        0 <= k < a.len(),
    ensures
        k <= l < b.len(),
        a[k] == b[l],
    decreases b.len(),
{
    if a[0] == b[0] && subsequence_of(a.drop_first(), b.drop_first()) {
        if k == 0 {
            0
        } else {
            let l2 = lemma_subsequence_element(a.drop_first(), b.drop_first(), k - 1);
            assert(a[k] == a.drop_first()[k - 1]);
            assert(b[l2 + 1] == b.drop_first()[l2]);
            l2 + 1
        }
    } else {
        let l2 = lemma_subsequence_element(a, b.drop_first(), k);
        assert(b[l2 + 1] == b.drop_first()[l2]);
        l2 + 1
    }
}

/// Budget convergence, Sliding: after the sliding policy the log fits its
/// budget or is empty.
pub proof fn lemma_sliding_budget(msgs: Seq<Message>, max_tokens: nat)
    ensures
        total_tokens_of(sliding_kept(msgs, max_tokens)) <= max_tokens || sliding_kept(
            msgs,
            max_tokens,
        ).len() == 0,
    decreases msgs.len(),
{
    if !(total_tokens_of(msgs) <= max_tokens || msgs.len() == 0) {
        lemma_sliding_budget(msgs.drop_first(), max_tokens);
    }
}

/// Idempotence, Sliding: applying the sliding policy twice equals applying
/// it once.
pub proof fn lemma_sliding_idempotent(msgs: Seq<Message>, max_tokens: nat)
    ensures
        sliding_kept(sliding_kept(msgs, max_tokens), max_tokens) == sliding_kept(msgs, max_tokens),
{
    lemma_sliding_budget(msgs, max_tokens);
}

/// Chronological order preserved, Sliding: the survivors are a subsequence
/// of the original turns, so their timestamps stay in the original order.
pub proof fn lemma_sliding_preserves_order(msgs: Seq<Message>, max_tokens: nat)
    ensures
        subsequence_of(sliding_kept(msgs, max_tokens), msgs),
    decreases msgs.len(),
{
    if total_tokens_of(msgs) <= max_tokens || msgs.len() == 0 {
        lemma_subsequence_refl(msgs);
    } else {
        lemma_sliding_preserves_order(msgs.drop_first(), max_tokens);
        let a = sliding_kept(msgs, max_tokens);
        if a.len() > 0 {
            assert(subsequence_of(a, msgs.drop_first()));
        }
    }
}

/// A subsequence of a chronologically ordered log is chronologically ordered.
pub proof fn lemma_subsequence_chronological(a: Seq<Message>, b: Seq<Message>)
    requires
        subsequence_of(a, b),
        chronological(b),
    ensures
        chronological(a),
    decreases b.len(),
{
    if a.len() == 0 {
    } else if a[0] == b[0] && subsequence_of(a.drop_first(), b.drop_first()) {
        let a2 = a.drop_first();
        let b2 = b.drop_first();
        assert(chronological(b2)) by {
            assert forall|i: int, j: int| 0 <= i < j < b2.len() implies b2[i].timestamp
                <= b2[j].timestamp by {
                assert(b2[i] == b[i + 1]);
                assert(b2[j] == b[j + 1]);
            }
        }
        lemma_subsequence_chronological(a2, b2);
        assert forall|i: int, j: int| 0 <= i < j < a.len() implies a[i].timestamp
            <= a[j].timestamp by {
            if i == 0 {
                let l = lemma_subsequence_element(a2, b2, j - 1);
                assert(a[j] == a2[j - 1]);
                assert(a2[j - 1] == b2[l]);
                assert(b2[l] == b[l + 1]);
                assert(b[0].timestamp <= b[l + 1].timestamp);
            } else {
                assert(a[i] == a2[i - 1]);
                assert(a[j] == a2[j - 1]);
            }
        }
    } else {
        let b2 = b.drop_first();
        assert(chronological(b2)) by {
            assert forall|i: int, j: int| 0 <= i < j < b2.len() implies b2[i].timestamp
                <= b2[j].timestamp by {
                assert(b2[i] == b[i + 1]);
                assert(b2[j] == b[j + 1]);
            }
        }
        lemma_subsequence_chronological(a, b2);
    }
}

/// Budget convergence, System half: greedy keeping of System turns never
/// exceeds the remaining system budget.
pub proof fn lemma_system_kept_budget(msgs: Seq<Message>, budget: nat, used: nat)
    requires
        used <= budget,
    ensures
        used + total_tokens_of(system_kept(msgs, budget, used)) <= budget,
    decreases msgs.len(),
{
    if msgs.len() > 0 {
        let t = spec_estimated_tokens(msgs[0]);
        if msgs[0].role is System && used + t <= budget {
            lemma_system_kept_budget(msgs.drop_first(), budget, (used + t) as nat);
            let rest = system_kept(msgs.drop_first(), budget, (used + t) as nat);
            assert((seq![msgs[0]] + rest).drop_first() =~= rest);
        } else {
            lemma_system_kept_budget(msgs.drop_first(), budget, used);
        }
    }
}

/// Budget convergence, recent half: greedy keeping of recent turns never
/// exceeds the remaining recent budget.
pub proof fn lemma_recent_kept_budget(msgs: Seq<Message>, budget: nat, used: nat)
    requires
        used <= budget,
    ensures
        used + total_tokens_of(recent_kept(msgs, budget, used)) <= budget,
    decreases msgs.len(),
{
    if msgs.len() > 0 {
        let t = spec_estimated_tokens(msgs.last());
        if used + t <= budget {
            lemma_recent_kept_budget(msgs.drop_last(), budget, (used + t) as nat);
            let rest = recent_kept(msgs.drop_last(), budget, (used + t) as nat);
            lemma_total_tokens_add(rest, seq![msgs.last()]);
            assert(seq![msgs.last()].drop_first() =~= Seq::<Message>::empty());
            assert(total_tokens_of(Seq::<Message>::empty()) == 0);
            assert(seq![msgs.last()][0] == msgs.last());
            assert(total_tokens_of(seq![msgs.last()]) == t);
            assert(recent_kept(msgs, budget, used) == rest + seq![msgs.last()]);
        } else {
            assert(recent_kept(msgs, budget, used) == Seq::<Message>::empty());
        }
    }
}

/// Budget convergence, SystemAndRecent: the two halves fit their own budgets,
/// so the result fits their sum.
pub proof fn lemma_system_and_recent_budget(
    msgs: Seq<Message>,
    system_budget: nat,
    recent_budget: nat,
)
    ensures
        total_tokens_of(system_kept(msgs, system_budget, 0)) <= system_budget,
        total_tokens_of(recent_kept(non_system(msgs), recent_budget, 0)) <= recent_budget,
        total_tokens_of(system_and_recent_kept(msgs, system_budget, recent_budget))
            <= system_budget + recent_budget,
{
    lemma_system_kept_budget(msgs, system_budget, 0);
    lemma_recent_kept_budget(non_system(msgs), recent_budget, 0);
    lemma_total_tokens_add(
        system_kept(msgs, system_budget, 0),
        recent_kept(non_system(msgs), recent_budget, 0),
    );
}

/// Every turn kept by the system half has the System role.
proof fn lemma_system_kept_roles(msgs: Seq<Message>, budget: nat, used: nat)
    ensures
        forall|k: int|
            0 <= k < system_kept(msgs, budget, used).len() ==> (#[trigger] system_kept(
                msgs,
                budget,
                used,
            )[k]).role is System,
    decreases msgs.len(),
{
    if msgs.len() > 0 {
        let t = spec_estimated_tokens(msgs[0]);
        if msgs[0].role is System && used + t <= budget {
            lemma_system_kept_roles(msgs.drop_first(), budget, (used + t) as nat);
            let rest = system_kept(msgs.drop_first(), budget, (used + t) as nat);
            assert forall|k: int|
                0 <= k < system_kept(msgs, budget, used).len() implies (#[trigger] system_kept(
                msgs,
                budget,
                used,
            )[k]).role is System by {
                if k > 0 {
                    assert(system_kept(msgs, budget, used)[k] == rest[k - 1]);
                }
            }
        } else {
            lemma_system_kept_roles(msgs.drop_first(), budget, used);
        }
    }
}

/// A prefix of System turns that fits the remaining budget is kept whole,
/// and scanning continues past it with the budget reduced by its cost.
proof fn lemma_system_kept_all(xs: Seq<Message>, ys: Seq<Message>, budget: nat, used: nat)
    requires
        forall|k: int| 0 <= k < xs.len() ==> (#[trigger] xs[k]).role is System,
        used + total_tokens_of(xs) <= budget,
    ensures
        system_kept(xs + ys, budget, used) == xs + system_kept(
            ys,
            budget,
            (used + total_tokens_of(xs)) as nat,
        ),
    decreases xs.len(),
{
    if xs.len() == 0 {
        assert(xs + ys =~= ys);
        assert(xs + system_kept(ys, budget, used) =~= system_kept(ys, budget, used));
    } else {
        let m = xs[0];
        let t = spec_estimated_tokens(m);
        assert((xs + ys)[0] == m);
        assert((xs + ys).drop_first() =~= xs.drop_first() + ys);
        assert forall|k: int|
            0 <= k < xs.drop_first().len() implies (#[trigger] xs.drop_first()[k]).role
            is System by {
            assert(xs.drop_first()[k] == xs[k + 1]);
        }
        lemma_system_kept_all(xs.drop_first(), ys, budget, (used + t) as nat);
        assert(seq![m] + (xs.drop_first() + system_kept(
            ys,
            budget,
            (used + total_tokens_of(xs)) as nat,
        )) =~= xs + system_kept(ys, budget, (used + total_tokens_of(xs)) as nat));
    }
}

/// A scan over turns with no System role keeps nothing in the system half.
proof fn lemma_system_kept_none(ys: Seq<Message>, budget: nat, used: nat)
    requires
        forall|k: int| 0 <= k < ys.len() ==> !((#[trigger] ys[k]).role is System),
    ensures
        system_kept(ys, budget, used) == Seq::<Message>::empty(),
    decreases ys.len(),
{
    if ys.len() > 0 {
        assert forall|k: int|
            0 <= k < ys.drop_first().len() implies !((#[trigger] ys.drop_first()[k]).role
            is System) by {
            assert(ys.drop_first()[k] == ys[k + 1]);
        }
        lemma_system_kept_none(ys.drop_first(), budget, used);
    }
}

/// The non-System projection carries no System turn.
proof fn lemma_non_system_roles(msgs: Seq<Message>)
    ensures
        forall|k: int|
            0 <= k < non_system(msgs).len() ==> !((#[trigger] non_system(msgs)[k]).role is System),
    decreases msgs.len(),
{
    if msgs.len() > 0 {
        lemma_non_system_roles(msgs.drop_first());
        if !(msgs[0].role is System) {
            let rest = non_system(msgs.drop_first());
            assert forall|k: int|
                0 <= k < non_system(msgs).len() implies !((#[trigger] non_system(msgs)[k]).role
                is System) by {
                if k > 0 {
                    assert(non_system(msgs)[k] == rest[k - 1]);
                }
            }
        }
    }
}

/// A sequence of System turns has an empty non-System projection.
proof fn lemma_non_system_none(xs: Seq<Message>)
    requires
        forall|k: int| 0 <= k < xs.len() ==> (#[trigger] xs[k]).role is System,
    ensures
        non_system(xs) == Seq::<Message>::empty(),
    decreases xs.len(),
{
    if xs.len() > 0 {
        assert forall|k: int|
            0 <= k < xs.drop_first().len() implies (#[trigger] xs.drop_first()[k]).role
            is System by {
            assert(xs.drop_first()[k] == xs[k + 1]);
        }
        lemma_non_system_none(xs.drop_first());
    }
}

/// A sequence without System turns is its own non-System projection.
proof fn lemma_non_system_id(xs: Seq<Message>)
    requires
        forall|k: int| 0 <= k < xs.len() ==> !((#[trigger] xs[k]).role is System),
    ensures
        non_system(xs) == xs,
    decreases xs.len(),
{
    if xs.len() > 0 {
        assert forall|k: int|
            0 <= k < xs.drop_first().len() implies !((#[trigger] xs.drop_first()[k]).role
            is System) by {
            assert(xs.drop_first()[k] == xs[k + 1]);
        }
        lemma_non_system_id(xs.drop_first());
        assert(seq![xs[0]] + xs.drop_first() =~= xs);
    }
}

/// The non-System projection distributes over concatenation.
proof fn lemma_non_system_add(a: Seq<Message>, b: Seq<Message>)
    ensures
        non_system(a + b) == non_system(a) + non_system(b),
    decreases a.len(),
{
    if a.len() == 0 {
        assert(a + b =~= b);
        assert(non_system(a) + non_system(b) =~= non_system(b));
    } else {
        assert((a + b)[0] == a[0]);
        assert((a + b).drop_first() =~= a.drop_first() + b);
        lemma_non_system_add(a.drop_first(), b);
        if !(a[0].role is System) {
            assert(seq![a[0]] + (non_system(a.drop_first()) + non_system(b)) =~= (seq![a[0]]
                + non_system(a.drop_first())) + non_system(b));
        }
    }
}

/// Every turn kept by the recent half comes from the scanned turns, so a
/// scan over non-System turns keeps only non-System turns.
proof fn lemma_recent_kept_roles(msgs: Seq<Message>, budget: nat, used: nat)
    requires
        forall|k: int| 0 <= k < msgs.len() ==> !((#[trigger] msgs[k]).role is System),
    ensures
        forall|k: int|
            0 <= k < recent_kept(msgs, budget, used).len() ==> !((#[trigger] recent_kept(
                msgs,
                budget,
                used,
            )[k]).role is System),
    decreases msgs.len(),
{
    if msgs.len() > 0 {
        let t = spec_estimated_tokens(msgs.last());
        if used + t <= budget {
            assert forall|k: int|
                0 <= k < msgs.drop_last().len() implies !((#[trigger] msgs.drop_last()[k]).role
                is System) by {
                assert(msgs.drop_last()[k] == msgs[k]);
            }
            lemma_recent_kept_roles(msgs.drop_last(), budget, (used + t) as nat);
            let rest = recent_kept(msgs.drop_last(), budget, (used + t) as nat);
            assert forall|k: int|
                0 <= k < recent_kept(msgs, budget, used).len() implies !((#[trigger] recent_kept(
                msgs,
                budget,
                used,
            )[k]).role is System) by {
                if k < rest.len() {
                    assert(recent_kept(msgs, budget, used)[k] == rest[k]);
                } else {
                    assert(recent_kept(msgs, budget, used)[k] == msgs.last());
                    assert(msgs.last() == msgs[msgs.len() - 1]);
                }
            }
        }
    }
}

/// A sequence whose whole cost fits the remaining recent budget is kept
/// unchanged by the recent half.
proof fn lemma_recent_kept_all(xs: Seq<Message>, budget: nat, used: nat)
    requires
        used + total_tokens_of(xs) <= budget,
    ensures
        recent_kept(xs, budget, used) == xs,
    decreases xs.len(),
{
    if xs.len() > 0 {
        let t = spec_estimated_tokens(xs.last());
        assert(xs =~= xs.drop_last() + seq![xs.last()]);
        lemma_total_tokens_add(xs.drop_last(), seq![xs.last()]);
        lemma_total_singleton(xs.last());
        assert(used + t <= budget);
        lemma_recent_kept_all(xs.drop_last(), budget, (used + t) as nat);
        assert(xs.drop_last() + seq![xs.last()] =~= xs);
    }
}

/// Idempotence, SystemAndRecent: applying the policy to its own result
/// changes nothing, with either budget.
pub proof fn lemma_system_and_recent_idempotent(
    msgs: Seq<Message>,
    system_budget: nat,
    recent_budget: nat,
)
    ensures
        system_and_recent_kept(
            system_and_recent_kept(msgs, system_budget, recent_budget),
            system_budget,
            recent_budget,
        ) == system_and_recent_kept(msgs, system_budget, recent_budget),
{
    let s = system_kept(msgs, system_budget, 0);
    let r = recent_kept(non_system(msgs), recent_budget, 0);
    let res = s + r;
    lemma_system_kept_roles(msgs, system_budget, 0);
    lemma_system_kept_budget(msgs, system_budget, 0);
    let ns = non_system(msgs);
    lemma_non_system_roles(msgs);
    lemma_recent_kept_roles(ns, recent_budget, 0);
    lemma_recent_kept_budget(ns, recent_budget, 0);
    // System half of the rescan: all of `s` fits again, and `r` holds no
    // System turn.
    lemma_system_kept_all(s, r, system_budget, 0);
    lemma_system_kept_none(r, system_budget, (total_tokens_of(s)) as nat);
    assert(s + Seq::<Message>::empty() =~= s);
    assert(system_kept(res, system_budget, 0) == s);
    // Recent half of the rescan: the non-System projection of the result is
    // exactly `r`, and all of it fits again.
    lemma_non_system_add(s, r);
    lemma_non_system_none(s);
    lemma_non_system_id(r);
    assert(Seq::<Message>::empty() + r =~= r);
    assert(non_system(res) == r);
    lemma_recent_kept_all(r, recent_budget, 0);
    assert(recent_kept(non_system(res), recent_budget, 0) == r);
}

/// Sum of the estimated token counts of the messages at `idxs`.
pub open spec fn tokens_at(msgs: Seq<Message>, idxs: Seq<int>) -> int
    decreases idxs.len(),
{
    if idxs.len() == 0 {
        0
    } else {
        spec_estimated_tokens(msgs[idxs[0]]) + tokens_at(msgs, idxs.drop_first())
    }
}

proof fn lemma_tokens_at_nonneg(msgs: Seq<Message>, idxs: Seq<int>)
    ensures
        tokens_at(msgs, idxs) >= 0,
    decreases idxs.len(),
{
    if idxs.len() > 0 {
        lemma_tokens_at_nonneg(msgs, idxs.drop_first());
    }
}

/// A single message's token sum is its estimate.
proof fn lemma_total_singleton(m: Message)
    ensures
        total_tokens_of(seq![m]) == spec_estimated_tokens(m),
{
    assert(seq![m].drop_first() =~= Seq::<Message>::empty());
    assert(total_tokens_of(Seq::<Message>::empty()) == 0);
    assert(seq![m][0] == m);
}

/// Membership in a sequence with one entry prepended.
proof fn lemma_cons_contains(s: Seq<int>, h: int, x: int)
    ensures
        (seq![h] + s).contains(x) <==> (x == h || s.contains(x)),
{
    let c = seq![h] + s;
    if c.contains(x) {
        let k = choose|k: int| 0 <= k < c.len() && c[k] == x;
        if k > 0 {
            assert(s[k - 1] == x);
            assert(s.contains(x));
        }
    }
    if x == h {
        assert(c[0] == x);
        assert(c.contains(x));
    }
    if s.contains(x) {
        let k = choose|k: int| 0 <= k < s.len() && s[k] == x;
        assert(c[k + 1] == x);
        assert(c.contains(x));
    }
}

/// Dropping the first entry keeps a sequence duplicate-free.
proof fn lemma_drop_no_dup(s: Seq<int>)
    requires
        s.no_duplicates(),
        s.len() > 0,
    ensures
        s.drop_first().no_duplicates(),
{
    let d = s.drop_first();
    assert forall|i: int, j: int| 0 <= i < j < d.len() implies d[i] != d[j] by {
        assert(d[i] == s[i + 1]);
        assert(d[j] == s[j + 1]);
    }
}

/// Prepending an entry that is absent keeps a sequence duplicate-free.
proof fn lemma_cons_no_dup(s: Seq<int>, h: int)
    requires
        s.no_duplicates(),
        !s.contains(h),
    ensures
        (seq![h] + s).no_duplicates(),
{
    let c = seq![h] + s;
    assert forall|i: int, j: int| 0 <= i < j < c.len() implies c[i] != c[j] by {
        if i == 0 {
            assert(c[j] == s[j - 1]);
            assert(s.contains(s[j - 1]));
        } else {
            assert(c[i] == s[i - 1]);
            assert(c[j] == s[j - 1]);
        }
    }
}

/// Greedy acceptance never exceeds the remaining budget.
proof fn lemma_greedy_budget(msgs: Seq<Message>, order: Seq<int>, target: int, used: int)
    requires
        used <= target,
    ensures
        used + tokens_at(msgs, greedy_accepted(msgs, order, target, used)) <= target,
    decreases order.len(),
{
    if order.len() > 0 {
        let i = order[0];
        let t = spec_estimated_tokens(msgs[i]) as int;
        if used + t <= target {
            lemma_greedy_budget(msgs, order.drop_first(), target, used + t);
            let rest = greedy_accepted(msgs, order.drop_first(), target, used + t);
            assert((seq![i] + rest)[0] == i);
            assert((seq![i] + rest).drop_first() =~= rest);
        } else {
            lemma_greedy_budget(msgs, order.drop_first(), target, used);
        }
    }
}

/// When even the reserved suffix exceeds the target, nothing is accepted.
proof fn lemma_greedy_none(msgs: Seq<Message>, order: Seq<int>, target: int, used: int)
    requires
        used > target,
    ensures
        greedy_accepted(msgs, order, target, used) == Seq::<int>::empty(),
    decreases order.len(),
{
    if order.len() > 0 {
        lemma_greedy_none(msgs, order.drop_first(), target, used);
    }
}

/// The accepted candidates are a duplicate-free subset of the scan order.
proof fn lemma_greedy_sub(msgs: Seq<Message>, order: Seq<int>, target: int, used: int)
    requires
        order.no_duplicates(),
    ensures
        greedy_accepted(msgs, order, target, used).no_duplicates(),
        forall|x: int|
            #[trigger] greedy_accepted(msgs, order, target, used).contains(x) ==> order.contains(x),
    decreases order.len(),
{
    let g = greedy_accepted(msgs, order, target, used);
    if order.len() > 0 {
        lemma_drop_no_dup(order);
        let i = order[0];
        let t = spec_estimated_tokens(msgs[i]) as int;
        let rest_used = if used + t <= target {
            used + t
        } else {
            used
        };
        lemma_greedy_sub(msgs, order.drop_first(), target, rest_used);
        let grest = greedy_accepted(msgs, order.drop_first(), target, rest_used);
        assert forall|x: int| #[trigger] grest.contains(x) implies order.contains(x) by {
            assert(order.drop_first().contains(x));
            let k = choose|k: int| 0 <= k < order.drop_first().len() && order.drop_first()[k] == x;
            assert(order[k + 1] == x);
        }
        if used + t <= target {
            assert(!grest.contains(i)) by {
                if grest.contains(i) {
                    assert(order.drop_first().contains(i));
                    let k = choose|k: int|
                        0 <= k < order.drop_first().len() && order.drop_first()[k] == i;
                    assert(order[k + 1] == i);
                    assert(order[0] == i);
                }
            }
            lemma_cons_no_dup(grest, i);
            assert(g == seq![i] + grest);
            assert forall|x: int| #[trigger] g.contains(x) implies order.contains(x) by {
                lemma_cons_contains(grest, i, x);
                if x == i {
                    assert(order.contains(order[0]));
                }
            }
        }
    }
}

/// The rank order enumerates exactly the pending candidates, once each.
proof fn lemma_rank_of_covers(
    c: IntelligentCompactor,
    msgs: Seq<Message>,
    pending: Set<int>,
    fuel: nat,
)
    requires
        pending.finite(),
        fuel == pending.len(),
    ensures
        rank_of(c, msgs, pending, fuel).no_duplicates(),
        forall|x: int|
            #[trigger] rank_of(c, msgs, pending, fuel).contains(x) <==> pending.contains(x),
    decreases fuel,
{
    let r = rank_of(c, msgs, pending, fuel);
    lemma_set_empty_equivalency_len(pending);
    if pending.is_empty() {
        assert(r == Seq::<int>::empty());
        assert forall|x: int| !(#[trigger] r.contains(x)) by {}
    } else {
        lemma_best_candidate(c, msgs, pending);
        let b = crate::compaction::best_candidate(c, msgs, pending);
        let rest_set = pending.remove(b);
        lemma_rank_of_covers(c, msgs, rest_set, (fuel - 1) as nat);
        let rrest = rank_of(c, msgs, rest_set, (fuel - 1) as nat);
        assert(r == seq![b] + rrest);
        assert(!rrest.contains(b));
        lemma_cons_no_dup(rrest, b);
        assert forall|x: int| #[trigger] r.contains(x) <==> pending.contains(x) by {
            lemma_cons_contains(rrest, b, x);
        }
    }
}

/// Selecting with a pure index-range keep set yields exactly the suffix.
proof fn lemma_selected_range(msgs: Seq<Message>, cut: int, lo: int)
    requires
        0 <= cut <= msgs.len(),
        0 <= lo <= msgs.len(),
    ensures
        selected(msgs, set_int_range(cut, msgs.len() as int), lo) == msgs.skip(
            if lo < cut {
                cut
            } else {
                lo
            },
        ),
    decreases msgs.len() - lo,
{
    let n = msgs.len() as int;
    let rng = set_int_range(cut, n);
    if lo >= n {
        assert(msgs.skip(n) =~= Seq::<Message>::empty());
    } else {
        lemma_selected_range(msgs, cut, lo + 1);
        if lo < cut {
            assert(!rng.contains(lo));
        } else {
            assert(rng.contains(lo));
            assert(msgs.skip(lo)[0] == msgs[lo]);
            assert(seq![msgs[lo]] + msgs.skip(lo + 1) =~= msgs.skip(lo));
        }
    }
}

/// Inserting one fresh index into the keep set adds exactly that message's
/// tokens to the selection's total.
proof fn lemma_selected_insert_total(msgs: Seq<Message>, keep: Set<int>, j: int, lo: int)
    requires
        !keep.contains(j),
        0 <= lo <= msgs.len(),
    ensures
        total_tokens_of(selected(msgs, keep.insert(j), lo)) == total_tokens_of(
            selected(msgs, keep, lo),
        ) + (if lo <= j < msgs.len() {
            spec_estimated_tokens(msgs[j]) as int
        } else {
            0
        }),
    decreases msgs.len() - lo,
{
    let ki = keep.insert(j);
    if lo < msgs.len() {
        lemma_selected_insert_total(msgs, keep, j, lo + 1);
        if lo == j {
            assert(ki.contains(lo));
            assert(!keep.contains(lo));
            lemma_total_tokens_add(seq![msgs[lo]], selected(msgs, ki, lo + 1));
            lemma_total_singleton(msgs[lo]);
        } else {
            assert(ki.contains(lo) == keep.contains(lo));
            if keep.contains(lo) {
                lemma_total_tokens_add(seq![msgs[lo]], selected(msgs, ki, lo + 1));
                lemma_total_tokens_add(seq![msgs[lo]], selected(msgs, keep, lo + 1));
                lemma_total_singleton(msgs[lo]);
            }
        }
    }
}

/// The total of a selection made of accepted candidates plus the reserved
/// suffix is the accepted tokens plus the reserved tokens.
proof fn lemma_selected_union_total(msgs: Seq<Message>, acc: Seq<int>, cut: int)
    requires
        acc.no_duplicates(),
        forall|k: int| 0 <= k < acc.len() ==> 0 <= #[trigger] acc[k] < cut,
        0 <= cut <= msgs.len(),
    ensures
        total_tokens_of(
            selected(msgs, acc.to_set().union(set_int_range(cut, msgs.len() as int)), 0),
        ) == tokens_at(msgs, acc) + total_tokens_of(msgs.skip(cut)),
    decreases acc.len(),
{
    let n = msgs.len() as int;
    if acc.len() == 0 {
        assert(acc.to_set().union(set_int_range(cut, n)) =~= set_int_range(cut, n)) by {
            assert forall|x: int| !(#[trigger] acc.to_set().contains(x)) by {
                if acc.to_set().contains(x) {
                    assert(acc.contains(x));
                }
            }
        }
        lemma_selected_range(msgs, cut, 0);
        if cut == 0 {
            assert(msgs.skip(0) =~= msgs);
        }
    } else {
        let a0 = acc[0];
        let rest = acc.drop_first();
        lemma_drop_no_dup(acc);
        assert forall|k: int| 0 <= k < rest.len() implies 0 <= #[trigger] rest[k] < cut by {
            assert(rest[k] == acc[k + 1]);
        }
        lemma_selected_union_total(msgs, rest, cut);
        let kr = rest.to_set().union(set_int_range(cut, n));
        assert(!kr.contains(a0)) by {
            if rest.to_set().contains(a0) {
                assert(rest.contains(a0));
                let k = choose|k: int| 0 <= k < rest.len() && rest[k] == a0;
                assert(acc[k + 1] == a0);
                assert(acc[0] == a0);
            }
            assert(!set_int_range(cut, n).contains(a0));
        }
        lemma_selected_insert_total(msgs, kr, a0, 0);
        assert(acc.to_set().union(set_int_range(cut, n)) =~= kr.insert(a0)) by {
            assert(acc =~= seq![a0] + rest);
            assert forall|x: int| #[trigger] acc.contains(x) <==> (x == a0 || rest.contains(
                x,
            )) by {
                lemma_cons_contains(rest, a0, x);
            }
        }
    }
}

/// Budget convergence, Intelligent: whenever the unconditionally retained
/// suffix fits the target on its own, the whole result fits the target.
pub proof fn lemma_intelligent_budget(c: IntelligentCompactor, msgs: Seq<Message>, target: nat)
    requires
        total_tokens_of(msgs.skip(recent_cut(c, msgs))) <= target,
    ensures
        total_tokens_of(intelligent_kept(c, msgs, target)) <= target,
{
    let n = msgs.len() as int;
    let cut = recent_cut(c, msgs);
    let pend = set_int_range(0, cut);
    lemma_int_range(0, cut);
    let order = rank_of(c, msgs, pend, cut as nat);
    lemma_rank_of_covers(c, msgs, pend, cut as nat);
    let reserved = total_tokens_of(msgs.skip(cut)) as int;
    let accepted = greedy_accepted(msgs, order, target as int, reserved);
    lemma_greedy_sub(msgs, order, target as int, reserved);
    assert forall|k: int| 0 <= k < accepted.len() implies 0 <= #[trigger] accepted[k] < cut by {
        assert(accepted.contains(accepted[k]));
        assert(order.contains(accepted[k]));
        assert(pend.contains(accepted[k]));
    }
    lemma_selected_union_total(msgs, accepted, cut);
    lemma_greedy_budget(msgs, order, target as int, reserved);
}

/// When even the unconditionally retained suffix exceeds the target, the
/// Intelligent policy keeps exactly that suffix and nothing else.
pub proof fn lemma_intelligent_reserved_exceeds(
    c: IntelligentCompactor,
    msgs: Seq<Message>,
    target: nat,
)
    requires
        total_tokens_of(msgs.skip(recent_cut(c, msgs))) > target,
    ensures
        intelligent_kept(c, msgs, target) == msgs.skip(recent_cut(c, msgs)),
{
    let n = msgs.len() as int;
    let cut = recent_cut(c, msgs);
    let pend = set_int_range(0, cut);
    let order = rank_of(c, msgs, pend, cut as nat);
    let reserved = total_tokens_of(msgs.skip(cut)) as int;
    lemma_greedy_none(msgs, order, target as int, reserved);
    let accepted = greedy_accepted(msgs, order, target as int, reserved);
    assert(accepted.to_set().union(set_int_range(cut, n)) =~= set_int_range(cut, n)) by {
        assert forall|x: int| !(#[trigger] accepted.to_set().contains(x)) by {
            if accepted.to_set().contains(x) {
                assert(accepted.contains(x));
            }
        }
    }
    lemma_selected_range(msgs, cut, 0);
    if cut == 0 {
        assert(msgs.skip(0) =~= msgs);
    }
}

/// A selection is a subsequence of the suffix it selects from.
proof fn lemma_selected_subsequence(msgs: Seq<Message>, keep: Set<int>, i: int)
    requires
        0 <= i <= msgs.len(),
    ensures
        subsequence_of(selected(msgs, keep, i), msgs.skip(i)),
    decreases msgs.len() - i,
{
    if i == msgs.len() {
        assert(msgs.skip(i) =~= Seq::<Message>::empty());
    } else {
        lemma_selected_subsequence(msgs, keep, i + 1);
        let sk = msgs.skip(i);
        assert(sk[0] == msgs[i]);
        assert(sk.drop_first() =~= msgs.skip(i + 1));
        if keep.contains(i) {
            let s = selected(msgs, keep, i);
            assert(s == seq![msgs[i]] + selected(msgs, keep, i + 1));
            assert(s[0] == msgs[i]);
            assert(s.drop_first() =~= selected(msgs, keep, i + 1));
        }
    }
}

/// A keep set with no index at or beyond `j` selects nothing from `j` on.
proof fn lemma_selected_empty_beyond(msgs: Seq<Message>, keep: Set<int>, cut: int, j: int)
    requires
        forall|x: int| #[trigger] keep.contains(x) ==> 0 <= x < cut,
        0 <= cut <= j <= msgs.len(),
    ensures
        selected(msgs, keep, j) == Seq::<Message>::empty(),
    decreases msgs.len() - j,
{
    if j < msgs.len() {
        assert(!keep.contains(j));
        lemma_selected_empty_beyond(msgs, keep, cut, j + 1);
    }
}

/// Selecting accepted candidates plus the whole suffix splits into the
/// accepted part followed by the suffix.
proof fn lemma_selected_split(msgs: Seq<Message>, acc_set: Set<int>, cut: int, i: int)
    requires
        forall|x: int| #[trigger] acc_set.contains(x) ==> 0 <= x < cut,
        0 <= cut <= msgs.len(),
        0 <= i <= msgs.len(),
    ensures
        selected(msgs, acc_set.union(set_int_range(cut, msgs.len() as int)), i) == (if i < cut {
            selected(msgs, acc_set, i) + msgs.skip(cut)
        } else {
            msgs.skip(i)
        }),
    decreases msgs.len() - i,
{
    let n = msgs.len() as int;
    let k = acc_set.union(set_int_range(cut, n));
    if i == n {
        assert(msgs.skip(n) =~= Seq::<Message>::empty());
        if i < cut {
            assert(false);
        }
    } else {
        lemma_selected_split(msgs, acc_set, cut, i + 1);
        if i >= cut {
            assert(k.contains(i));
            assert(seq![msgs[i]] + msgs.skip(i + 1) =~= msgs.skip(i));
        } else {
            assert(k.contains(i) == acc_set.contains(i));
            if i + 1 == cut {
                lemma_selected_empty_beyond(msgs, acc_set, cut, i + 1);
                assert(Seq::<Message>::empty() + msgs.skip(cut) =~= msgs.skip(cut));
            }
            if acc_set.contains(i) {
                assert(seq![msgs[i]] + (selected(msgs, acc_set, i + 1) + msgs.skip(cut)) =~= (seq![
                    msgs[i],
                ] + selected(msgs, acc_set, i + 1)) + msgs.skip(cut));
            }
        }
    }
}

/// A keep set covering every index from `i` on selects the whole suffix.
proof fn lemma_selected_all(msgs: Seq<Message>, keep: Set<int>, i: int)
    requires
        0 <= i <= msgs.len(),
        forall|x: int| i <= x < msgs.len() ==> #[trigger] keep.contains(x),
    ensures
        selected(msgs, keep, i) == msgs.skip(i),
    decreases msgs.len() - i,
{
    if i == msgs.len() {
        assert(msgs.skip(i) =~= Seq::<Message>::empty());
    } else {
        lemma_selected_all(msgs, keep, i + 1);
        assert(seq![msgs[i]] + msgs.skip(i + 1) =~= msgs.skip(i));
    }
}

/// A log no longer than the unconditional suffix is kept whole by the
/// Intelligent policy.
proof fn lemma_intelligent_all_recent(c: IntelligentCompactor, msgs: Seq<Message>, target: nat)
    requires
        recent_cut(c, msgs) == 0,
    ensures
        intelligent_kept(c, msgs, target) == msgs,
{
    let n = msgs.len() as int;
    lemma_int_range(0, 0);
    lemma_set_empty_equivalency_len(set_int_range(0, 0));
    assert(set_int_range(0, 0) =~= Set::<int>::empty());
    let order = rank_of(c, msgs, set_int_range(0, 0), 0);
    assert(order == Seq::<int>::empty());
    let acc = greedy_accepted(msgs, order, target as int, total_tokens_of(msgs.skip(0)) as int);
    assert(acc == Seq::<int>::empty());
    let keep = acc.to_set().union(set_int_range(0, n));
    assert forall|x: int| 0 <= x < n implies #[trigger] keep.contains(x) by {
        assert(set_int_range(0, n).contains(x));
    }
    lemma_selected_all(msgs, keep, 0);
    assert(msgs.skip(0) =~= msgs);
}

/// Removing one entry keeps a sequence duplicate-free.
proof fn lemma_remove_no_dup(s: Seq<int>, k: int)
    requires
        s.no_duplicates(),
        0 <= k < s.len(),
    ensures
        s.remove(k).no_duplicates(),
        forall|x: int| #[trigger] s.remove(k).contains(x) <==> (s.contains(x) && x != s[k]),
{
    let r = s.remove(k);
    assert forall|i: int, j: int| 0 <= i < j < r.len() implies r[i] != r[j] by {}
    assert forall|x: int| #[trigger] r.contains(x) <==> (s.contains(x) && x != s[k]) by {
        if r.contains(x) {
            let w = choose|w: int| 0 <= w < r.len() && r[w] == x;
            if w < k {
                assert(s[w] == x);
                assert(s.contains(x));
            } else {
                assert(s[w + 1] == x);
                assert(s.contains(x));
            }
        }
        if s.contains(x) && x != s[k] {
            let w = choose|w: int| 0 <= w < s.len() && s[w] == x;
            if w < k {
                assert(r[w] == x);
                assert(r.contains(x));
            } else {
                assert(w > k);
                assert(r[w - 1] == x);
                assert(r.contains(x));
            }
        }
    }
}

/// Removing one entry subtracts exactly its message's tokens.
proof fn lemma_tokens_at_remove(msgs: Seq<Message>, s: Seq<int>, k: int)
    requires
        0 <= k < s.len(),
    ensures
        tokens_at(msgs, s.remove(k)) == tokens_at(msgs, s) - spec_estimated_tokens(msgs[s[k]]),
    decreases s.len(),
{
    if k == 0 {
        assert(s.remove(0) =~= s.drop_first());
    } else {
        lemma_tokens_at_remove(msgs, s.drop_first(), k - 1);
        assert(s.remove(k)[0] == s[0]);
        assert(s.remove(k).drop_first() =~= s.drop_first().remove(k - 1));
        assert(s.drop_first()[k - 1] == s[k]);
    }
}

/// A duplicate-free enumeration of exactly the indices below `cut` carries
/// the same tokens as the prefix itself.
proof fn lemma_tokens_at_cover(msgs: Seq<Message>, s: Seq<int>, cut: int)
    requires
        s.no_duplicates(),
        forall|x: int| #[trigger] s.contains(x) <==> 0 <= x < cut,
        0 <= cut <= msgs.len(),
    ensures
        tokens_at(msgs, s) == total_tokens_of(msgs.take(cut)),
    decreases cut,
{
    if cut == 0 {
        if s.len() > 0 {
            assert(s.contains(s[0]));
            assert(false);
        }
        assert(msgs.take(0) =~= Seq::<Message>::empty());
    } else {
        assert(s.contains(cut - 1));
        let k = choose|k: int| 0 <= k < s.len() && s[k] == cut - 1;
        let s2 = s.remove(k);
        lemma_remove_no_dup(s, k);
        lemma_tokens_at_remove(msgs, s, k);
        assert forall|x: int| #[trigger] s2.contains(x) <==> 0 <= x < cut - 1 by {
            if s2.contains(x) {
                assert(s.contains(x));
            }
            if 0 <= x < cut - 1 {
                assert(s.contains(x));
            }
        }
        lemma_tokens_at_cover(msgs, s2, cut - 1);
        assert(msgs.take(cut) =~= msgs.take(cut - 1) + seq![msgs[cut - 1]]);
        lemma_total_tokens_add(msgs.take(cut - 1), seq![msgs[cut - 1]]);
        lemma_total_singleton(msgs[cut - 1]);
    }
}

/// Greedy acceptance takes everything whose combined cost fits.
proof fn lemma_greedy_all(msgs: Seq<Message>, order: Seq<int>, target: int, used: int)
    requires
        used + tokens_at(msgs, order) <= target,
    ensures
        greedy_accepted(msgs, order, target, used) == order,
    decreases order.len(),
{
    if order.len() > 0 {
        let i = order[0];
        let t = spec_estimated_tokens(msgs[i]) as int;
        lemma_tokens_at_nonneg(msgs, order.drop_first());
        assert(used + t <= target);
        lemma_greedy_all(msgs, order.drop_first(), target, used + t);
        assert(seq![i] + order.drop_first() =~= order);
    }
}

/// Idempotence, Intelligent: applying the policy to its own result changes
/// nothing. Whatever survived the first pass fits again: either the whole
/// candidate budget was respected, so every earlier survivor is re-accepted,
/// or only the unconditional suffix survived, which is never dropped.
pub proof fn lemma_intelligent_idempotent(c: IntelligentCompactor, msgs: Seq<Message>, target: nat)
    ensures
        intelligent_kept(c, intelligent_kept(c, msgs, target), target) == intelligent_kept(
            c,
            msgs,
            target,
        ),
{
    let n = msgs.len() as int;
    let cut = recent_cut(c, msgs);
    if cut == 0 {
        lemma_intelligent_all_recent(c, msgs, target);
        lemma_intelligent_all_recent(c, intelligent_kept(c, msgs, target), target);
    } else {
        let pend = set_int_range(0, cut);
        lemma_int_range(0, cut);
        let order = rank_of(c, msgs, pend, cut as nat);
        lemma_rank_of_covers(c, msgs, pend, cut as nat);
        let reserved = total_tokens_of(msgs.skip(cut)) as int;
        let acc = greedy_accepted(msgs, order, target as int, reserved);
        lemma_greedy_sub(msgs, order, target as int, reserved);
        assert forall|x: int| #[trigger] acc.to_set().contains(x) implies 0 <= x < cut by {
            assert(acc.contains(x));
            assert(order.contains(x));
            assert(pend.contains(x));
        }
        lemma_selected_split(msgs, acc.to_set(), cut, 0);
        let res = intelligent_kept(c, msgs, target);
        let prefix = selected(msgs, acc.to_set(), 0);
        let suffix = msgs.skip(cut);
        assert(res == prefix + suffix);
        assert(suffix.len() == n - cut);
        if reserved > target {
            // Nothing was accepted: only the reserved suffix survived, and a
            // log no longer than the suffix is kept whole.
            lemma_greedy_none(msgs, order, target as int, reserved);
            assert(acc.to_set() =~= Set::<int>::empty()) by {
                assert forall|x: int| !(#[trigger] acc.to_set().contains(x)) by {
                    if acc.to_set().contains(x) {
                        assert(acc.contains(x));
                    }
                }
            }
            lemma_selected_empty_beyond(msgs, acc.to_set(), 0, 0);
            assert(prefix =~= Seq::<Message>::empty());
            assert(Seq::<Message>::empty() + suffix =~= suffix);
            assert(res.len() == n - cut);
            assert(recent_cut(c, res) == 0);
            lemma_intelligent_all_recent(c, res, target);
        } else {
            // The accepted candidates plus the suffix fit the target, so the
            // rescan re-accepts every survivor.
            let n2 = res.len() as int;
            let cut2 = recent_cut(c, res);
            assert(n - cut == c.min_recent_messages as int);
            assert(cut2 == prefix.len() as int) by {
                if prefix.len() == 0 {
                    assert(n2 == c.min_recent_messages as int);
                } else {
                    assert(n2 > c.min_recent_messages as int);
                }
            }
            if cut2 == 0 {
                lemma_intelligent_all_recent(c, res, target);
            } else {
                assert(res.skip(cut2) =~= suffix);
                assert(res.take(cut2) =~= prefix);
                let reserved2 = total_tokens_of(res.skip(cut2)) as int;
                assert(reserved2 == reserved);
                let pend2 = set_int_range(0, cut2);
                lemma_int_range(0, cut2);
                let order2 = rank_of(c, res, pend2, cut2 as nat);
                lemma_rank_of_covers(c, res, pend2, cut2 as nat);
                // Cost of the rescan's whole candidate range: exactly the
                // tokens the first pass accepted.
                assert forall|x: int| #[trigger] order2.contains(x) <==> 0 <= x < cut2 by {
                    assert(order2.contains(x) <==> pend2.contains(x));
                }
                lemma_tokens_at_cover(res, order2, cut2);
                assert(tokens_at(res, order2) == total_tokens_of(prefix));
                assert forall|k: int| 0 <= k < acc.len() implies 0 <= #[trigger] acc[k]
                    < cut by {
                    assert(acc.contains(acc[k]));
                    assert(order.contains(acc[k]));
                    assert(pend.contains(acc[k]));
                }
                lemma_selected_union_total(msgs, acc, cut);
                lemma_total_tokens_add(prefix, suffix);
                assert(total_tokens_of(prefix) == tokens_at(msgs, acc));
                lemma_greedy_budget(msgs, order, target as int, reserved);
                assert(reserved2 + tokens_at(res, order2) <= target);
                lemma_greedy_all(res, order2, target as int, reserved2);
                let acc2 = greedy_accepted(res, order2, target as int, reserved2);
                assert(acc2 == order2);
                let keep2 = acc2.to_set().union(set_int_range(cut2, n2));
                assert forall|x: int| 0 <= x < n2 implies #[trigger] keep2.contains(x) by {
                    if x < cut2 {
                        assert(order2.contains(x));
                        assert(acc2.to_set().contains(x));
                    } else {
                        assert(set_int_range(cut2, n2).contains(x));
                    }
                }
                lemma_selected_all(res, keep2, 0);
                assert(res.skip(0) =~= res);
            }
        }
    }
}

/// Idempotence, for every policy: what a policy keeps of its own result is
/// that result, so compacting twice with the same policy and budget equals
/// compacting once.
pub proof fn lemma_strategy_idempotent(s: CompactionStrategy, msgs: Seq<Message>)
    ensures
        strategy_kept(s, strategy_kept(s, msgs)) == strategy_kept(s, msgs),
{
    match s {
        CompactionStrategy::Sliding { max_tokens } => {
            lemma_sliding_idempotent(msgs, max_tokens as nat);
        },
        CompactionStrategy::SystemAndRecent { system_tokens, recent_tokens } => {
            lemma_system_and_recent_idempotent(msgs, system_tokens as nat, recent_tokens as nat);
        },
        CompactionStrategy::Intelligent { target_tokens } => {
            if total_tokens_of(msgs) > target_tokens {
                lemma_intelligent_idempotent(
                    crate::compaction::spec_default_compactor(),
                    msgs,
                    target_tokens as nat,
                );
            }
        },
    }
}

/// Chronological order preserved, Intelligent: the survivors are a
/// subsequence of the original turns, and a chronological log stays
/// chronological.
pub proof fn lemma_intelligent_preserves_order(
    c: IntelligentCompactor,
    msgs: Seq<Message>,
    target: nat,
)
    ensures
        subsequence_of(intelligent_kept(c, msgs, target), msgs),
        chronological(msgs) ==> chronological(intelligent_kept(c, msgs, target)),
{
    let n = msgs.len() as int;
    let cut = recent_cut(c, msgs);
    let reserved = total_tokens_of(msgs.skip(cut)) as int;
    let order = rank_of(c, msgs, set_int_range(0, cut), cut as nat);
    let accepted = greedy_accepted(msgs, order, target as int, reserved);
    let keepset = accepted.to_set().union(set_int_range(cut, n));
    lemma_selected_subsequence(msgs, keepset, 0);
    assert(msgs.skip(0) =~= msgs);
    if chronological(msgs) {
        lemma_subsequence_chronological(intelligent_kept(c, msgs, target), msgs);
    }
}

} // verus!
