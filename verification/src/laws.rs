//! Pass-level guarantees of the scheduler, proved from the transition
//! predicates its contracts state: a pass never delivers a key twice, a
//! pass delivers every eligible item exactly once before ending, and
//! ensuring an item is idempotent.

use vstd::prelude::*;
use crate::item::Item;
use crate::scheduler::{eligible, find_eligible, Scheduler};

verus! {

/// How many rows are eligible for session `sid` at time `now`.
pub open spec fn count_eligible(items: Seq<Item>, now: i64, sid: int) -> nat
    decreases items.len(),
{
    if items.len() == 0 {
        0
    } else {
        count_eligible(items.drop_last(), now, sid) + if eligible(items.last(), now, sid) {
            1nat
        } else {
            0nat
        }
    }
}

/// The count is zero exactly when no row is eligible.
pub proof fn lemma_count_zero(items: Seq<Item>, now: i64, sid: int)
    ensures
        (count_eligible(items, now, sid) == 0) <==> (forall|j: int|
            0 <= j < items.len() ==> !eligible(#[trigger] items[j], now, sid)),
    decreases items.len(),
{
    if items.len() > 0 {
        lemma_count_zero(items.drop_last(), now, sid);
        assert(forall|j: int|
            0 <= j < items.len() - 1 ==> #[trigger] items[j] == items.drop_last()[j]);
        assert(items.last() == items[items.len() - 1]);
    }
}

/// Replacing one row changes the count by the eligibility it loses or gains.
pub proof fn lemma_count_update(items: Seq<Item>, now: i64, sid: int, i: int, x: Item)
    requires
        0 <= i < items.len(),
    ensures
        count_eligible(items.update(i, x), now, sid) + (if eligible(items[i], now, sid) {
            1nat
        } else {
            0nat
        }) == count_eligible(items, now, sid) + (if eligible(x, now, sid) {
            1nat
        } else {
            0nat
        }),
    decreases items.len(),
{
    let u = items.update(i, x);
    if i == items.len() - 1 {
        assert(u.drop_last() =~= items.drop_last());
        assert(u.last() == x);
    } else {
        lemma_count_update(items.drop_last(), now, sid, i, x);
        assert(u.drop_last() =~= items.drop_last().update(i, x));
        assert(u.last() == items.last());
    }
}

/// The search returns nothing exactly when no row at or after `from` is
/// eligible.
pub proof fn lemma_find_none(items: Seq<Item>, now: i64, sid: int, from: int)
    requires
        0 <= from <= items.len(),
    ensures
        (find_eligible(items, now, sid, from) is None) <==> (forall|j: int|
            from <= j < items.len() ==> !eligible(#[trigger] items[j], now, sid)),
    decreases items.len() - from,
{
    if from < items.len() {
        lemma_find_none(items, now, sid, from + 1);
    }
}

/// What the search finds is an eligible row in range.
pub proof fn lemma_find_some(items: Seq<Item>, now: i64, sid: int, from: int)
    requires
        0 <= from <= items.len(),
        find_eligible(items, now, sid, from) is Some,
    ensures
        from <= find_eligible(items, now, sid, from)->0 < items.len(),
        eligible(items[find_eligible(items, now, sid, from)->0], now, sid),
    decreases items.len() - from,
{
    if from < items.len() && !eligible(items[from], now, sid) {
        lemma_find_some(items, now, sid, from + 1);
    }
}

/// The row the selector picks is eligible, and it picks one whenever any
/// row is eligible.
pub proof fn lemma_selected_row(s: Scheduler, now: i64)
    ensures
        match s.selected_row(now) {
            Some(i) => 0 <= i < s.items@.len() && eligible(
                s.items@[i],
                now,
                s.candidate_sid(),
            ),
            None => forall|j: int|
                0 <= j < s.items@.len() ==> !eligible(#[trigger] s.items@[j], now, s.candidate_sid()),
        },
{
    let sid = s.candidate_sid();
    let from = s.resume_at();
    if find_eligible(s.items@, now, sid, from) is Some {
        lemma_find_some(s.items@, now, sid, from);
    } else {
        match find_eligible(s.items@, now, sid, 0) {
            Some(_) => {
                lemma_find_some(s.items@, now, sid, 0);
            },
            None => {
                lemma_find_none(s.items@, now, sid, 0);
            },
        }
    }
}

/// A chain of `next_due` transitions: `states` are the scheduler states
/// observed around each call, `results` the returned keys, `times` the
/// review times passed in. Every state is well-formed, as the scheduler's
/// contracts guarantee.
pub open spec fn delivery_chain(
    states: Seq<Scheduler>,
    results: Seq<Option<Seq<char>>>,
    times: Seq<i64>,
) -> bool {
    &&& states.len() == results.len() + 1
    &&& times.len() == results.len()
    &&& forall|i: int|
        0 <= i < results.len() ==> #[trigger] Scheduler::next_due_post(
            states[i],
            states[i + 1],
            results[i],
            times[i],
        )
    &&& forall|i: int| 0 <= i < states.len() ==> (#[trigger] states[i]).wf()
}

/// One link of a delivery chain, spelled out.
proof fn lemma_chain_at(
    states: Seq<Scheduler>,
    results: Seq<Option<Seq<char>>>,
    times: Seq<i64>,
    i: int,
)
    requires
        delivery_chain(states, results, times),
        0 <= i < results.len(),
    ensures
        Scheduler::next_due_post(states[i], states[i + 1], results[i], times[i]),
        states[i].wf(),
        states[i + 1].wf(),
{
}

/// The row holding `k` is stamped with the session that is open.
pub open spec fn marked_current(s: Scheduler, k: Seq<char>) -> bool {
    &&& s.session_id != 0
    &&& s.has_key(k)
    &&& s.items@[s.idx_of(k)].session_marker == s.session_id
}

/// The id a search runs against is never 0.
proof fn lemma_candidate_nonzero(s: Scheduler)
    requires
        s.wf(),
    ensures
        s.candidate_sid() != 0,
{
    if s.session_id == 0 && s.sessions@.len() > 0 {
        assert(s.sessions@[s.sessions@.len() - 1].0 > 0);
    }
}

/// Delivering `k` stamps the row holding `k` with the open session.
proof fn lemma_delivery_marks(pre: Scheduler, post: Scheduler, k: Seq<char>, now: i64)
    requires
        pre.wf(),
        post.wf(),
        Scheduler::next_due_post(pre, post, Some(k), now),
    ensures
        marked_current(post, k),
{
    let i = pre.selected_row(now)->0;
    let sid = pre.candidate_sid();
    lemma_candidate_nonzero(pre);
    lemma_selected_row(pre, now);
    assert(k == pre.key_at(i));
    assert(post.items@[i].key == pre.items@[i].key);
    assert(post.key_at(i) == k);
    post.lemma_idx_of_unique(i, k);
    assert(post.items@[i].session_marker == sid);
}

/// A further delivery in the same pass keeps the stamp on `k` and keeps
/// the session open.
proof fn lemma_marked_preserved(pre: Scheduler, post: Scheduler, r: Option<Seq<char>>, now: i64, k: Seq<char>)
    requires
        pre.wf(),
        post.wf(),
        Scheduler::next_due_post(pre, post, r, now),
        marked_current(pre, k),
    ensures
        marked_current(post, k),
        post.session_id == pre.session_id,
{
    match pre.selected_row(now) {
        None => {},
        Some(i) => {
            lemma_selected_row(pre, now);
            let sid = pre.candidate_sid();
            assert(sid == pre.session_id);
            let m = pre.idx_of(k);
            assert(pre.key_at(m) == k && 0 <= m < pre.len());
            assert(pre.items@[m].session_marker == sid);
            assert(eligible(pre.items@[i], now, sid));
            assert(i != m);
            assert(post.items@[m] == pre.items@[m]);
            assert(post.key_at(m) == k);
            post.lemma_idx_of_unique(m, k);
        },
    }
}

/// The stamp on `k` survives any number of further deliveries of the pass.
proof fn lemma_marked_through(
    states: Seq<Scheduler>,
    results: Seq<Option<Seq<char>>>,
    times: Seq<i64>,
    i: int,
    j: int,
    k: Seq<char>,
)
    requires
        delivery_chain(states, results, times),
        0 <= i <= j < states.len(),
        marked_current(states[i], k),
    ensures
        marked_current(states[j], k),
    decreases j - i,
{
    if i < j {
        assert(Scheduler::next_due_post(states[i], states[i + 1], results[i], times[i]));
        assert(states[i].wf() && states[i + 1].wf());
        lemma_marked_preserved(states[i], states[i + 1], results[i], times[i], k);
        lemma_marked_through(states, results, times, i + 1, j, k);
    }
}

/// No duplicate delivery within a pass: over any run of `next_due` calls
/// on one scheduler instance, no key is returned twice before the session
/// advances.
pub proof fn lemma_no_duplicate_delivery(
    states: Seq<Scheduler>,
    results: Seq<Option<Seq<char>>>,
    times: Seq<i64>,
    a: int,
    b: int,
)
    requires
        delivery_chain(states, results, times),
        0 <= a < b < results.len(),
        results[a] is Some,
        results[b] is Some,
    ensures
        results[a] != results[b],
{
    let k = results[a]->0;
    assert(Scheduler::next_due_post(states[a], states[a + 1], results[a], times[a]));
    assert(results[a] == Some(k));
    assert(states[a].wf() && states[a + 1].wf());
    lemma_delivery_marks(states[a], states[a + 1], k, times[a]);
    lemma_marked_through(states, results, times, a + 1, b, k);
    if results[b] == results[a] {
        let pre = states[b];
        let post = states[b + 1];
        assert(Scheduler::next_due_post(pre, post, results[b], times[b]));
        assert(pre.wf());
        lemma_selected_row(pre, times[b]);
        let i = pre.selected_row(times[b])->0;
        let sid = pre.candidate_sid();
        assert(pre.selected_row(times[b]) is Some);
        assert(sid == pre.session_id);
        assert(pre.key_at(i) == k);
        pre.lemma_idx_of_unique(i, k);
        assert(i == pre.idx_of(k));
        assert(eligible(pre.items@[i], times[b], sid));
        assert(pre.items@[i].session_marker == sid);
        assert(false);
    }
}

/// One delivering step: with an eligible row present, `next_due` returns a
/// key, keeps the same session in play, and leaves exactly one fewer
/// eligible row.
proof fn lemma_step_decreases(pre: Scheduler, post: Scheduler, r: Option<Seq<char>>, now: i64)
    requires
        pre.wf(),
        post.wf(),
        Scheduler::next_due_post(pre, post, r, now),
        count_eligible(pre.items@, now, pre.candidate_sid()) > 0,
    ensures
        r is Some,
        post.candidate_sid() == pre.candidate_sid(),
        count_eligible(post.items@, now, post.candidate_sid()) == count_eligible(
            pre.items@,
            now,
            pre.candidate_sid(),
        ) - 1,
{
    let sid = pre.candidate_sid();
    lemma_count_zero(pre.items@, now, sid);
    lemma_selected_row(pre, now);
    match pre.selected_row(now) {
        None => {
            assert(count_eligible(pre.items@, now, sid) == 0);
        },
        Some(i) => {
            lemma_candidate_nonzero(pre);
            let x = (Item { session_marker: sid as i64, ..pre.items@[i] });
            assert(post.items@ =~= pre.items@.update(i, x));
            lemma_count_update(pre.items@, now, sid, i, x);
            assert(!eligible(x, now, sid));
            assert(post.session_id == sid);
        },
    }
}

/// With no eligible row, `next_due` changes nothing and returns nothing.
proof fn lemma_step_exhausted(pre: Scheduler, post: Scheduler, r: Option<Seq<char>>, now: i64)
    requires
        pre.wf(),
        post.wf(),
        Scheduler::next_due_post(pre, post, r, now),
        count_eligible(pre.items@, now, pre.candidate_sid()) == 0,
    ensures
        r is None,
        post == pre,
{
    lemma_count_zero(pre.items@, now, pre.candidate_sid());
    lemma_selected_row(pre, now);
    match pre.selected_row(now) {
        None => {},
        Some(i) => {
            assert(eligible(pre.items@[i], now, pre.candidate_sid()));
        },
    }
}

/// Exhaustiveness: starting from a state with N eligible rows, a pass of
/// N+1 calls at one time `now` returns a key on each of the first N calls
/// and nothing on the last.
pub proof fn lemma_pass_exhaustive(
    states: Seq<Scheduler>,
    results: Seq<Option<Seq<char>>>,
    times: Seq<i64>,
    now: i64,
)
    requires
        delivery_chain(states, results, times),
        forall|i: int| 0 <= i < times.len() ==> #[trigger] times[i] == now,
        results.len() == count_eligible(states[0].items@, now, states[0].candidate_sid()) + 1,
    ensures
        forall|i: int| 0 <= i < results.len() - 1 ==> (#[trigger] results[i]) is Some,
        results[results.len() - 1] is None,
    decreases results.len(),
{
    let n = count_eligible(states[0].items@, now, states[0].candidate_sid());
    assert(Scheduler::next_due_post(states[0], states[1], results[0], times[0]));
    assert(times[0] == now);
    assert(states[0].wf() && states[1].wf());
    if n == 0 {
        lemma_step_exhausted(states[0], states[1], results[0], now);
    } else {
        lemma_step_decreases(states[0], states[1], results[0], now);
        let states2 = states.drop_first();
        let results2 = results.drop_first();
        let times2 = times.drop_first();
        assert forall|i: int|
            0 <= i < results2.len() implies #[trigger] Scheduler::next_due_post(
            states2[i],
            states2[i + 1],
            results2[i],
            times2[i],
        ) by {
            lemma_chain_at(states, results, times, i + 1);
            assert(states2[i] == states[i + 1]);
            assert(states2[i + 1] == states[i + 2]);
            assert(results2[i] == results[i + 1]);
            assert(times2[i] == times[i + 1]);
        }
        assert forall|i: int| 0 <= i < states2.len() implies (#[trigger] states2[i]).wf() by {
            assert(states[i + 1].wf());
        }
        assert forall|i: int| 0 <= i < times2.len() implies #[trigger] times2[i] == now by {
            assert(times[i + 1] == now);
        }
        lemma_pass_exhaustive(states2, results2, times2, now);
        assert forall|i: int| 0 <= i < results.len() - 1 implies (#[trigger] results[i]) is Some by {
            if i > 0 {
                assert(results2[i - 1] is Some);
            }
        }
        assert(results2[results2.len() - 1] is None);
    }
}

/// A pass ends quietly: when every stored row was already shown in the open
/// session or is not yet due, the next delivery returns nothing — the
/// normal terminal state, not an error — and leaves the scheduler exactly
/// as it was.
pub proof fn lemma_pass_complete(pre: Scheduler, post: Scheduler, r: Option<Seq<char>>, now: i64)
    requires
        pre.wf(),
        Scheduler::next_due_post(pre, post, r, now),
        pre.session_id != 0,
        forall|j: int|
            0 <= j < pre.items@.len() ==> (#[trigger] pre.items@[j]).session_marker
                == pre.session_id || pre.items@[j].due_at > now,
    ensures
        r is None,
        post == pre,
{
    lemma_selected_row(pre, now);
    match pre.selected_row(now) {
        None => {},
        Some(i) => {
            assert(eligible(pre.items@[i], now, pre.candidate_sid()));
            assert(pre.items@[i].session_marker == pre.session_id || pre.items@[i].due_at > now);
        },
    }
}

/// Idempotent ensure: ensuring the same key twice leaves, after the second
/// call, exactly the state the first call left.
pub proof fn lemma_ensure_idempotent(
    s0: Scheduler,
    s1: Scheduler,
    s2: Scheduler,
    k: Seq<char>,
    n1: i64,
    n2: i64,
)
    requires
        Scheduler::ensure_post(s0, s1, k, n1),
        Scheduler::ensure_post(s1, s2, k, n2),
    ensures
        s2 == s1,
{
    if s0.has_key(k) {
        assert(s1 == s0);
    } else {
        assert(s1.has_key(k)) by {
            assert(s1.key_at(s0.len() as int) == k);
        }
    }
}

} // verus!
