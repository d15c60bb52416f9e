//! The review scheduler: a durable table of items with their scheduling
//! state, a session tracker, the review selector with its wrap-around
//! search, and the feedback applicator.

use vstd::prelude::*;
use crate::error::Error;
use crate::item::Item;
use crate::model::{fresh_card, model_next, MAX_EPOCH};
use crate::rating::Rating;
use crate::textutil::str_eq;
use vstd::string::StrSliceExecFns;

verus! {

/// The scheduler instance: item rows, the session ledger, and the transient
/// state of the current review pass. A row's position in `items` is its row
/// ordinal; `keys` is the secondary index over item keys, kept consistent
/// with `items` on every insert, update and delete.
pub struct Scheduler {
    /// Item rows, in insertion order.
    pub items: Vec<Item>,
    /// Secondary index over `items`: entry `i` holds the key of row `i`.
    pub keys: Vec<String>,
    /// Session ledger: (id, creation time), with strictly increasing ids.
    pub sessions: Vec<(i64, i64)>,
    /// Version marker for the store layout; 1 once initialized.
    pub schema_version: u32,
    /// Id of the currently open review pass, or 0 when none is open.
    pub session_id: i64,
    /// Row ordinal just past the last delivered row; the next search
    /// resumes here before wrapping around to the start.
    pub cursor: usize,
}

impl Scheduler {
    /// Number of item rows.
    pub open spec fn len(self) -> nat {
        self.items@.len()
    }

    /// The key of row `i`, as a sequence of characters.
    pub open spec fn key_at(self, i: int) -> Seq<char> {
        self.items@[i].key@
    }

    /// Whether some row holds the key `k`.
    pub open spec fn has_key(self, k: Seq<char>) -> bool {
        exists|i: int| 0 <= i < self.len() && self.key_at(i) == k
    }

    /// The row ordinal of the key `k` (meaningful only when `has_key`).
    pub open spec fn idx_of(self, k: Seq<char>) -> int {
        choose|i: int| 0 <= i < self.len() && self.key_at(i) == k
    }

    /// Whether `sid` appears in the session ledger.
    pub open spec fn session_recorded(self, sid: i64) -> bool {
        exists|i: int| 0 <= i < self.sessions@.len() && self.sessions@[i].0 == sid
    }

    /// Well-formedness: the secondary index matches the rows, keys are
    /// unique, the session ledger is strictly increasing with positive ids,
    /// and every session marker (and the open session, if any) is either
    /// unset or recorded in the ledger.
    pub open spec fn wf(self) -> bool {
        &&& self.keys@.len() == self.items@.len()
        &&& forall|i: int| 0 <= i < self.len() ==> #[trigger] self.keys@[i]@ == self.key_at(i)
        &&& forall|i: int, j: int|
            0 <= i < j < self.len() ==> self.key_at(i) != self.key_at(j)
        &&& forall|i: int, j: int|
            0 <= i < j < self.sessions@.len() ==> #[trigger] self.sessions@[i].0
                < #[trigger] self.sessions@[j].0
        &&& forall|i: int| 0 <= i < self.sessions@.len() ==> 0 < #[trigger] self.sessions@[i].0
        &&& forall|i: int|
            0 <= i < self.len() ==> (#[trigger] self.items@[i].session_marker == 0
                || self.session_recorded(self.items@[i].session_marker))
        &&& (self.session_id == 0 || self.session_recorded(self.session_id))
        &&& self.schema_version == 1
    }

    /// A fresh, empty store with its schema initialized and no open pass.
    pub fn new() -> (s: Scheduler)
        ensures
            s.wf(),
            s.items@.len() == 0,
            s.sessions@.len() == 0,
            s.session_id == 0,
            s.cursor == 0,
    {
        Scheduler {
            items: Vec::new(),
            keys: Vec::new(),
            sessions: Vec::new(),
            schema_version: 1,
            session_id: 0,
            cursor: 0,
        }
    }

    /// Find the row ordinal holding `key`, if any.
    fn find_row(&self, key: &str) -> (r: Option<usize>)
        requires
            self.wf(),
        ensures
            match r {
                Some(i) => i < self.len() && self.key_at(i as int) == key@,
                None => !self.has_key(key@),
            },
    {
        let n = self.keys.len();
        let mut i: usize = 0;
        while i < n
            invariant
                n == self.keys@.len(),
                self.wf(),
                i <= n,
                forall|j: int| 0 <= j < i ==> self.key_at(j) != key@,
            decreases n - i,
        {
            if str_eq(self.keys[i].as_str(), key) {
                return Some(i);
            }
            i += 1;
        }
        None
    }

    /// What `ensure_item` does: inserting an absent key appends one fresh
    /// row, due immediately and never shown; an existing key leaves the
    /// store untouched.
    pub open spec fn ensure_post(pre: Scheduler, post: Scheduler, k: Seq<char>, now: i64) -> bool {
        &&& (pre.has_key(k) ==> post == pre)
        &&& (!pre.has_key(k) ==> {
            &&& post.items@.len() == pre.items@.len() + 1
            &&& forall|i: int| 0 <= i < pre.len() ==> post.items@[i] == pre.items@[i]
            &&& post.key_at(pre.len() as int) == k
            &&& post.items@.last().due_at == now
            &&& post.items@.last().last_reviewed_at == now
            &&& post.items@.last().session_marker == 0
            &&& post.sessions@ == pre.sessions@
            &&& post.session_id == pre.session_id
            &&& post.cursor == pre.cursor
        })
    }

    /// Insert `key` with a fresh strength state and `due_at = now` if it is
    /// absent; leave the store unchanged if it is present. Safe to call
    /// repeatedly.
    pub fn ensure_item(&mut self, key: &str, now: i64)
        requires
            old(self).wf(),
        ensures
            final(self).wf(),
            Scheduler::ensure_post(*old(self), *final(self), key@, now),
    {
        match self.find_row(key) {
            Some(_) => {},
            None => {
                let item = Item {
                    key: key.to_owned(),
                    due_at: now,
                    strength: fresh_card(),
                    last_reviewed_at: now,
                    session_marker: 0,
                };
                self.items.push(item);
                self.keys.push(key.to_owned());
                proof {
                    let n = old(self).len() as int;
                    assert(self.sessions@ == old(self).sessions@);
                    assert forall|i: int, j: int|
                        0 <= i < j < self.len() implies self.key_at(i) != self.key_at(j) by {
                        if j < n {
                            assert(old(self).key_at(i) != old(self).key_at(j));
                        } else {
                            assert(self.key_at(j) == key@);
                            assert(old(self).key_at(i) != key@);
                        }
                    }
                    assert forall|i: int|
                        0 <= i < self.len() implies #[trigger] self.keys@[i]@ == self.key_at(
                        i,
                    ) by {
                        if i < n {
                            assert(old(self).keys@[i]@ == old(self).key_at(i));
                        }
                    }
                    assert forall|i: int|
                        0 <= i < self.len() implies (#[trigger] self.items@[i].session_marker == 0
                            || self.session_recorded(self.items@[i].session_marker)) by {
                        if i < n {
                            assert(old(self).items@[i].session_marker == 0 || old(
                                self,
                            ).session_recorded(old(self).items@[i].session_marker));
                        }
                    }
                }
            },
        }
    }

    /// Look up the stored item for `key`.
    pub fn get_item(&self, key: &str) -> (r: Option<&Item>)
        requires
            self.wf(),
        ensures
            match r {
                Some(it) => self.has_key(key@) && *it == self.items@[self.idx_of(key@)],
                None => !self.has_key(key@),
            },
    {
        match self.find_row(key) {
            Some(i) => {
                proof {
                    self.lemma_idx_of_unique(i as int, key@);
                }
                Some(&self.items[i])
            },
            None => None,
        }
    }

    /// Overwrite the scheduling state of `key` as one atomic write: the due
    /// time and strength state change together with the review time, the
    /// key, the session marker and every other row stay as they were.
    /// Fails with `NotFound`, touching nothing, iff `key` is absent.
    pub fn update_item(
        &mut self,
        key: &str,
        new_due_at: i64,
        new_strength: rs_fsrs::Card,
        reviewed_at: i64,
    ) -> (r: Result<(), Error>)
        requires
            old(self).wf(),
        ensures
            final(self).wf(),
            match r {
                Ok(()) => {
                    let i = old(self).idx_of(key@);
                    &&& old(self).has_key(key@)
                    &&& final(self).items@.len() == old(self).items@.len()
                    &&& forall|j: int|
                        0 <= j < old(self).len() && j != i ==> final(self).items@[j] == old(
                            self,
                        ).items@[j]
                    &&& final(self).items@[i].key == old(self).items@[i].key
                    &&& final(self).items@[i].due_at == new_due_at
                    &&& final(self).items@[i].strength == new_strength
                    &&& final(self).items@[i].last_reviewed_at == reviewed_at
                    &&& final(self).items@[i].session_marker == old(self).items@[i].session_marker
                    &&& final(self).keys == old(self).keys
                    &&& final(self).sessions == old(self).sessions
                    &&& final(self).session_id == old(self).session_id
                    &&& final(self).cursor == old(self).cursor
                },
                Err(e) => {
                    &&& e == Error::NotFound
                    &&& !old(self).has_key(key@)
                    &&& *final(self) == *old(self)
                },
            },
    {
        match self.find_row(key) {
            Some(i) => {
                proof {
                    old(self).lemma_idx_of_unique(i as int, key@);
                }
                self.items[i].due_at = new_due_at;
                self.items[i].strength = new_strength;
                self.items[i].last_reviewed_at = reviewed_at;
                proof {
                    assert(self.sessions@ == old(self).sessions@);
                    assert forall|a: int, b: int|
                        0 <= a < b < self.len() implies self.key_at(a) != self.key_at(b) by {
                        assert(old(self).key_at(a) != old(self).key_at(b));
                        assert(self.key_at(a) == old(self).key_at(a));
                        assert(self.key_at(b) == old(self).key_at(b));
                    }
                    assert forall|j: int|
                        0 <= j < self.len() implies #[trigger] self.keys@[j]@ == self.key_at(
                        j,
                    ) by {
                        assert(old(self).keys@[j]@ == old(self).key_at(j));
                        assert(self.key_at(j) == old(self).key_at(j));
                    }
                    assert forall|j: int|
                        0 <= j < self.len() implies (#[trigger] self.items@[j].session_marker == 0
                            || self.session_recorded(self.items@[j].session_marker)) by {
                        assert(old(self).items@[j].session_marker == 0 || old(
                            self,
                        ).session_recorded(old(self).items@[j].session_marker));
                        assert(self.items@[j].session_marker == old(self).items@[j].session_marker);
                    }
                }
                Ok(())
            },
            None => Err(Error::NotFound),
        }
    }

    /// Hard-delete the row holding `key`, returning how many rows were
    /// removed: 1 when the key was present (its row and index entry leave
    /// together, later rows shift down), 0 when it was absent.
    pub fn remove_item(&mut self, key: &str) -> (n: usize)
        requires
            old(self).wf(),
        ensures
            final(self).wf(),
            !old(self).has_key(key@) ==> n == 0 && *final(self) == *old(self),
            old(self).has_key(key@) ==> {
                let i = old(self).idx_of(key@);
                &&& n == 1
                &&& final(self).items@ == old(self).items@.remove(i)
                &&& final(self).keys@ == old(self).keys@.remove(i)
                &&& final(self).sessions == old(self).sessions
                &&& final(self).session_id == old(self).session_id
                &&& final(self).cursor == old(self).cursor
            },
    {
        match self.find_row(key) {
            Some(i) => {
                proof {
                    old(self).lemma_idx_of_unique(i as int, key@);
                }
                self.items.remove(i);
                self.keys.remove(i);
                proof {
                    let pre = *old(self);
                    let ii = i as int;
                    assert(self.sessions@ == pre.sessions@);
                    assert forall|j: int|
                        0 <= j < self.len() implies #[trigger] self.keys@[j]@ == self.key_at(
                        j,
                    ) by {
                        if j < ii {
                            assert(pre.keys@[j]@ == pre.key_at(j));
                        } else {
                            assert(pre.keys@[j + 1]@ == pre.key_at(j + 1));
                        }
                    }
                    assert forall|a: int, b: int|
                        0 <= a < b < self.len() implies self.key_at(a) != self.key_at(b) by {
                        let a0 = if a < ii { a } else { a + 1 };
                        let b0 = if b < ii { b } else { b + 1 };
                        assert(pre.key_at(a0) != pre.key_at(b0));
                    }
                    assert forall|j: int|
                        0 <= j < self.len() implies (#[trigger] self.items@[j].session_marker == 0
                            || self.session_recorded(self.items@[j].session_marker)) by {
                        let j0 = if j < ii { j } else { j + 1 };
                        assert(self.items@[j] == pre.items@[j0]);
                        assert(pre.items@[j0].session_marker == 0 || pre.session_recorded(
                            pre.items@[j0].session_marker,
                        ));
                    }
                }
                1
            },
            None => 0,
        }
    }

    /// All stored keys, in row order; used by fuzzy recall, not by the
    /// review loop.
    pub fn all_keys(&self) -> (r: Vec<String>)
        requires
            self.wf(),
        ensures
            r@.len() == self.len(),
            forall|i: int| 0 <= i < self.len() ==> #[trigger] r@[i]@ == self.key_at(i),
    {
        let n = self.keys.len();
        let mut out: Vec<String> = Vec::new();
        let mut i: usize = 0;
        while i < n
            invariant
                self.wf(),
                n == self.keys@.len(),
                i <= n,
                out@.len() == i,
                forall|j: int| 0 <= j < i ==> #[trigger] out@[j]@ == self.key_at(j),
            decreases n - i,
        {
            out.push(self.keys[i].clone());
            i += 1;
        }
        out
    }

    /// Return the open session's id, lazily opening one if none is: the new
    /// id is strictly greater than every id ever recorded in the ledger.
    pub fn current_session(&mut self, now: i64) -> (sid: i64)
        requires
            old(self).wf(),
            old(self).session_id != 0 || old(self).next_session_id() <= i64::MAX,
        ensures
            final(self).wf(),
            old(self).session_id != 0 ==> *final(self) == *old(self) && sid == old(self).session_id,
            old(self).session_id == 0 ==> {
                &&& sid == old(self).next_session_id()
                &&& forall|i: int|
                    0 <= i < old(self).sessions@.len() ==> #[trigger] old(
                        self,
                    ).sessions@[i].0 < sid
                &&& final(self).sessions@ == old(self).sessions@.push((sid, now))
                &&& final(self).session_id == sid
                &&& final(self).items == old(self).items
                &&& final(self).keys == old(self).keys
                &&& final(self).cursor == old(self).cursor
            },
            sid > 0,
    {
        if self.session_id != 0 {
            self.session_id
        } else {
            let sid: i64 = if self.sessions.len() == 0 {
                1
            } else {
                self.sessions[self.sessions.len() - 1].0 + 1
            };
            proof {
                let sn = old(self).sessions@.len() as int;
                assert forall|i: int|
                    0 <= i < sn implies #[trigger] old(self).sessions@[i].0 < sid by {
                    if i < sn - 1 {
                        assert(old(self).sessions@[i].0 < old(self).sessions@[sn - 1].0);
                    }
                }
            }
            self.sessions.push((sid, now));
            self.session_id = sid;
            proof {
                let sn = old(self).sessions@.len() as int;
                assert(self.session_recorded(sid)) by {
                    assert(self.sessions@[sn].0 == sid);
                }
                Scheduler::lemma_wf_ledger_push(*old(self), *self, (sid, now));
            }
            sid
        }
    }

    /// Stamp the item holding `key` as shown in session `session_id`; an
    /// absent key leaves the store untouched. The id must come from the
    /// session ledger.
    pub fn mark_shown(&mut self, key: &str, session_id: i64)
        requires
            old(self).wf(),
            old(self).session_recorded(session_id),
        ensures
            final(self).wf(),
            !old(self).has_key(key@) ==> *final(self) == *old(self),
            old(self).has_key(key@) ==> {
                let i = old(self).idx_of(key@);
                &&& final(self).items@ == old(self).items@.update(
                    i,
                    (Item { session_marker: session_id, ..old(self).items@[i] }),
                )
                &&& final(self).keys == old(self).keys
                &&& final(self).sessions == old(self).sessions
                &&& final(self).session_id == old(self).session_id
                &&& final(self).cursor == old(self).cursor
            },
    {
        match self.find_row(key) {
            None => {},
            Some(i) => {
                proof {
                    old(self).lemma_idx_of_unique(i as int, key@);
                }
                self.items[i].session_marker = session_id;
                proof {
                    assert(self.sessions@ == old(self).sessions@);
                    assert forall|a: int, b: int|
                        0 <= a < b < self.len() implies self.key_at(a) != self.key_at(b) by {
                        assert(old(self).key_at(a) != old(self).key_at(b));
                        assert(self.key_at(a) == old(self).key_at(a));
                        assert(self.key_at(b) == old(self).key_at(b));
                    }
                    assert forall|j: int|
                        0 <= j < self.len() implies #[trigger] self.keys@[j]@ == self.key_at(
                        j,
                    ) by {
                        assert(old(self).keys@[j]@ == old(self).key_at(j));
                        assert(self.key_at(j) == old(self).key_at(j));
                    }
                    assert forall|j: int|
                        0 <= j < self.len() implies (#[trigger] self.items@[j].session_marker == 0
                            || self.session_recorded(self.items@[j].session_marker)) by {
                        if j != i as int {
                            assert(old(self).items@[j].session_marker == 0 || old(
                                self,
                            ).session_recorded(old(self).items@[j].session_marker));
                        }
                    }
                }
            },
        }
    }

    /// Close the current pass: the next delivery will lazily open a fresh
    /// session and search from the first row again. Stored rows and the
    /// ledger are untouched.
    pub fn start_new_pass(&mut self)
        requires
            old(self).wf(),
        ensures
            final(self).wf(),
            final(self).session_id == 0,
            final(self).cursor == 0,
            final(self).items == old(self).items,
            final(self).keys == old(self).keys,
            final(self).sessions == old(self).sessions,
    {
        self.session_id = 0;
        self.cursor = 0;
        proof {
            Scheduler::lemma_wf_same_core(*old(self), *self);
        }
    }

    /// The id a newly opened session would get: strictly greater than every
    /// id already in the ledger.
    pub open spec fn next_session_id(self) -> int {
        if self.sessions@.len() == 0 {
            1
        } else {
            self.sessions@.last().0 + 1
        }
    }

    /// The session a search runs against: the open one, or the id a lazily
    /// opened session would get.
    pub open spec fn candidate_sid(self) -> int {
        if self.session_id != 0 {
            self.session_id as int
        } else {
            self.next_session_id()
        }
    }

    /// Where the two-phase search resumes: the cursor, clamped to the table.
    pub open spec fn resume_at(self) -> int {
        if self.cursor <= self.items@.len() {
            self.cursor as int
        } else {
            self.items@.len() as int
        }
    }

    /// The row the selector picks: the first eligible row at or after the
    /// cursor, or, wrapping around, the first eligible row from the start.
    pub open spec fn selected_row(self, now: i64) -> Option<int> {
        let sid = self.candidate_sid();
        match find_eligible(self.items@, now, sid, self.resume_at()) {
            Some(i) => Some(i),
            None => find_eligible(self.items@, now, sid, 0),
        }
    }

    /// What `next_due` does. With no eligible row the state is untouched
    /// (in particular, no session is opened) and nothing is returned. With
    /// an eligible row `i`: its key is returned, the session is opened if
    /// none was, row `i` alone is stamped with the session, and the cursor
    /// advances past `i`.
    pub open spec fn next_due_post(
        pre: Scheduler,
        post: Scheduler,
        r: Option<Seq<char>>,
        now: i64,
    ) -> bool {
        match pre.selected_row(now) {
            None => post == pre && r is None,
            Some(i) => {
                let sid = pre.candidate_sid();
                &&& r == Some(pre.key_at(i))
                &&& post.items@.len() == pre.items@.len()
                &&& forall|j: int|
                    0 <= j < pre.len() && j != i ==> post.items@[j] == pre.items@[j]
                &&& post.items@[i] == (Item { session_marker: sid as i64, ..pre.items@[i] })
                &&& post.keys == pre.keys
                &&& post.sessions@ == (if pre.session_id == 0 {
                    pre.sessions@.push((sid as i64, now))
                } else {
                    pre.sessions@
                })
                &&& post.session_id == sid
                &&& post.cursor == i + 1
                &&& post.schema_version == pre.schema_version
            },
        }
    }

    /// First eligible row at or after `from`, executably.
    fn scan(&self, now: i64, sid: i64, from: usize) -> (r: Option<usize>)
        requires
            from <= self.items@.len(),
        ensures
            match r {
                Some(i) => i < self.items@.len() && eligible(self.items@[i as int], now, sid as int)
                    && find_eligible(self.items@, now, sid as int, from as int) == Some(i as int),
                None => find_eligible(self.items@, now, sid as int, from as int) is None,
            },
    {
        let n = self.items.len();
        let mut i: usize = from;
        while i < n
            invariant
                n == self.items@.len(),
                from <= i <= n,
                forall|j: int|
                    from <= j < i ==> !eligible(self.items@[j], now, sid as int),
            decreases n - i,
        {
            if self.items[i].due_at <= now && self.items[i].session_marker != sid {
                proof {
                    lemma_find_eligible_skip(self.items@, now, sid as int, from as int, i as int);
                }
                return Some(i);
            }
            i += 1;
        }
        proof {
            lemma_find_eligible_skip(self.items@, now, sid as int, from as int, n as int);
        }
        None
    }

    /// Deliver the next item of the current pass: search the rows after the
    /// cursor for one that is due and not yet shown this session, wrap
    /// around to the start if that tail is exhausted, and return `None`
    /// only when no row at all is eligible — the pass is complete. A
    /// session is opened lazily, on the first delivery.
    pub fn next_due(&mut self, now: i64) -> (r: Option<String>)
        requires
            old(self).wf(),
            old(self).session_id != 0 || old(self).next_session_id() <= i64::MAX,
        ensures
            final(self).wf(),
            Scheduler::next_due_post(*old(self), *final(self), view_opt(r), now),
    {
        let sid: i64 = if self.session_id != 0 {
            self.session_id
        } else if self.sessions.len() == 0 {
            1
        } else {
            self.sessions[self.sessions.len() - 1].0 + 1
        };
        let start = if self.cursor <= self.items.len() {
            self.cursor
        } else {
            self.items.len()
        };
        let found = match self.scan(now, sid, start) {
            Some(i) => Some(i),
            None => self.scan(now, sid, 0),
        };
        match found {
            None => None,
            Some(i) => {
                proof {
                    assert(old(self).selected_row(now) == Some(i as int));
                }
                if self.session_id == 0 {
                    self.sessions.push((sid, now));
                    self.session_id = sid;
                }
                self.items[i].session_marker = sid;
                self.cursor = i + 1;
                let k = self.keys[i].clone();
                proof {
                    self.lemma_wf_after_delivery(*old(self), i as int, sid, now);
                }
                Some(k)
            },
        }
    }

    /// Well-formedness carries over a delivery: the ledger only grew at the
    /// end with a strictly larger id, and the stamped marker is recorded.
    proof fn lemma_wf_after_delivery(self, pre: Scheduler, i: int, sid: i64, now: i64)
        requires
            pre.wf(),
            0 <= i < pre.len(),
            sid == pre.candidate_sid(),
            pre.session_id != 0 || pre.next_session_id() <= i64::MAX,
            self.items@ == pre.items@.update(i, (Item { session_marker: sid, ..pre.items@[i] })),
            self.keys == pre.keys,
            self.sessions@ == (if pre.session_id == 0 {
                pre.sessions@.push((sid, now))
            } else {
                pre.sessions@
            }),
            self.session_id == sid,
            self.schema_version == pre.schema_version,
        ensures
            self.wf(),
    {
        let sn = pre.sessions@.len() as int;
        if pre.session_id == 0 {
            assert forall|a: int|
                0 <= a < sn implies #[trigger] pre.sessions@[a].0 < sid by {
                if a < sn - 1 {
                    assert(pre.sessions@[a].0 < pre.sessions@[sn - 1].0);
                }
            }
        }
        assert(self.session_recorded(sid)) by {
            if pre.session_id == 0 {
                assert(self.sessions@[sn].0 == sid);
            } else {
                let w = choose|a: int|
                    0 <= a < sn && pre.sessions@[a].0 == pre.session_id;
                assert(self.sessions@[w].0 == sid);
            }
        }
        assert forall|a: int, b: int|
            0 <= a < b < self.len() implies self.key_at(a) != self.key_at(b) by {
            assert(pre.key_at(a) != pre.key_at(b));
            assert(self.key_at(a) == pre.key_at(a));
            assert(self.key_at(b) == pre.key_at(b));
        }
        assert forall|j: int|
            0 <= j < self.len() implies #[trigger] self.keys@[j]@ == self.key_at(j) by {
            assert(pre.keys@[j]@ == pre.key_at(j));
            assert(self.key_at(j) == pre.key_at(j));
        }
        assert forall|j: int|
            0 <= j < self.len() implies (#[trigger] self.items@[j].session_marker == 0
                || self.session_recorded(self.items@[j].session_marker)) by {
            if j != i {
                assert(self.items@[j] == pre.items@[j]);
                if pre.items@[j].session_marker != 0 {
                    let w = choose|a: int|
                        0 <= a < sn && pre.sessions@[a].0 == pre.items@[j].session_marker;
                    assert(self.sessions@[w].0 == pre.items@[j].session_marker);
                }
            }
        }
    }

    /// Apply a user rating to `key` as one atomic step: load the stored
    /// strength state, let the scheduler model compute the next state and
    /// due time, and persist exactly that output together with the review
    /// time. On any error nothing at all is written: `NotFound` iff the key
    /// is absent, `ModelError` iff the key exists but the model cannot
    /// handle `now`.
    pub fn apply_rating(&mut self, key: &str, rating: Rating, now: i64) -> (r: Result<(), Error>)
        requires
            old(self).wf(),
        ensures
            final(self).wf(),
            match r {
                Ok(()) => {
                    let i = old(self).idx_of(key@);
                    &&& old(self).has_key(key@)
                    &&& 0 <= now <= MAX_EPOCH
                    &&& final(self).items@.len() == old(self).items@.len()
                    &&& forall|j: int|
                        0 <= j < old(self).len() && j != i ==> final(self).items@[j] == old(
                            self,
                        ).items@[j]
                    &&& final(self).items@[i].key == old(self).items@[i].key
                    &&& final(self).items@[i].strength == crate::model::model_card_of(
                        old(self).items@[i].strength,
                        rating,
                        now,
                    )
                    &&& final(self).items@[i].due_at == crate::model::model_due_of(
                        old(self).items@[i].strength,
                        rating,
                        now,
                    )
                    &&& final(self).items@[i].due_at >= now
                    &&& final(self).items@[i].last_reviewed_at == now
                    &&& final(self).items@[i].session_marker == old(self).items@[i].session_marker
                    &&& final(self).keys == old(self).keys
                    &&& final(self).sessions == old(self).sessions
                    &&& final(self).session_id == old(self).session_id
                    &&& final(self).cursor == old(self).cursor
                },
                Err(e) => {
                    &&& *final(self) == *old(self)
                    &&& (e == Error::NotFound <==> !old(self).has_key(key@))
                    &&& (e == Error::ModelError <==> old(self).has_key(key@) && !(0 <= now
                        <= MAX_EPOCH))
                    &&& (e == Error::NotFound || e == Error::ModelError)
                },
            },
    {
        match self.find_row(key) {
            None => Err(Error::NotFound),
            Some(i) => {
                if now < 0 || now > MAX_EPOCH {
                    return Err(Error::ModelError);
                }
                proof {
                    old(self).lemma_idx_of_unique(i as int, key@);
                }
                let (card, due) = model_next(&self.items[i].strength, rating, now);
                let res = self.update_item(key, due, card, now);
                proof {
                    assert(res is Ok);
                }
                res
            },
        }
    }

    /// Whether a search may run: either a session is already open, or the
    /// ledger still has room for a fresh id. Callers outside the verified
    /// code test this before asking for the next item.
    pub fn can_open_session(&self) -> (r: bool)
        ensures
            r == (self.session_id != 0 || self.next_session_id() <= i64::MAX),
    {
        if self.session_id != 0 {
            true
        } else if self.sessions.len() == 0 {
            true
        } else {
            self.sessions[self.sessions.len() - 1].0 < i64::MAX
        }
    }

    /// Whether `sid` appears in the session ledger, executably.
    fn session_in_ledger(&self, sid: i64) -> (r: bool)
        ensures
            r == self.session_recorded(sid),
    {
        let n = self.sessions.len();
        let mut i: usize = 0;
        while i < n
            invariant
                n == self.sessions@.len(),
                i <= n,
                forall|j: int| 0 <= j < i ==> self.sessions@[j].0 != sid,
            decreases n - i,
        {
            if self.sessions[i].0 == sid {
                return true;
            }
            i += 1;
        }
        false
    }

    /// Decide well-formedness at run time, for state rebuilt from storage
    /// by an unverified caller: exactly the `wf` condition.
    pub fn check_wf(&self) -> (r: bool)
        ensures
            r == self.wf(),
    {
        if self.schema_version != 1 {
            return false;
        }
        let n = self.items.len();
        if self.keys.len() != n {
            return false;
        }
        let mut i: usize = 0;
        while i < n
            invariant
                n == self.items@.len(),
                n == self.keys@.len(),
                i <= n,
                forall|j: int| 0 <= j < i ==> #[trigger] self.keys@[j]@ == self.key_at(j),
            decreases n - i,
        {
            if !str_eq(self.keys[i].as_str(), self.items[i].key.as_str()) {
                return false;
            }
            i += 1;
        }
        let mut a: usize = 0;
        while a < n
            invariant
                n == self.items@.len(),
                n == self.keys@.len(),
                a <= n,
                forall|j: int| 0 <= j < n ==> #[trigger] self.keys@[j]@ == self.key_at(j),
                forall|x: int, y: int| 0 <= x < y < n && x < a ==> self.key_at(x) != self.key_at(y),
            decreases n - a,
        {
            let mut b: usize = a + 1;
            while b < n
                invariant
                    n == self.items@.len(),
                    n == self.keys@.len(),
                    a < n,
                    a + 1 <= b <= n,
                    forall|j: int| 0 <= j < n ==> #[trigger] self.keys@[j]@ == self.key_at(j),
                    forall|y: int| a < y < b ==> self.key_at(a as int) != self.key_at(y),
                decreases n - b,
            {
                if str_eq(self.keys[a].as_str(), self.keys[b].as_str()) {
                    proof {
                        assert(self.keys@[a as int]@ == self.key_at(a as int));
                        assert(self.keys@[b as int]@ == self.key_at(b as int));
                    }
                    return false;
                }
                b += 1;
            }
            a += 1;
        }
        let sn = self.sessions.len();
        let mut s: usize = 0;
        while s < sn
            invariant
                sn == self.sessions@.len(),
                s <= sn,
                forall|x: int, y: int|
                    0 <= x < y < sn && y < s ==> #[trigger] self.sessions@[x].0
                        < #[trigger] self.sessions@[y].0,
                forall|x: int| 0 <= x < s ==> 0 < #[trigger] self.sessions@[x].0,
            decreases sn - s,
        {
            if self.sessions[s].0 <= 0 {
                return false;
            }
            if s > 0 && self.sessions[s - 1].0 >= self.sessions[s].0 {
                return false;
            }
            proof {
                assert forall|x: int, y: int|
                    0 <= x < y < sn && y < s + 1 implies #[trigger] self.sessions@[x].0
                    < #[trigger] self.sessions@[y].0 by {
                    if y == s as int && x < y - 1 {
                        assert(self.sessions@[x].0 < self.sessions@[y - 1].0);
                    }
                }
            }
            s += 1;
        }
        let mut m: usize = 0;
        while m < n
            invariant
                n == self.items@.len(),
                m <= n,
                forall|j: int|
                    0 <= j < m ==> (#[trigger] self.items@[j].session_marker == 0
                        || self.session_recorded(self.items@[j].session_marker)),
            decreases n - m,
        {
            let marker = self.items[m].session_marker;
            if marker != 0 && !self.session_in_ledger(marker) {
                return false;
            }
            m += 1;
        }
        if self.session_id != 0 && !self.session_in_ledger(self.session_id) {
            return false;
        }
        true
    }

    /// Well-formedness depends only on the rows, the index, the ledger and
    /// the open session; it carries over to any state sharing those.
    proof fn lemma_wf_same_core(a: Scheduler, b: Scheduler)
        requires
            a.wf(),
            b.items@ == a.items@,
            b.keys@ == a.keys@,
            b.sessions@ == a.sessions@,
            b.schema_version == 1,
            b.session_id == 0 || b.session_recorded(b.session_id),
        ensures
            b.wf(),
    {
        assert forall|i: int, j: int|
            0 <= i < j < b.len() implies b.key_at(i) != b.key_at(j) by {
            assert(a.key_at(i) != a.key_at(j));
            assert(b.key_at(i) == a.key_at(i));
            assert(b.key_at(j) == a.key_at(j));
        }
        assert forall|i: int|
            0 <= i < b.len() implies #[trigger] b.keys@[i]@ == b.key_at(i) by {
            assert(a.keys@[i]@ == a.key_at(i));
            assert(b.key_at(i) == a.key_at(i));
        }
        assert forall|i: int|
            0 <= i < b.len() implies (#[trigger] b.items@[i].session_marker == 0
                || b.session_recorded(b.items@[i].session_marker)) by {
            assert(b.items@[i] == a.items@[i]);
            if a.items@[i].session_marker != 0 {
                let w = choose|x: int|
                    0 <= x < a.sessions@.len() && a.sessions@[x].0 == a.items@[i].session_marker;
                assert(b.sessions@[w].0 == a.items@[i].session_marker);
            }
        }
    }

    /// Well-formedness also carries over appending one fresh, strictly
    /// larger id to the session ledger.
    proof fn lemma_wf_ledger_push(a: Scheduler, b: Scheduler, e: (i64, i64))
        requires
            a.wf(),
            b.items@ == a.items@,
            b.keys@ == a.keys@,
            b.sessions@ == a.sessions@.push(e),
            e.0 > 0,
            forall|i: int| 0 <= i < a.sessions@.len() ==> #[trigger] a.sessions@[i].0 < e.0,
            b.schema_version == 1,
            b.session_id == 0 || b.session_recorded(b.session_id),
        ensures
            b.wf(),
    {
        let sn = a.sessions@.len() as int;
        assert forall|i: int, j: int|
            0 <= i < j < b.len() implies b.key_at(i) != b.key_at(j) by {
            assert(a.key_at(i) != a.key_at(j));
            assert(b.key_at(i) == a.key_at(i));
            assert(b.key_at(j) == a.key_at(j));
        }
        assert forall|i: int|
            0 <= i < b.len() implies #[trigger] b.keys@[i]@ == b.key_at(i) by {
            assert(a.keys@[i]@ == a.key_at(i));
            assert(b.key_at(i) == a.key_at(i));
        }
        assert forall|i: int|
            0 <= i < b.len() implies (#[trigger] b.items@[i].session_marker == 0
                || b.session_recorded(b.items@[i].session_marker)) by {
            assert(b.items@[i] == a.items@[i]);
            if a.items@[i].session_marker != 0 {
                let w = choose|x: int|
                    0 <= x < sn && a.sessions@[x].0 == a.items@[i].session_marker;
                assert(b.sessions@[w].0 == a.items@[i].session_marker);
            }
        }
    }

    /// With unique keys, any row holding `k` is the row `idx_of(k)` names.
    pub proof fn lemma_idx_of_unique(self, i: int, k: Seq<char>)
        requires
            self.wf(),
            0 <= i < self.len(),
            self.key_at(i) == k,
        ensures
            self.has_key(k),
            self.idx_of(k) == i,
    {
        assert(self.has_key(k));
        let j = self.idx_of(k);
        if i < j {
            assert(self.key_at(i) != self.key_at(j));
        } else if j < i {
            assert(self.key_at(j) != self.key_at(i));
        }
    }
}

/// Whether a looked-up line is ignored rather than recorded: empty lines
/// and lines opening with white space never enter the store.
pub open spec fn ignored_line(s: Seq<char>) -> bool {
    s.len() == 0 || crate::textutil::is_space(s[0])
}

/// Decide whether a looked-up line is ignored rather than recorded.
pub fn should_ignore(line: &str) -> (r: bool)
    ensures
        r == ignored_line(line@),
{
    if line.unicode_len() == 0 {
        true
    } else {
        crate::textutil::char_is_whitespace(line.get_char(0))
    }
}

/// An item is visible to the selector iff it is due and was not yet shown
/// in the given session. An item due in the past is exactly as eligible as
/// one due this instant.
pub open spec fn eligible(it: Item, now: i64, sid: int) -> bool {
    it.due_at <= now && it.session_marker != sid
}

/// The first eligible row at or after `from`, if any.
pub open spec fn find_eligible(items: Seq<Item>, now: i64, sid: int, from: int) -> Option<int>
    decreases items.len() - from,
    when 0 <= from <= items.len()
{
    if from >= items.len() {
        None
    } else if eligible(items[from], now, sid) {
        Some(from)
    } else {
        find_eligible(items, now, sid, from + 1)
    }
}

/// Skipping over ineligible rows does not change what the search finds.
proof fn lemma_find_eligible_skip(items: Seq<Item>, now: i64, sid: int, from: int, to: int)
    requires
        0 <= from <= to <= items.len(),
        forall|j: int| from <= j < to ==> !eligible(items[j], now, sid),
    ensures
        find_eligible(items, now, sid, from) == find_eligible(items, now, sid, to),
    decreases to - from,
{
    if from < to {
        lemma_find_eligible_skip(items, now, sid, from + 1, to);
    }
}

/// The character sequences of an optional string.
pub open spec fn view_opt(r: Option<String>) -> Option<Seq<char>> {
    match r {
        Some(s) => Some(s@),
        None => None,
    }
}

} // verus!
