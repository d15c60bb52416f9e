//! Fuzzy recall: approximate lookup over stored item keys. A key matches a
//! query when its edit distance is within the given bound, or — the anagram
//! shortcut — when both are made of exactly the same characters.

use vstd::prelude::*;
use crate::scheduler::Scheduler;
use vstd::string::StrSliceExecFns;

verus! {

/// The least of three values.
pub open spec fn min3(a: nat, b: nat, c: nat) -> nat {
    if a <= b && a <= c {
        a
    } else if b <= c {
        b
    } else {
        c
    }
}

/// Levenshtein edit distance between two character sequences: the least
/// number of single-character insertions, deletions and substitutions
/// turning one into the other.
pub open spec fn lev(a: Seq<char>, b: Seq<char>) -> nat
    decreases a.len(), b.len(),
{
    if a.len() == 0 {
        b.len()
    } else if b.len() == 0 {
        a.len()
    } else {
        let cost: nat = if a.last() == b.last() {
            0
        } else {
            1
        };
        min3(
            lev(a.drop_last(), b.drop_last()) + cost,
            lev(a.drop_last(), b) + 1,
            lev(a, b.drop_last()) + 1,
        )
    }
}

/// The distance never exceeds the two lengths together.
pub proof fn lemma_lev_bound(a: Seq<char>, b: Seq<char>)
    ensures
        lev(a, b) <= a.len() + b.len(),
    decreases a.len(), b.len(),
{
    if a.len() != 0 && b.len() != 0 {
        lemma_lev_bound(a.drop_last(), b.drop_last());
        lemma_lev_bound(a.drop_last(), b);
        lemma_lev_bound(a, b.drop_last());
    }
}

/// How often `c` occurs in `s`.
pub open spec fn count_in(s: Seq<char>, c: char) -> nat {
    s.filter(|x: char| x == c).len()
}

/// Dropping the last character lowers the count by its own occurrence.
proof fn lemma_count_in_step(s: Seq<char>, c: char)
    requires
        s.len() > 0,
    ensures
        count_in(s, c) == count_in(s.drop_last(), c) + (if s.last() == c {
            1nat
        } else {
            0nat
        }),
{
    reveal_with_fuel(Seq::filter, 2);
}

/// Occurrence counting agrees with the multiset view of the sequence.
pub proof fn lemma_count_in_multiset(s: Seq<char>, c: char)
    ensures
        count_in(s, c) == s.to_multiset().count(c),
    decreases s.len(),
{
    broadcast use vstd::seq_lib::group_to_multiset_ensures;
    broadcast use vstd::multiset::group_multiset_axioms;

    if s.len() == 0 {
        assert(s.to_multiset().count(c) <= s.to_multiset().len());
        reveal_with_fuel(Seq::filter, 1);
    } else {
        let d = s.drop_last();
        lemma_count_in_multiset(d, c);
        lemma_count_in_step(s, c);
        assert(s =~= d.push(s.last()));
        assert(s.to_multiset() =~= d.to_multiset().insert(s.last()));
        if s.last() == c {
            assert(d.to_multiset().insert(c).count(c) == d.to_multiset().count(c) + 1);
        } else {
            assert(d.to_multiset().insert(s.last()).count(c) == d.to_multiset().count(c));
        }
    }
}

/// A character absent from a sequence occurs zero times in it.
proof fn lemma_count_in_absent(s: Seq<char>, c: char)
    requires
        forall|i: int| 0 <= i < s.len() ==> s[i] != c,
    ensures
        count_in(s, c) == 0,
{
    broadcast use vstd::seq_lib::group_to_multiset_ensures;

    lemma_count_in_multiset(s, c);
    if s.to_multiset().count(c) > 0 {
        assert(s.contains(c));
    }
}

/// Count the occurrences of `c` in `s`.
fn count_char(s: &str, c: char) -> (n: u64)
    requires
        s@.len() <= u64::MAX,
    ensures
        n == count_in(s@, c),
{
    let l = s.unicode_len();
    let mut n: u64 = 0;
    let mut i: usize = 0;
    while i < l
        invariant
            l == s@.len(),
            l <= u64::MAX,
            i <= l,
            n == count_in(s@.take(i as int), c),
            n <= i,
        decreases l - i,
    {
        let x = s.get_char(i);
        proof {
            assert(s@.take(i + 1).drop_last() =~= s@.take(i as int));
            assert(s@.take(i + 1).last() == s@[i as int]);
            lemma_count_in_step(s@.take(i + 1), c);
        }
        if x == c {
            n += 1;
        }
        i += 1;
    }
    proof {
        assert(s@.take(l as int) =~= s@);
    }
    n
}

/// Decide whether the two strings hold exactly the same characters, each
/// the same number of times.
fn is_anagram(a: &str, b: &str) -> (r: bool)
    ensures
        r == (a@.to_multiset() == b@.to_multiset()),
{
    broadcast use vstd::seq_lib::group_to_multiset_ensures;

    let la = a.unicode_len();
    let lb = b.unicode_len();
    if la != lb {
        proof {
            assert(a@.to_multiset().len() != b@.to_multiset().len());
        }
        return false;
    }
    let mut i: usize = 0;
    while i < la
        invariant
            la == a@.len(),
            lb == b@.len(),
            la == lb,
            i <= la,
            forall|j: int| 0 <= j < i ==> count_in(a@, #[trigger] a@[j]) == count_in(b@, a@[j]),
        decreases la - i,
    {
        let c = a.get_char(i);
        if count_char(a, c) != count_char(b, c) {
            proof {
                lemma_count_in_multiset(a@, c);
                lemma_count_in_multiset(b@, c);
            }
            return false;
        }
        i += 1;
    }
    let mut j: usize = 0;
    while j < lb
        invariant
            la == a@.len(),
            lb == b@.len(),
            la == lb,
            j <= lb,
            forall|t: int| 0 <= t < la ==> count_in(a@, #[trigger] a@[t]) == count_in(b@, a@[t]),
            forall|t: int| 0 <= t < j ==> count_in(a@, #[trigger] b@[t]) == count_in(b@, b@[t]),
        decreases lb - j,
    {
        let c = b.get_char(j);
        if count_char(a, c) != count_char(b, c) {
            proof {
                lemma_count_in_multiset(a@, c);
                lemma_count_in_multiset(b@, c);
            }
            return false;
        }
        j += 1;
    }
    proof {
        broadcast use vstd::multiset::group_multiset_axioms;

        assert forall|c: char|
            a@.to_multiset().count(c) == #[trigger] b@.to_multiset().count(c) by {
            lemma_count_in_multiset(a@, c);
            lemma_count_in_multiset(b@, c);
            if exists|t: int| 0 <= t < a@.len() && a@[t] == c {
                let t = choose|t: int| 0 <= t < a@.len() && a@[t] == c;
                assert(count_in(a@, a@[t]) == count_in(b@, a@[t]));
            } else if exists|t: int| 0 <= t < b@.len() && b@[t] == c {
                let t = choose|t: int| 0 <= t < b@.len() && b@[t] == c;
                assert(count_in(a@, b@[t]) == count_in(b@, b@[t]));
            } else {
                lemma_count_in_absent(a@, c);
                lemma_count_in_absent(b@, c);
            }
        }
        assert(a@.to_multiset() =~= b@.to_multiset());
    }
    true
}

/// Compute the edit distance between two strings by dynamic programming
/// over prefixes.
fn edit_distance(a: &str, b: &str) -> (d: u128)
    ensures
        d == lev(a@, b@),
{
    let la = a.unicode_len();
    let lb = b.unicode_len();
    // row entry t holds the distance from the current prefix of `a` to the
    // prefix of `b` of length t.
    let mut prev: Vec<u128> = Vec::new();
    prev.push(0);
    let mut j: usize = 0;
    while j < lb
        invariant
            lb == b@.len(),
            j <= lb,
            prev@.len() == j + 1,
            forall|t: int| 0 <= t <= j ==> prev@[t] == lev(Seq::<char>::empty(), b@.take(t)),
        decreases lb - j,
    {
        proof {
            assert(b@.take(j + 1).len() == j + 1);
        }
        prev.push((j as u128) + 1);
        j += 1;
    }
    let mut i: usize = 0;
    while i < la
        invariant
            la == a@.len(),
            lb == b@.len(),
            i <= la,
            prev@.len() == lb + 1,
            forall|t: int| 0 <= t <= lb ==> prev@[t] == lev(a@.take(i as int), b@.take(t)),
        decreases la - i,
    {
        let ca = a.get_char(i);
        let mut cur: Vec<u128> = Vec::new();
        cur.push((i as u128) + 1);
        proof {
            assert(a@.take(i + 1).len() == i + 1);
            assert(b@.take(0).len() == 0);
        }
        let mut j: usize = 0;
        while j < lb
            invariant
                la == a@.len(),
                lb == b@.len(),
                i < la,
                j <= lb,
                ca == a@[i as int],
                prev@.len() == lb + 1,
                forall|t: int| 0 <= t <= lb ==> prev@[t] == lev(a@.take(i as int), b@.take(t)),
                cur@.len() == j + 1,
                forall|t: int| 0 <= t <= j ==> cur@[t] == lev(a@.take(i + 1), b@.take(t)),
            decreases lb - j,
        {
            let cb = b.get_char(j);
            let cost: u128 = if ca == cb {
                0
            } else {
                1
            };
            proof {
                lemma_lev_bound(a@.take(i as int), b@.take(j as int));
                lemma_lev_bound(a@.take(i as int), b@.take(j + 1));
                lemma_lev_bound(a@.take(i + 1), b@.take(j as int));
            }
            let d1 = prev[j] + cost;
            let d2 = prev[j + 1] + 1;
            let d3 = cur[j] + 1;
            let m = if d1 <= d2 && d1 <= d3 {
                d1
            } else if d2 <= d3 {
                d2
            } else {
                d3
            };
            proof {
                let ai = a@.take(i + 1);
                let bj = b@.take(j + 1);
                assert(ai.drop_last() =~= a@.take(i as int));
                assert(bj.drop_last() =~= b@.take(j as int));
                assert(ai.last() == a@[i as int]);
                assert(bj.last() == b@[j as int]);
                assert(lev(ai, bj) == min3(
                    lev(ai.drop_last(), bj.drop_last()) + (if ai.last() == bj.last() {
                        0nat
                    } else {
                        1nat
                    }),
                    lev(ai.drop_last(), bj) + 1,
                    lev(ai, bj.drop_last()) + 1,
                ));
                assert(m == lev(ai, bj));
            }
            cur.push(m);
            j += 1;
        }
        prev = cur;
        i += 1;
    }
    proof {
        assert(a@.take(la as int) =~= a@);
        assert(b@.take(lb as int) =~= b@);
    }
    prev[lb]
}

/// A key matches a query when its edit distance is within `d`, or when key
/// and query are anagrams of each other.
pub open spec fn similar(k: Seq<char>, q: Seq<char>, d: nat) -> bool {
    lev(k, q) <= d || k.to_multiset() == q.to_multiset()
}

/// The keys of `kv` that match the query under `similar`, in order.
pub open spec fn similar_filter(kv: Seq<Seq<char>>, q: Seq<char>, d: nat) -> Seq<Seq<char>> {
    kv.filter(|k: Seq<char>| similar(k, q, d))
}

/// How the matching set grows with one more key.
proof fn lemma_similar_filter_step(kv: Seq<Seq<char>>, q: Seq<char>, d: nat)
    requires
        kv.len() > 0,
    ensures
        similar_filter(kv, q, d) == (if similar(kv.last(), q, d) {
            similar_filter(kv.drop_last(), q, d).push(kv.last())
        } else {
            similar_filter(kv.drop_last(), q, d)
        }),
{
    reveal_with_fuel(Seq::filter, 2);
}

impl Scheduler {
    /// The stored keys as character sequences, in row order.
    pub open spec fn keys_view(self) -> Seq<Seq<char>> {
        Seq::new(self.len(), |i: int| self.key_at(i))
    }

    /// Approximate lookup over all stored keys: exactly those within edit
    /// distance `max_distance` of `query`, or made of exactly the same
    /// characters as `query`, in row order. Recomputed fresh on each call.
    pub fn find_similar(&self, query: &str, max_distance: usize) -> (r: Vec<String>)
        requires
            self.wf(),
        ensures
            r.deep_view() == similar_filter(self.keys_view(), query@, max_distance as nat),
    {
        let n = self.keys.len();
        let mut out: Vec<String> = Vec::new();
        let mut i: usize = 0;
        while i < n
            invariant
                self.wf(),
                n == self.keys@.len(),
                i <= n,
                out.deep_view() == similar_filter(
                    self.keys_view().take(i as int),
                    query@,
                    max_distance as nat,
                ),
            decreases n - i,
        {
            let key = self.keys[i].as_str();
            let d = edit_distance(key, query);
            let hit = if d <= max_distance as u128 {
                true
            } else {
                is_anagram(key, query)
            };
            proof {
                let kv = self.keys_view();
                assert(kv.take(i + 1).drop_last() =~= kv.take(i as int));
                assert(kv.take(i + 1).last() == self.key_at(i as int));
                assert(key@ == self.key_at(i as int));
                lemma_similar_filter_step(kv.take(i + 1), query@, max_distance as nat);
                assert(hit == similar(self.key_at(i as int), query@, max_distance as nat));
            }
            if hit {
                out.push(self.keys[i].clone());
                proof {
                    assert(out.deep_view() =~~= similar_filter(
                        self.keys_view().take(i + 1),
                        query@,
                        max_distance as nat,
                    ));
                }
            } else {
                proof {
                    assert(out.deep_view() =~~= similar_filter(
                        self.keys_view().take(i + 1),
                        query@,
                        max_distance as nat,
                    ));
                }
            }
            i += 1;
        }
        proof {
            assert(self.keys_view().take(n as int) =~= self.keys_view());
        }
        out
    }
}

} // verus!
