//! The vote-weight ledger: distinct vote values in ascending order, each
//! backed by one aggregated weight, together with the median pointer fields
//! that the engine maintains.

use vstd::prelude::*;

verus! {

/// Sum of the weights at indices `0 .. n`, as a mathematical integer,
/// free of any saturation or overflow.
pub open spec fn sum_prefix(w: Seq<u128>, n: int) -> int
    decreases n,
{
    if n <= 0 {
        0
    } else {
        sum_prefix(w, n - 1) + w[n - 1]
    }
}

/// The vote values are strictly ascending, hence distinct.
pub open spec fn sorted_strict(y: Seq<i128>) -> bool {
    forall|i: int, j: int| 0 <= i < j < y.len() ==> y[i] < y[j]
}

/// Some entry carries the vote value `v`.
pub open spec fn has_vote(y: Seq<i128>, v: i128) -> bool {
    exists|i: int| 0 <= i < y.len() && y[i] == v
}

/// The index of the entry carrying `v`; meaningful when `has_vote(y, v)`
/// holds and `y` is strictly sorted, which makes the index unique.
pub open spec fn vote_index(y: Seq<i128>, v: i128) -> int {
    choose|i: int| 0 <= i < y.len() && y[i] == v
}

/// Every persisted entry carries a nonzero weight.
pub open spec fn weights_positive(w: Seq<u128>) -> bool {
    forall|i: int| 0 <= i < w.len() ==> w[i] > 0
}

/// Saturating addition on the weight domain, clamped at `u128::MAX`.
pub open spec fn sat_add(a: int, b: int) -> int {
    if a + b > u128::MAX {
        u128::MAX as int
    } else {
        a + b
    }
}

/// Saturating subtraction on the weight domain, clamped at zero.
pub open spec fn sat_sub(a: int, b: int) -> int {
    if a - b < 0 {
        0
    } else {
        a - b
    }
}

/// A prefix sum never decreases as the prefix grows.
pub proof fn lemma_sum_prefix_le(w: Seq<u128>, m: int, n: int)
    requires
        0 <= m <= n,
    ensures
        sum_prefix(w, m) <= sum_prefix(w, n),
    decreases n,
{
    if m < n {
        lemma_sum_prefix_le(w, m, n - 1);
    }
}

/// How inserting a weight at position `p` changes a prefix sum: prefixes
/// that stop before `p` are untouched, longer ones gain the new weight.
pub proof fn lemma_sum_prefix_insert(w: Seq<u128>, p: int, x: u128, n: int)
    requires
        0 <= p <= w.len(),
        0 <= n <= w.len() + 1,
    ensures
        n <= p ==> sum_prefix(w.insert(p, x), n) == sum_prefix(w, n),
        n > p ==> sum_prefix(w.insert(p, x), n) == sum_prefix(w, n - 1) + x,
    decreases n,
{
    if n > 0 {
        lemma_sum_prefix_insert(w, p, x, n - 1);
    }
}

/// How updating the weight at position `i` changes a prefix sum.
pub proof fn lemma_sum_prefix_update(w: Seq<u128>, i: int, x: u128, n: int)
    requires
        0 <= i < w.len(),
        0 <= n <= w.len(),
    ensures
        n <= i ==> sum_prefix(w.update(i, x), n) == sum_prefix(w, n),
        n > i ==> sum_prefix(w.update(i, x), n) == sum_prefix(w, n) - w[i] + x,
    decreases n,
{
    if n > 0 {
        lemma_sum_prefix_update(w, i, x, n - 1);
    }
}

/// In a strictly sorted sequence an occurrence of `v` is unique, so
/// `vote_index` picks exactly it.
pub proof fn lemma_vote_index_is(y: Seq<i128>, v: i128, i: int)
    requires
        sorted_strict(y),
        0 <= i < y.len(),
        y[i] == v,
    ensures
        has_vote(y, v),
        vote_index(y, v) == i,
{
    assert(has_vote(y, v));
    let j = vote_index(y, v);
    if j < i {
        assert(y[j] < y[i]);
    } else if j > i {
        assert(y[i] < y[j]);
    }
}

/// Inserting `v` at the boundary between the entries below it and the
/// entries above it keeps the sequence strictly sorted.
pub proof fn lemma_sorted_insert(y: Seq<i128>, p: int, v: i128)
    requires
        sorted_strict(y),
        0 <= p <= y.len(),
        forall|i: int| 0 <= i < p ==> y[i] < v,
        forall|i: int| p <= i < y.len() ==> y[i] > v,
    ensures
        sorted_strict(y.insert(p, v)),
{
    let z = y.insert(p, v);
    assert forall|i: int, j: int| 0 <= i < j < z.len() implies z[i] < z[j] by {
        if i < p {
            assert(z[i] == y[i]);
        } else if i == p {
            assert(z[i] == v);
        } else {
            assert(z[i] == y[i - 1]);
        }
        if j < p {
            assert(z[j] == y[j]);
        } else if j == p {
            assert(z[j] == v);
        } else {
            assert(z[j] == y[j - 1]);
        }
    }
}

/// Removing an entry keeps the remaining sequence strictly sorted.
pub proof fn lemma_sorted_remove(y: Seq<i128>, p: int)
    requires
        sorted_strict(y),
        0 <= p < y.len(),
    ensures
        sorted_strict(y.remove(p)),
{
    let z = y.remove(p);
    assert forall|i: int, j: int| 0 <= i < j < z.len() implies z[i] < z[j] by {
        if i < p {
            assert(z[i] == y[i]);
        } else {
            assert(z[i] == y[i + 1]);
        }
        if j < p {
            assert(z[j] == y[j]);
        } else {
            assert(z[j] == y[j + 1]);
        }
    }
}

/// What `WeightsData::upsert` does to the two parallel sequences.
pub open spec fn upsert_rel(
    y0: Seq<i128>,
    w0: Seq<u128>,
    v: i128,
    s: u128,
    y1: Seq<i128>,
    w1: Seq<u128>,
) -> bool {
    if has_vote(y0, v) {
        let i = vote_index(y0, v);
        y1 == y0 && w1 == w0.update(i, sat_add(w0[i] as int, s as int) as u128)
    } else {
        exists|p: int|
            #![auto]
            0 <= p <= y0.len() && (forall|i: int| 0 <= i < p ==> y0[i] < v) && (forall|i: int|
                p <= i < y0.len() ==> y0[i] > v) && y1 == y0.insert(p, v) && w1 == w0.insert(p, s)
    }
}

/// What `WeightsData::decrement` does to the two parallel sequences.
pub open spec fn decrement_rel(
    y0: Seq<i128>,
    w0: Seq<u128>,
    v: i128,
    s: u128,
    y1: Seq<i128>,
    w1: Seq<u128>,
) -> bool {
    has_vote(y0, v) && {
        let i = vote_index(y0, v);
        if sat_sub(w0[i] as int, s as int) == 0 {
            y1 == y0.remove(i) && w1 == w0.remove(i)
        } else {
            y1 == y0 && w1 == w0.update(i, sat_sub(w0[i] as int, s as int) as u128)
        }
    }
}

/// Round trip: upserting `s` behind `v` and then decrementing `v` by `s`
/// restores the prior ledger, removing the entry if it was newly created.
/// The existing weight must not saturate when `s` is added, and existing
/// entries must carry nonzero weight.
pub proof fn lemma_upsert_decrement_round_trip(
    y0: Seq<i128>,
    w0: Seq<u128>,
    v: i128,
    s: u128,
    y1: Seq<i128>,
    w1: Seq<u128>,
    y2: Seq<i128>,
    w2: Seq<u128>,
)
    requires
        y0.len() == w0.len(),
        sorted_strict(y0),
        weights_positive(w0),
        has_vote(y0, v) ==> w0[vote_index(y0, v)] + s <= u128::MAX,
        upsert_rel(y0, w0, v, s, y1, w1),
        decrement_rel(y1, w1, v, s, y2, w2),
    ensures
        y2 == y0,
        w2 == w0,
{
    if has_vote(y0, v) {
        let i = vote_index(y0, v);
        assert(0 <= i < y0.len() && y0[i] == v);
        lemma_vote_index_is(y1, v, i);
        assert(w1[i] as int == w0[i] + s);
        assert(sat_sub(w1[i] as int, s as int) == w0[i]);
        assert(w0[i] > 0);
        assert(w2 == w1.update(i, w0[i]));
        assert(w2 =~= w0);
        assert(y2 == y0);
    } else {
        let p = choose|p: int|
            #![auto]
            0 <= p <= y0.len() && (forall|i: int| 0 <= i < p ==> y0[i] < v) && (forall|i: int|
                p <= i < y0.len() ==> y0[i] > v) && y1 == y0.insert(p, v) && w1 == w0.insert(p, s);
        lemma_sorted_insert(y0, p, v);
        assert(y1[p] == v);
        lemma_vote_index_is(y1, v, p);
        assert(w1[p] == s);
        assert(sat_sub(s as int, s as int) == 0);
        assert(y2 == y1.remove(p));
        assert(y2 =~= y0);
        assert(w2 =~= w0);
    }
}

/// The sorted ledger of (vote, weight) pairs plus the median pointer state.
pub struct WeightsData {
    /// Total weight across all entries, as supplied by the caller.
    pub total: u128,
    /// Index of the ledger entry the median pointer currently rests on.
    pub k: usize,
    /// Cached cumulative weight over the entries at indices `0 ..= k`.
    pub sum_w_k: u128,
    /// The distinct vote values, in strictly ascending order.
    pub y: Vec<i128>,
    /// The aggregated weight backing each vote value, aligned with `y`.
    pub w: Vec<u128>,
}

impl WeightsData {
    /// Structural well-formedness: parallel sequences of equal length,
    /// votes strictly ascending.
    pub open spec fn wf(&self) -> bool {
        &&& self.y@.len() == self.w@.len()
        &&& sorted_strict(self.y@)
    }

    /// The pointer stays inside the ledger (and at zero when it is empty).
    pub open spec fn pointer_in_range(&self) -> bool {
        if self.y@.len() == 0 {
            self.k == 0
        } else {
            (self.k as int) < self.y@.len()
        }
    }

    /// An empty ledger with zeroed pointer state.
    pub fn new() -> (d: WeightsData)
        ensures
            d.wf(),
            d.pointer_in_range(),
            d.total == 0,
            d.k == 0,
            d.sum_w_k == 0,
            d.y@.len() == 0,
            d.w@.len() == 0,
    {
        WeightsData { total: 0, k: 0, sum_w_k: 0, y: Vec::new(), w: Vec::new() }
    }

    /// Ordered (binary) search for `v`: the position where `v` sits or
    /// would be inserted, and whether it is present.
    fn search(&self, v: i128) -> (r: (usize, bool))
        requires
            self.wf(),
        ensures
            r.0 <= self.y@.len(),
            forall|i: int| 0 <= i < r.0 ==> self.y@[i] < v,
            forall|i: int| r.0 <= i < self.y@.len() ==> self.y@[i] >= v,
            r.1 <==> (r.0 < self.y@.len() && self.y@[r.0 as int] == v),
            r.1 <==> has_vote(self.y@, v),
            r.1 ==> vote_index(self.y@, v) == r.0,
    {
        let mut lo: usize = 0;
        let mut hi: usize = self.y.len();
        while lo < hi
            invariant
                lo <= hi <= self.y@.len(),
                self.wf(),
                forall|i: int| 0 <= i < lo ==> self.y@[i] < v,
                forall|i: int| hi <= i < self.y@.len() ==> self.y@[i] >= v,
            decreases hi - lo,
        {
            let mid: usize = lo + (hi - lo) / 2;
            if self.y[mid] < v {
                assert forall|i: int| 0 <= i < mid + 1 implies self.y@[i] < v by {
                    if i < mid {
                        assert(self.y@[i] < self.y@[mid as int]);
                    }
                }
                lo = mid + 1;
            } else {
                assert forall|i: int| mid <= i < self.y@.len() implies self.y@[i] >= v by {
                    if i > mid {
                        assert(self.y@[mid as int] < self.y@[i]);
                    }
                }
                hi = mid;
            }
        }
        let found: bool = lo < self.y.len() && self.y[lo] == v;
        proof {
            if has_vote(self.y@, v) {
                let i = vote_index(self.y@, v);
                assert(self.y@[i] == v);
                assert(i >= lo);
                if i > lo {
                    assert(self.y@[lo as int] < self.y@[i]);
                    assert(self.y@[lo as int] >= v);
                }
                assert(found);
            }
            if found {
                lemma_vote_index_is(self.y@, v, lo as int);
            }
        }
        (lo, found)
    }

    /// Register `delta` more weight behind `vote`: add to the existing
    /// entry with saturating addition, or insert a fresh entry (even when
    /// `delta` is zero) at its sorted position. Returns the index touched
    /// and whether a new entry was created.
    pub fn upsert(&mut self, vote: i128, delta: u128) -> (r: (usize, bool))
        requires
            old(self).wf(),
        ensures
            final(self).wf(),
            final(self).total == old(self).total,
            final(self).k == old(self).k,
            final(self).sum_w_k == old(self).sum_w_k,
            r.1 <==> !has_vote(old(self).y@, vote),
            (r.0 as int) < final(self).y@.len(),
            final(self).y@[r.0 as int] == vote,
            forall|i: int| 0 <= i < r.0 ==> old(self).y@[i] < vote,
            r.1 ==> r.0 <= old(self).y@.len()
                && final(self).y@ == old(self).y@.insert(r.0 as int, vote)
                && final(self).w@ == old(self).w@.insert(r.0 as int, delta)
                && (forall|i: int| r.0 <= i < old(self).y@.len() ==> old(self).y@[i] > vote),
            !r.1 ==> (r.0 as int) < old(self).y@.len()
                && old(self).y@[r.0 as int] == vote
                && vote_index(old(self).y@, vote) == r.0 as int
                && final(self).y@ == old(self).y@
                && final(self).w@ == old(self).w@.update(
                    r.0 as int,
                    sat_add(old(self).w@[r.0 as int] as int, delta as int) as u128,
                ),
            upsert_rel(old(self).y@, old(self).w@, vote, delta, final(self).y@, final(self).w@),
    {
        let (pos, found) = self.search(vote);
        if found {
            let cur: u128 = self.w[pos];
            self.w[pos] = cur.saturating_add(delta);
            proof {
                assert(final(self).w@ == old(self).w@.update(
                    pos as int,
                    sat_add(old(self).w@[pos as int] as int, delta as int) as u128,
                ));
            }
            (pos, false)
        } else {
            proof {
                lemma_sorted_insert(self.y@, pos as int, vote);
                assert forall|i: int| pos <= i < old(self).y@.len() implies old(self).y@[i]
                    > vote by {
                    assert(old(self).y@[i] >= vote);
                    if old(self).y@[i] == vote {
                        assert(has_vote(old(self).y@, vote));
                    }
                }
            }
            self.y.insert(pos, vote);
            self.w.insert(pos, delta);
            (pos, true)
        }
    }

    /// Withdraw `delta` weight from the entry carrying `vote`, with
    /// saturating subtraction; an entry whose weight reaches zero is
    /// removed. The caller must only decrement a registered vote.
    /// Returns the index touched and whether the entry was removed.
    pub fn decrement(&mut self, vote: i128, delta: u128) -> (r: (usize, bool))
        requires
            old(self).wf(),
            has_vote(old(self).y@, vote),
        ensures
            final(self).wf(),
            final(self).total == old(self).total,
            final(self).k == old(self).k,
            final(self).sum_w_k == old(self).sum_w_k,
            (r.0 as int) == vote_index(old(self).y@, vote),
            (r.0 as int) < old(self).y@.len(),
            old(self).y@[r.0 as int] == vote,
            forall|i: int| 0 <= i < r.0 ==> old(self).y@[i] < vote,
            forall|i: int| r.0 < i < old(self).y@.len() ==> old(self).y@[i] > vote,
            r.1 <==> sat_sub(old(self).w@[r.0 as int] as int, delta as int) == 0,
            r.1 ==> final(self).y@ == old(self).y@.remove(r.0 as int)
                && final(self).w@ == old(self).w@.remove(r.0 as int),
            !r.1 ==> final(self).y@ == old(self).y@
                && final(self).w@ == old(self).w@.update(
                    r.0 as int,
                    sat_sub(old(self).w@[r.0 as int] as int, delta as int) as u128,
                ),
            decrement_rel(old(self).y@, old(self).w@, vote, delta, final(self).y@, final(self).w@),
    {
        let (pos, found) = self.search(vote);
        assert(found);
        let next: u128 = self.w[pos].saturating_sub(delta);
        if next == 0 {
            proof {
                lemma_sorted_remove(self.y@, pos as int);
            }
            self.y.remove(pos);
            self.w.remove(pos);
            (pos, true)
        } else {
            self.w[pos] = next;
            (pos, false)
        }
    }

    /// Whether some entry carries the vote value `v`.
    pub fn contains_vote(&self, v: i128) -> (b: bool)
        requires
            self.wf(),
        ensures
            b == has_vote(self.y@, v),
    {
        let (_pos, found) = self.search(v);
        found
    }
}

} // verus!
