//! The median engine: one `rebalance` call per update event mutates the
//! ledger, repairs the median pointer and its cached cumulative sum, and
//! derives the new weighted median.

use vstd::prelude::*;

use crate::ledger::decrement_rel;
use crate::ledger::has_vote;
use crate::ledger::sat_add;
use crate::ledger::sat_sub;
use crate::ledger::sorted_strict;
use crate::ledger::sum_prefix;
use crate::ledger::upsert_rel;
use crate::ledger::vote_index;
use crate::ledger::weights_positive;
use crate::ledger::WeightsData;

verus! {

/// The weight threshold defining the median split: `floor(total / 2)`.
pub open spec fn half_of(total: int) -> int {
    total / 2
}

/// Saturating addition on the vote domain, clamped at the `i128` bounds.
pub open spec fn sat_add_votes(a: int, b: int) -> int {
    if a + b > i128::MAX {
        i128::MAX as int
    } else if a + b < i128::MIN {
        i128::MIN as int
    } else {
        a + b
    }
}

/// Floor-average of two vote values, on saturated addition.
pub open spec fn floor_avg(a: i128, b: i128) -> int {
    sat_add_votes(a as int, b as int) / 2
}

/// `k` is the smallest index whose cumulative weight reaches `half`.
pub open spec fn is_median_index(w: Seq<u128>, half: int, k: int) -> bool {
    &&& 0 <= k < w.len()
    &&& sum_prefix(w, k + 1) >= half
    &&& (k > 0 ==> sum_prefix(w, k) < half)
}

/// The median value read off the pointer: the vote at `k`, or the
/// floor-average of the votes at `k` and `k + 1` on an exact split.
pub open spec fn median_at(y: Seq<i128>, w: Seq<u128>, half: int, k: int) -> int {
    if sum_prefix(w, k + 1) == half && k + 1 < y.len() {
        floor_avg(y[k], y[k + 1])
    } else {
        y[k] as int
    }
}

/// Vote values small enough that averaging two of them never saturates.
pub open spec fn vote_bounded(v: i128) -> bool {
    -0x4000_0000_0000_0000_0000_0000_0000_0000 <= v
        && v < 0x4000_0000_0000_0000_0000_0000_0000_0000
}

/// One whole update event acting on the ledger content, with `y1`/`w1` the
/// intermediate state: an upsert of the new stake, then, when a prior vote
/// is being withdrawn, a decrement of the old stake.
pub open spec fn event_rel(
    y0: Seq<i128>,
    w0: Seq<u128>,
    new_stake: u128,
    new_vote: i128,
    old_stake: u128,
    old_vote: i128,
    y1: Seq<i128>,
    w1: Seq<u128>,
    y2: Seq<i128>,
    w2: Seq<u128>,
) -> bool {
    upsert_rel(y0, w0, new_vote, new_stake, y1, w1) && if old_vote != -1 && old_stake != 0 {
        decrement_rel(y1, w1, old_vote, old_stake, y2, w2)
    } else {
        y2 == y1 && w2 == w1
    }
}

/// What the ledger content of one whole update event amounts to.
pub open spec fn ledger_step(
    y0: Seq<i128>,
    w0: Seq<u128>,
    new_stake: u128,
    new_vote: i128,
    old_stake: u128,
    old_vote: i128,
    y2: Seq<i128>,
    w2: Seq<u128>,
) -> bool {
    exists|y1: Seq<i128>, w1: Seq<u128>|
        event_rel(y0, w0, new_stake, new_vote, old_stake, old_vote, y1, w1, y2, w2)
}

/// Why an update was rejected.
#[derive(Clone, Copy, Debug, PartialEq, Eq, Structural)]
pub enum RebalanceError {
    /// The update withdraws stake from a vote value that the ledger does
    /// not carry: a caller contract violation, rejected with no state
    /// change rather than aborting.
    MissingDecrementTarget,
}

/// The engine state: the ledger with its pointer fields, and the last
/// computed median (`-1` before the first computation).
pub struct MedianEngine {
    /// Result of the last median computation.
    pub median: i128,
    /// The vote-weight ledger together with total, pointer and cache.
    pub d: WeightsData,
}

/// The coherent-state invariant: the ledger is well formed with positive
/// weights and honestly accounted total; whenever a median is derivable
/// (total at least 2), the pointer sits on the smallest index whose
/// cumulative weight reaches half the total, the cache equals that true
/// cumulative weight, and the median is the value read off the pointer.
pub open spec fn engine_inv(e: MedianEngine) -> bool {
    &&& e.d.wf()
    &&& e.d.pointer_in_range()
    &&& weights_positive(e.d.w@)
    &&& (forall|i: int| 0 <= i < e.d.y@.len() ==> vote_bounded(#[trigger] e.d.y@[i]))
    &&& e.d.total as int == sum_prefix(e.d.w@, e.d.w@.len() as int)
    &&& (e.d.total < 2 ==> e.d.sum_w_k == 0)
    &&& (e.d.total >= 2 ==> {
        let half = half_of(e.d.total as int);
        &&& e.d.sum_w_k as int == sum_prefix(e.d.w@, e.d.k + 1)
        &&& is_median_index(e.d.w@, half, e.d.k as int)
        &&& e.median as int == median_at(e.d.y@, e.d.w@, half, e.d.k as int)
    })
}

/// An update event under which the incremental repair is exact: the state
/// is coherent (or the ledger empty); any withdrawn stake comes from the
/// same, registered vote and is no larger than the stake added; the new
/// total honestly accounts for the net change and its headroom keeps the
/// weight arithmetic exact; a fresh entry carries weight; the new vote is
/// averaging-safe; and a new vote equal to the previous median may only be
/// the pointer entry itself.
pub open spec fn additive_update(
    e: MedianEngine,
    new_total: u128,
    new_stake: u128,
    new_vote: i128,
    old_stake: u128,
    old_vote: i128,
) -> bool {
    &&& engine_inv(e)
    &&& (old_stake == 0 || (old_vote == new_vote && old_vote != -1 && old_stake <= new_stake
        && has_vote(e.d.y@, new_vote)))
    &&& new_total as int == e.d.total as int + new_stake as int - old_stake as int
    &&& e.d.total as int + new_stake as int <= u128::MAX as int
    &&& (new_stake > 0 || has_vote(e.d.y@, new_vote))
    &&& (e.d.total >= 2 || e.d.y@.len() == 0)
    &&& vote_bounded(new_vote)
    &&& (new_vote as int != e.median as int || (e.d.y@.len() > 0 && e.d.y@[e.d.k as int]
        == new_vote))
}

/// Saturating addition of two vote values.
fn saturating_add_votes(a: i128, b: i128) -> (r: i128)
    ensures
        r as int == sat_add_votes(a as int, b as int),
{
    match a.checked_add(b) {
        Some(s) => s,
        None => {
            if a > 0 {
                i128::MAX
            } else {
                i128::MIN
            }
        },
    }
}

/// Floor division of a vote value by two (rounding toward negative
/// infinity, as the median rule asks).
fn floor_half_vote(s: i128) -> (r: i128)
    ensures
        r as int == (s as int) / 2,
{
    if s >= 0 {
        ((s as u128) / 2) as i128
    } else if s == i128::MIN {
        -0x4000_0000_0000_0000_0000_0000_0000_0000i128
    } else {
        let m: u128 = (-s) as u128;
        let q: u128 = (m + 1) / 2;
        let r: i128 = -(q as i128);
        proof {
            let si = s as int;
            let mi = m as int;
            assert(si == -mi);
            assert(mi == 2 * (mi / 2) + (mi % 2)) by {
                vstd::arithmetic::div_mod::lemma_fundamental_div_mod(mi, 2);
            }
            assert((mi + 1) / 2 == (mi / 2) + (mi % 2)) by {
                vstd::arithmetic::div_mod::lemma_fundamental_div_mod(mi + 1, 2);
            }
            assert(si / 2 == -((mi / 2) + (mi % 2))) by {
                vstd::arithmetic::div_mod::lemma_fundamental_div_mod(si, 2);
            }
        }
        r
    }
}

/// Two pointer positions that are both smallest-reaching-half coincide.
pub proof fn lemma_median_index_unique(w: Seq<u128>, half: int, k1: int, k2: int)
    requires
        is_median_index(w, half, k1),
        is_median_index(w, half, k2),
    ensures
        k1 == k2,
{
    if k1 < k2 {
        crate::ledger::lemma_sum_prefix_le(w, k1 + 1, k2);
    }
    if k2 < k1 {
        crate::ledger::lemma_sum_prefix_le(w, k2 + 1, k1);
    }
}

/// In a coherent state the median lies between the pointer entry and its
/// successor: no saturation disturbs the averaging of bounded votes.
pub proof fn lemma_median_between(e: MedianEngine)
    requires
        engine_inv(e),
        e.d.total >= 2,
    ensures
        e.d.y@[e.d.k as int] as int <= e.median as int,
        e.d.k as int + 1 < e.d.y@.len() ==> (e.median as int) < e.d.y@[e.d.k as int + 1] as int,
{
    let k = e.d.k as int;
    let half = half_of(e.d.total as int);
    if sum_prefix(e.d.w@, k + 1) == half && k + 1 < e.d.y@.len() {
        let a = e.d.y@[k] as int;
        let b = e.d.y@[k + 1] as int;
        assert(a < b);
        assert(vote_bounded(e.d.y@[k]));
        assert(vote_bounded(e.d.y@[k + 1]));
        assert(sat_add_votes(a, b) == a + b);
        assert(a + b == 2 * ((a + b) / 2) + ((a + b) % 2)) by {
            vstd::arithmetic::div_mod::lemma_fundamental_div_mod(a + b, 2);
        }
        assert(a <= (a + b) / 2);
        assert((a + b) / 2 < b);
    }
}

/// The ledger content of one update event, derived from the two phase
/// relations: the event as a whole, and preservation of positive weights
/// (a fresh entry created with zero stake and not withdrawn again is the
/// one way an update can leave a zero-weight entry behind).
proof fn lemma_event_ledger(
    y0: Seq<i128>,
    w0: Seq<u128>,
    new_stake: u128,
    new_vote: i128,
    old_stake: u128,
    old_vote: i128,
    y1: Seq<i128>,
    w1: Seq<u128>,
    y2: Seq<i128>,
    w2: Seq<u128>,
)
    requires
        y0.len() == w0.len(),
        sorted_strict(y0),
        upsert_rel(y0, w0, new_vote, new_stake, y1, w1),
        old_vote != -1 && old_stake != 0 ==> decrement_rel(y1, w1, old_vote, old_stake, y2, w2),
        !(old_vote != -1 && old_stake != 0) ==> y2 == y1 && w2 == w1,
    ensures
        ledger_step(y0, w0, new_stake, new_vote, old_stake, old_vote, y2, w2),
        weights_positive(w0) && (new_stake > 0 || has_vote(y0, new_vote) || (old_vote == new_vote
            && old_vote != -1 && old_stake > 0)) ==> weights_positive(w2),
{
    assert(event_rel(y0, w0, new_stake, new_vote, old_stake, old_vote, y1, w1, y2, w2));
    if weights_positive(w0) && (new_stake > 0 || has_vote(y0, new_vote) || (old_vote == new_vote
        && old_vote != -1 && old_stake > 0)) {
        if new_stake > 0 || has_vote(y0, new_vote) {
            assert forall|i: int| 0 <= i < w1.len() implies #[trigger] w1[i] > 0 by {
                if has_vote(y0, new_vote) {
                    let j = vote_index(y0, new_vote);
                    if i != j {
                        assert(w1[i] == w0[i]);
                    }
                } else {
                    let p = choose|p: int|
                        #![auto]
                        0 <= p <= y0.len() && (forall|q: int| 0 <= q < p ==> y0[q] < new_vote) && (
                        forall|q: int| p <= q < y0.len() ==> y0[q] > new_vote) && y1 == y0.insert(
                            p,
                            new_vote,
                        ) && w1 == w0.insert(p, new_stake);
                    if i > p {
                        assert(w1[i] == w0[i - 1]);
                    } else if i < p {
                        assert(w1[i] == w0[i]);
                    }
                }
            }
            if old_vote != -1 && old_stake != 0 {
                let j = vote_index(y1, old_vote);
                assert forall|i: int| 0 <= i < w2.len() implies #[trigger] w2[i] > 0 by {
                    if sat_sub(w1[j] as int, old_stake as int) == 0 {
                        if i >= j {
                            assert(w2[i] == w1[i + 1]);
                        } else {
                            assert(w2[i] == w1[i]);
                        }
                    } else {
                        if i != j {
                            assert(w2[i] == w1[i]);
                        }
                    }
                }
            }
        } else {
            // fresh zero-stake entry, but the event withdraws it again
            let p = choose|p: int|
                #![auto]
                0 <= p <= y0.len() && (forall|q: int| 0 <= q < p ==> y0[q] < new_vote) && (forall|
                    q: int,
                |
                    p <= q < y0.len() ==> y0[q] > new_vote) && y1 == y0.insert(p, new_vote) && w1
                    == w0.insert(p, new_stake);
            crate::ledger::lemma_sorted_insert(y0, p, new_vote);
            assert(y1[p] == new_vote);
            crate::ledger::lemma_vote_index_is(y1, new_vote, p);
            assert(w1[p] == 0);
            assert(y2 == y1.remove(p) && w2 == w1.remove(p));
            assert forall|i: int| 0 <= i < w2.len() implies #[trigger] w2[i] > 0 by {
                if i < p {
                    assert(w2[i] == w1[i]);
                    assert(w1[i] == w0[i]);
                } else {
                    assert(w2[i] == w1[i + 1]);
                    assert(w1[i + 1] == w0[i]);
                }
            }
        }
    }
}

/// Facts available when the pointer-repair loops begin, for an additive
/// update applied to a coherent state: `iv`, `added`, `y2` and `w2` are the
/// upsert's touched index, creation flag and resulting sequences.
proof fn lemma_additive_entry(
    e0: MedianEngine,
    new_total: u128,
    new_stake: u128,
    new_vote: i128,
    old_stake: u128,
    old_vote: i128,
    iv: int,
    added: bool,
    y2: Seq<i128>,
    wmid: Seq<u128>,
    w2: Seq<u128>,
)
    requires
        additive_update(e0, new_total, new_stake, new_vote, old_stake, old_vote),
        new_total >= 2,
        added <==> !has_vote(e0.d.y@, new_vote),
        added ==> 0 <= iv <= e0.d.y@.len() && y2 == e0.d.y@.insert(iv, new_vote) && wmid
            == e0.d.w@.insert(iv, new_stake) && (forall|i: int|
            0 <= i < iv ==> e0.d.y@[i] < new_vote) && (forall|i: int|
            iv <= i < e0.d.y@.len() ==> e0.d.y@[i] > new_vote),
        !added ==> 0 <= iv < e0.d.y@.len() && e0.d.y@[iv] == new_vote && y2 == e0.d.y@ && wmid
            == e0.d.w@.update(iv, sat_add(e0.d.w@[iv] as int, new_stake as int) as u128) && (
        forall|i: int| 0 <= i < iv ==> e0.d.y@[i] < new_vote) && (forall|i: int|
            iv < i < e0.d.y@.len() ==> e0.d.y@[i] > new_vote),
        old_stake == 0 ==> w2 == wmid,
        old_stake != 0 ==> w2 == wmid.update(
            iv,
            sat_sub(wmid[iv] as int, old_stake as int) as u128,
        ),
    ensures
        y2.len() == w2.len(),
        y2.len() > 0,
        sorted_strict(y2),
        weights_positive(w2),
        forall|i: int| 0 <= i < y2.len() ==> vote_bounded(#[trigger] y2[i]),
        sum_prefix(w2, w2.len() as int) == new_total,
        new_stake == 0 ==> y2 == e0.d.y@ && w2 == e0.d.w@,
        ({
            let k0 = e0.d.k as int;
            let c0 = e0.d.sum_w_k as int;
            let m0 = e0.median as int;
            let half = half_of(new_total as int);
            let step_a = (y2.len() == 1 || new_vote as int <= m0);
            let centry: int = if step_a {
                c0 + new_stake - old_stake
            } else {
                c0
            };
            let kentry: int = if m0 > new_vote as int && added && y2.len() > 1 {
                k0 + 1
            } else {
                k0
            };
            &&& c0 + new_stake <= u128::MAX
            &&& 0 <= kentry < y2.len()
            &&& (m0 > new_vote as int && added && y2.len() > 1 ==> k0 + 1 < y2.len())
            &&& sum_prefix(w2, kentry + 1) == centry
            &&& (m0 > new_vote as int ==> centry >= half)
            &&& (m0 <= new_vote as int ==> (kentry > 0 ==> sum_prefix(w2, kentry) < half))
        }),
{
    let y0 = e0.d.y@;
    let w0 = e0.d.w@;
    let len0 = y0.len() as int;
    let k0 = e0.d.k as int;
    let c0 = e0.d.sum_w_k as int;
    let m0 = e0.median as int;
    let t0 = e0.d.total as int;
    let s = new_stake as int;
    let os = old_stake as int;
    let d = s - os;
    let v = new_vote as int;
    let tt = new_total as int;
    let half = half_of(tt);
    let half0 = half_of(t0);
    let fv = (if 0 <= iv < len0 {
        (w0[iv] + d) as u128
    } else {
        0u128
    });
    assert(0 <= os <= s);
    vstd::arithmetic::div_mod::lemma_fundamental_div_mod(t0, 2);
    vstd::arithmetic::div_mod::lemma_fundamental_div_mod(tt, 2);
    // half grows with the total, and by at most the net added stake
    vstd::arithmetic::div_mod::lemma_div_is_ordered(t0, tt, 2);
    vstd::arithmetic::div_mod::lemma_fundamental_div_mod_converse(t0 + 2 * d, 2, half0 + d, t0 % 2);
    vstd::arithmetic::div_mod::lemma_div_is_ordered(tt, t0 + 2 * d, 2);
    assert(half0 <= half <= half0 + d);
    // sortedness, bounds, positivity of the touched state
    if added {
        // a withdrawal presumes a registered vote, so a fresh entry means
        // that nothing is withdrawn
        assert(old_stake == 0);
        assert(w2 == wmid);
        crate::ledger::lemma_sorted_insert(y0, iv, new_vote);
        assert(new_stake > 0);
        assert forall|i: int| 0 <= i < y2.len() implies vote_bounded(#[trigger] y2[i]) by {
            if i > iv {
                assert(y2[i] == y0[i - 1]);
            }
        }
        assert forall|i: int| 0 <= i < w2.len() implies #[trigger] w2[i] > 0 by {
            if i > iv {
                assert(w2[i] == w0[i - 1]);
            }
        }
    } else {
        // the touched weight cannot saturate under an honest total with
        // headroom for the added stake
        assert(sum_prefix(w0, iv + 1) == sum_prefix(w0, iv) + w0[iv]);
        crate::ledger::lemma_sum_prefix_le(w0, 0, iv);
        crate::ledger::lemma_sum_prefix_le(w0, iv + 1, len0);
        assert(w0[iv] + s <= u128::MAX);
        assert(wmid[iv] == w0[iv] + s);
        assert(w2 =~= w0.update(iv, fv));
        assert forall|i: int| 0 <= i < w2.len() implies #[trigger] w2[i] > 0 by {
            if i != iv {
                assert(w2[i] == w0[i]);
            } else {
                assert(w2[i] == fv);
            }
        }
    }
    // the honest total equals the new full prefix sum
    if added {
        crate::ledger::lemma_sum_prefix_insert(w0, iv, new_stake, len0 + 1);
    } else {
        crate::ledger::lemma_sum_prefix_update(w0, iv, fv, len0);
    }
    assert(sum_prefix(w2, w2.len() as int) == tt);
    // the cache bound
    if len0 > 0 {
        crate::ledger::lemma_sum_prefix_le(w0, k0 + 1, len0);
    }
    assert(c0 + s <= u128::MAX);
    if new_stake == 0 {
        assert(w2 =~= w0);
    }
    // position of the touched index relative to the old pointer
    if len0 == 0 {
        assert(added && iv == 0 && y2.len() == 1);
        crate::ledger::lemma_sum_prefix_insert(w0, 0, new_stake, 1);
        assert(sum_prefix(w2, 1) == s);
        assert(c0 == 0 && k0 == 0);
        assert(t0 == 0);
        assert(half <= tt);
    } else {
        assert(t0 >= 2);
        lemma_median_between(e0);
        assert(y0[k0] as int <= m0);
        if added {
            if v < m0 {
                // the fresh entry lands at or left of the pointer successor
                assert(iv <= k0 + 1) by {
                    if iv > k0 + 1 {
                        assert(y0[k0 + 1] < new_vote);
                    }
                }
                crate::ledger::lemma_sum_prefix_insert(w0, iv, new_stake, k0 + 2);
                assert(sum_prefix(w2, k0 + 2) == c0 + s);
            } else {
                // v == m0 is excluded for a fresh vote, so v > m0
                assert(v > m0);
                assert(iv >= k0 + 1) by {
                    if iv <= k0 {
                        assert(y0[k0] > new_vote);
                    }
                }
                crate::ledger::lemma_sum_prefix_insert(w0, iv, new_stake, k0 + 1);
                crate::ledger::lemma_sum_prefix_insert(w0, iv, new_stake, k0);
            }
        } else {
            if v <= m0 {
                assert(iv <= k0) by {
                    if iv > k0 {
                        assert(y0[k0 + 1] <= y0[iv]);
                    }
                }
                if v == m0 {
                    assert(y0[k0] == new_vote);
                    assert(iv == k0);
                }
                crate::ledger::lemma_sum_prefix_update(w0, iv, fv, k0 + 1);
                assert(sum_prefix(w2, k0 + 1) == c0 + d);
            } else {
                assert(iv > k0) by {
                    if iv <= k0 {
                        assert(y0[iv] <= y0[k0]);
                    }
                }
                crate::ledger::lemma_sum_prefix_update(w0, iv, fv, k0 + 1);
            }
            crate::ledger::lemma_sum_prefix_update(w0, iv, fv, k0);
        }
    }
}

/// Every coherent state is structurally sound: equally long parallel
/// sequences, votes strictly ascending (hence distinct), and every entry
/// backed by nonzero weight.
pub proof fn lemma_coherent_shape(e: MedianEngine)
    requires
        engine_inv(e),
    ensures
        e.d.y@.len() == e.d.w@.len(),
        sorted_strict(e.d.y@),
        weights_positive(e.d.w@),
{
}

/// The master cross-check: in a coherent state with a derivable median,
/// the incrementally maintained median equals the one read off any
/// independently found smallest-reaching-half index.
pub proof fn lemma_median_cross_check(e: MedianEngine, k: int)
    requires
        engine_inv(e),
        e.d.total >= 2,
        is_median_index(e.d.w@, half_of(e.d.total as int), k),
    ensures
        e.median as int == median_at(e.d.y@, e.d.w@, half_of(e.d.total as int), k),
{
    lemma_median_index_unique(e.d.w@, half_of(e.d.total as int), k, e.d.k as int);
}

/// Recompute the weighted median from scratch, walking the ledger until
/// the cumulative weight reaches half the total, independently of the
/// incrementally maintained pointer. The stored total must honestly sum
/// the weights; no median is derivable from a total below two.
pub fn recompute_median(d: &WeightsData) -> (r: Option<i128>)
    requires
        d.wf(),
        d.total as int == sum_prefix(d.w@, d.y@.len() as int),
    ensures
        r is Some <==> d.total >= 2,
        r is Some ==> exists|k: int|
            is_median_index(d.w@, half_of(d.total as int), k) && r->Some_0 as int == median_at(
                d.y@,
                d.w@,
                half_of(d.total as int),
                k,
            ),
{
    if d.total < 2 {
        return None;
    }
    let len: usize = d.y.len();
    assert(sum_prefix(d.w@, 0) == 0);
    assert(len > 0);
    let half: u128 = d.total / 2;
    let mut k: usize = 0;
    let mut c: u128 = d.w[0];
    assert(c as int == sum_prefix(d.w@, 1));
    while c < half && k + 1 < len
        invariant
            d.y@.len() == len,
            d.w@.len() == len,
            (k as int) < len as int,
            c as int == sum_prefix(d.w@, k + 1),
            k > 0 ==> sum_prefix(d.w@, k as int) < half as int,
            sum_prefix(d.w@, len as int) == d.total,
            half == d.total / 2,
            d.total >= 2,
        decreases len - k,
    {
        k = k + 1;
        proof {
            assert(sum_prefix(d.w@, k + 1) == sum_prefix(d.w@, k as int) + d.w@[k as int]);
            crate::ledger::lemma_sum_prefix_le(d.w@, k + 1, len as int);
        }
        c = c + d.w[k];
    }
    proof {
        if c < half {
            assert(k + 1 == len);
            vstd::arithmetic::div_mod::lemma_fundamental_div_mod(d.total as int, 2);
            assert(false);
        }
        assert(is_median_index(d.w@, half as int, k as int));
        if c == half && k + 1 == len {
            vstd::arithmetic::div_mod::lemma_fundamental_div_mod(d.total as int, 2);
            assert(false);
        }
    }
    let mut med: i128 = d.y[k];
    if c == half && k + 1 < len {
        let nxt: i128 = d.y[k + 1];
        med = floor_half_vote(saturating_add_votes(med, nxt));
    }
    proof {
        assert(is_median_index(d.w@, half_of(d.total as int), k as int));
        assert(med as int == median_at(d.y@, d.w@, half_of(d.total as int), k as int));
    }
    Some(med)
}

/// Once the pointer repair has landed on the smallest index reaching half
/// of an honestly accounted total, the resulting state is coherent again;
/// and a zero-stake additive update has changed nothing at all.
proof fn lemma_additive_exit(
    e0: MedianEngine,
    new_total: u128,
    new_stake: u128,
    new_vote: i128,
    old_stake: u128,
    old_vote: i128,
    e2: MedianEngine,
)
    requires
        additive_update(e0, new_total, new_stake, new_vote, old_stake, old_vote),
        new_total >= 2,
        e2.d.y@.len() == e2.d.w@.len(),
        e2.d.y@.len() > 0,
        sorted_strict(e2.d.y@),
        weights_positive(e2.d.w@),
        forall|i: int| 0 <= i < e2.d.y@.len() ==> vote_bounded(#[trigger] e2.d.y@[i]),
        e2.d.total == new_total,
        sum_prefix(e2.d.w@, e2.d.w@.len() as int) == new_total,
        e2.d.sum_w_k as int == sum_prefix(e2.d.w@, e2.d.k + 1),
        is_median_index(e2.d.w@, half_of(new_total as int), e2.d.k as int),
        e2.median as int == (if e2.d.sum_w_k as int == half_of(new_total as int) && e2.d.k + 1
            < e2.d.y@.len() {
            floor_avg(e2.d.y@[e2.d.k as int], e2.d.y@[e2.d.k as int + 1])
        } else {
            e2.d.y@[e2.d.k as int] as int
        }),
        new_stake == 0 ==> e2.d.y@ == e0.d.y@ && e2.d.w@ == e0.d.w@ && new_total == e0.d.total,
    ensures
        engine_inv(e2),
        new_stake == 0 ==> e2.d.k == e0.d.k && e2.d.sum_w_k == e0.d.sum_w_k && e2.median
            == e0.median,
{
    let half = half_of(new_total as int);
    let k = e2.d.k as int;
    if e2.d.sum_w_k as int == half {
        // an exact split cannot happen at the last entry of an honest total
        if k + 1 == e2.d.y@.len() {
            vstd::arithmetic::div_mod::lemma_fundamental_div_mod(new_total as int, 2);
            assert(false);
        }
    }
    assert(e2.median as int == median_at(e2.d.y@, e2.d.w@, half, k));
    assert(engine_inv(e2));
    if new_stake == 0 {
        assert(e0.d.total >= 2);
        lemma_median_index_unique(e2.d.w@, half, k, e0.d.k as int);
        assert(e2.d.sum_w_k as int == sum_prefix(e0.d.w@, e0.d.k + 1));
        assert(e2.median as int == median_at(e0.d.y@, e0.d.w@, half, e0.d.k as int));
    }
}

/// Shrink the window: step the pointer left while the cumulative sum would
/// still reach `half` without the pointer entry. When `exact` holds the
/// cache mirrors the true cumulative sum throughout and the pointer lands
/// on the smallest index reaching `half`.
fn shrink_pointer(d: &mut WeightsData, half: u128, Ghost(exact): Ghost<bool>)
    requires
        old(d).y@.len() == old(d).w@.len(),
        old(d).y@.len() > 0,
        (old(d).k as int) < old(d).y@.len(),
        exact ==> old(d).sum_w_k as int == sum_prefix(old(d).w@, old(d).k + 1),
        exact ==> old(d).sum_w_k >= half,
    ensures
        final(d).y@ == old(d).y@,
        final(d).w@ == old(d).w@,
        final(d).total == old(d).total,
        final(d).k <= old(d).k,
        exact ==> final(d).sum_w_k as int == sum_prefix(final(d).w@, final(d).k + 1),
        exact ==> final(d).sum_w_k >= half,
        exact ==> is_median_index(final(d).w@, half as int, final(d).k as int),
{
    let ghost w2 = d.w@;
    while d.k >= 1 && d.sum_w_k.saturating_sub(d.w[d.k]) >= half
        invariant
            d.y@ == old(d).y@,
            d.w@ == w2,
            w2 == old(d).w@,
            d.total == old(d).total,
            d.y@.len() == w2.len(),
            (d.k as int) < w2.len(),
            d.k <= old(d).k,
            exact ==> d.sum_w_k as int == sum_prefix(w2, d.k + 1),
            exact ==> d.sum_w_k >= half,
        decreases d.k,
    {
        proof {
            if exact {
                assert(sum_prefix(w2, d.k + 1) == sum_prefix(w2, d.k as int) + w2[d.k as int]);
                crate::ledger::lemma_sum_prefix_le(w2, 0, d.k as int);
            }
        }
        d.sum_w_k = d.sum_w_k.saturating_sub(d.w[d.k]);
        d.k = d.k - 1;
    }
    proof {
        if exact {
            assert(sum_prefix(w2, d.k + 1) == sum_prefix(w2, d.k as int) + w2[d.k as int]);
            crate::ledger::lemma_sum_prefix_le(w2, 0, d.k as int);
        }
    }
}

/// Grow the window: step the pointer right until the cumulative sum
/// reaches `half`, stopping at the last entry. When `exact` holds the
/// cache mirrors the true cumulative sum, the total honestly sums the
/// weights, and the pointer lands on the smallest index reaching `half`.
fn grow_pointer(d: &mut WeightsData, half: u128, len: usize, Ghost(exact): Ghost<bool>)
    requires
        old(d).y@.len() == old(d).w@.len(),
        len == old(d).y@.len(),
        len > 0,
        (old(d).k as int) < len as int,
        exact ==> old(d).sum_w_k as int == sum_prefix(old(d).w@, old(d).k + 1),
        exact ==> (old(d).k > 0 ==> sum_prefix(old(d).w@, old(d).k as int) < half as int),
        exact ==> sum_prefix(old(d).w@, len as int) == old(d).total as int,
        exact ==> half as int == half_of(old(d).total as int),
        exact ==> old(d).total >= 2,
    ensures
        final(d).y@ == old(d).y@,
        final(d).w@ == old(d).w@,
        final(d).total == old(d).total,
        final(d).k >= old(d).k,
        (final(d).k as int) < len as int,
        exact ==> final(d).sum_w_k as int == sum_prefix(final(d).w@, final(d).k + 1),
        exact ==> final(d).sum_w_k >= half,
        exact ==> is_median_index(final(d).w@, half as int, final(d).k as int),
{
    let ghost w2 = d.w@;
    while d.sum_w_k < half && d.k + 1 < len
        invariant
            d.y@ == old(d).y@,
            d.w@ == w2,
            w2 == old(d).w@,
            d.total == old(d).total,
            d.y@.len() == w2.len(),
            len == w2.len(),
            (d.k as int) < len as int,
            d.k >= old(d).k,
            exact ==> d.sum_w_k as int == sum_prefix(w2, d.k + 1),
            exact ==> (d.k > 0 ==> sum_prefix(w2, d.k as int) < half as int),
            exact ==> sum_prefix(w2, len as int) == d.total as int,
        decreases len - d.k,
    {
        d.k = d.k + 1;
        proof {
            if exact {
                assert(sum_prefix(w2, d.k + 1) == sum_prefix(w2, d.k as int) + w2[d.k as int]);
                crate::ledger::lemma_sum_prefix_le(w2, d.k + 1, len as int);
            }
        }
        d.sum_w_k = d.sum_w_k.saturating_add(d.w[d.k]);
    }
    proof {
        if exact {
            if d.sum_w_k < half {
                assert(d.k + 1 == len);
                assert(d.sum_w_k as int == d.total as int);
                vstd::arithmetic::div_mod::lemma_fundamental_div_mod(d.total as int, 2);
                assert(false);
            }
        }
    }
}

impl MedianEngine {
    /// A fresh engine: empty ledger, median not yet derived.
    pub fn new() -> (e: MedianEngine)
        ensures
            engine_inv(e),
            e.median == -1,
            e.d.total == 0,
            e.d.y@.len() == 0,
    {
        MedianEngine { median: -1, d: WeightsData::new() }
    }

    /// The ledger-mutating half of an update event: reject a withdrawal
    /// from an unregistered vote before anything is touched, upsert the
    /// new stake, adopt the caller's total, withdraw the old stake, and
    /// keep the pointer inside the ledger across a removal. Returns
    /// whether the upsert created a fresh entry.
    #[verifier::rlimit(100)]
    #[verifier::spinoff_prover]
    fn apply_event(
        &mut self,
        new_total: u128,
        new_stake: u128,
        new_vote: i128,
        old_stake: u128,
        old_vote: i128,
    ) -> (r: Result<bool, RebalanceError>)
        requires
            old(self).d.wf(),
            old(self).d.pointer_in_range(),
        ensures
            r is Err <==> (old_vote != -1 && old_stake != 0 && old_vote != new_vote && !has_vote(
                old(self).d.y@,
                old_vote,
            )),
            r is Err ==> *final(self) == *old(self),
            r is Ok ==> final(self).d.wf() && final(self).d.pointer_in_range(),
            r is Ok ==> final(self).d.total == new_total,
            r is Ok ==> final(self).median == old(self).median,
            r is Ok ==> final(self).d.sum_w_k == old(self).d.sum_w_k,
            r is Ok ==> ledger_step(
                old(self).d.y@,
                old(self).d.w@,
                new_stake,
                new_vote,
                old_stake,
                old_vote,
                final(self).d.y@,
                final(self).d.w@,
            ),
            r is Ok && weights_positive(old(self).d.w@) && (new_stake > 0 || has_vote(
                old(self).d.y@,
                new_vote,
            ) || (old_vote == new_vote && old_vote != -1 && old_stake > 0)) ==> weights_positive(
                final(self).d.w@,
            ),
            additive_update(*old(self), new_total, new_stake, new_vote, old_stake, old_vote) ==> r is Ok && ({
                let e0 = *old(self);
                let fs = *final(self);
                &&& fs.d.k == e0.d.k
                &&& (r->Ok_0 <==> !has_vote(e0.d.y@, new_vote))
                &&& fs.d.y@.len() > 0
                &&& sorted_strict(fs.d.y@)
                &&& weights_positive(fs.d.w@)
                &&& (forall|i: int| 0 <= i < fs.d.y@.len() ==> vote_bounded(#[trigger] fs.d.y@[i]))
                &&& (new_stake == 0 ==> fs.d.y@ == e0.d.y@ && fs.d.w@ == e0.d.w@)
                &&& sum_prefix(fs.d.w@, fs.d.y@.len() as int) == new_total
            }),
            additive_update(*old(self), new_total, new_stake, new_vote, old_stake, old_vote) && new_total
                >= 2 ==> ({
                let e0 = *old(self);
                let fs = *final(self);
                let k0 = e0.d.k as int;
                let c0 = e0.d.sum_w_k as int;
                let m0 = e0.median as int;
                let half = half_of(new_total as int);
                let lnew = fs.d.y@.len() as int;
                let bump = m0 > new_vote as int && !has_vote(e0.d.y@, new_vote) && lnew > 1;
                let kentry: int = if bump {
                    k0 + 1
                } else {
                    k0
                };
                let step_a = (lnew == 1 || new_vote as int <= m0);
                let centry: int = if step_a {
                    c0 + new_stake - old_stake
                } else {
                    c0
                };
                &&& c0 + new_stake <= u128::MAX
                &&& sum_prefix(fs.d.w@, lnew) == new_total
                &&& 0 <= kentry < lnew
                &&& (bump ==> k0 + 1 < lnew)
                &&& sum_prefix(fs.d.w@, kentry + 1) == centry
                &&& (m0 > new_vote as int ==> centry >= half)
                &&& (m0 <= new_vote as int ==> (kentry > 0 ==> sum_prefix(fs.d.w@, kentry)
                    < half))
            }),
    {
        let ghost e0 = *old(self);
        let ghost add = additive_update(*old(self), new_total, new_stake, new_vote, old_stake, old_vote);
        // a withdrawal must target a registered vote; reject it before any
        // state is touched, so a failed update is all-or-nothing
        if old_vote != -1 && old_stake != 0 && old_vote != new_vote {
            if !self.d.contains_vote(old_vote) {
                return Err(RebalanceError::MissingDecrementTarget);
            }
        }
        let (iv, added) = self.d.upsert(new_vote, new_stake);
        self.d.total = new_total;
        let ghost y1 = self.d.y@;
        let ghost w1 = self.d.w@;
        if old_vote != -1 && old_stake != 0 {
            proof {
                if old_vote == new_vote {
                    crate::ledger::lemma_vote_index_is(y1, old_vote, iv as int);
                } else {
                    let j = vote_index(e0.d.y@, old_vote);
                    if added {
                        if j < iv {
                            assert(y1[j] == e0.d.y@[j]);
                        } else {
                            assert(y1[j + 1] == e0.d.y@[j]);
                        }
                    }
                    assert(has_vote(y1, old_vote));
                }
            }
            let (idx, removed) = self.d.decrement(old_vote, old_stake);
            proof {
                if add {
                    // a same-vote withdrawal of no more than the added
                    // stake cannot empty the entry
                    let w0 = e0.d.w@;
                    let len0 = w0.len() as int;
                    crate::ledger::lemma_vote_index_is(y1, new_vote, iv as int);
                    assert(idx == iv);
                    assert(!added);
                    assert(sum_prefix(w0, iv as int + 1) == sum_prefix(w0, iv as int) + w0[iv as int]);
                    crate::ledger::lemma_sum_prefix_le(w0, 0, iv as int);
                    crate::ledger::lemma_sum_prefix_le(w0, iv as int + 1, len0);
                    assert(w0[iv as int] + new_stake <= u128::MAX);
                    assert(w1[iv as int] == w0[iv as int] + new_stake);
                    assert(sat_sub(w1[iv as int] as int, old_stake as int) > 0);
                    assert(!removed);
                }
            }
            if removed {
                if idx >= self.d.k && self.d.k > 0 {
                    self.d.k = self.d.k - 1;
                }
                // explicit range repair: a removal left of a pointer that
                // rests on the last entry would otherwise strand the
                // pointer one past the ledger
                let len_now: usize = self.d.y.len();
                if len_now == 0 {
                    self.d.k = 0;
                } else if self.d.k >= len_now {
                    self.d.k = len_now - 1;
                }
            }
        }
        proof {
            lemma_event_ledger(
                e0.d.y@,
                e0.d.w@,
                new_stake,
                new_vote,
                old_stake,
                old_vote,
                y1,
                w1,
                self.d.y@,
                self.d.w@,
            );
            if add && new_total >= 2 {
                lemma_additive_entry(
                    e0,
                    new_total,
                    new_stake,
                    new_vote,
                    old_stake,
                    old_vote,
                    iv as int,
                    added,
                    self.d.y@,
                    w1,
                    self.d.w@,
                );
            }
            if add && new_total < 2 {
                // a total this small can only arise from an empty ledger
                // gaining its first (single-unit) entry
                assert(e0.d.y@.len() == 0);
                assert(added && iv == 0);
                assert(self.d.w@[0] == new_stake);
                assert(sum_prefix(self.d.w@, 1) == sum_prefix(self.d.w@, 0) + self.d.w@[0]);
                assert forall|i: int| 0 <= i < self.d.y@.len() implies vote_bounded(
                    #[trigger] self.d.y@[i],
                ) by {}
                crate::ledger::lemma_sorted_insert(e0.d.y@, 0, new_vote);
            }
        }
        Ok(added)
    }

    /// Apply one update event: upsert the new stake behind the new vote,
    /// adopt the caller's total, withdraw the old stake from the old vote
    /// (sentinel `-1` meaning "no prior vote"), then repair the pointer and
    /// its cached cumulative sum and derive the new median.
    ///
    /// A withdrawal from an unregistered vote is rejected with no state
    /// change at all. When the new total (hence its half) is too small for
    /// a median, the cache is cleared and the median keeps its last value.
    #[verifier::rlimit(100)]
    #[verifier::spinoff_prover]
    pub fn rebalance(
        &mut self,
        new_total: u128,
        new_stake: u128,
        new_vote: i128,
        old_stake: u128,
        old_vote: i128,
    ) -> (r: Result<(), RebalanceError>)
        requires
            old(self).d.wf(),
            old(self).d.pointer_in_range(),
        ensures
            r is Err <==> (old_vote != -1 && old_stake != 0 && old_vote != new_vote && !has_vote(
                old(self).d.y@,
                old_vote,
            )),
            r is Err ==> *final(self) == *old(self),
            r is Ok ==> final(self).d.wf() && final(self).d.pointer_in_range(),
            r is Ok ==> final(self).d.total == new_total,
            r is Ok ==> ledger_step(
                old(self).d.y@,
                old(self).d.w@,
                new_stake,
                new_vote,
                old_stake,
                old_vote,
                final(self).d.y@,
                final(self).d.w@,
            ),
            r is Ok && weights_positive(old(self).d.w@) && (new_stake > 0 || has_vote(
                old(self).d.y@,
                new_vote,
            ) || (old_vote == new_vote && old_vote != -1 && old_stake > 0)) ==> weights_positive(
                final(self).d.w@,
            ),
            r is Ok && (new_total < 2 || final(self).d.y@.len() == 0) ==> final(self).d.sum_w_k
                == 0 && final(self).median == old(self).median,
            r is Ok && new_total >= 2 && final(self).d.y@.len() > 0 ==> ({
                let fs = *final(self);
                fs.median as int == (if fs.d.sum_w_k as int == half_of(new_total as int) && fs.d.k
                    + 1 < fs.d.y@.len() {
                    floor_avg(fs.d.y@[fs.d.k as int], fs.d.y@[fs.d.k as int + 1])
                } else {
                    fs.d.y@[fs.d.k as int] as int
                })
            }),
            additive_update(*old(self), new_total, new_stake, new_vote, old_stake, old_vote) ==> r is Ok
                && engine_inv(*final(self)),
            additive_update(*old(self), new_total, new_stake, new_vote, old_stake, old_vote) && new_stake
                == 0 ==> final(self).d.y@ == old(self).d.y@ && final(self).d.w@ == old(self).d.w@
                && final(self).d.k == old(self).d.k && final(self).d.sum_w_k
                == old(self).d.sum_w_k && final(self).d.total == old(self).d.total && final(self).median == old(self).median,
    {
        let ghost e0 = *old(self);
        let ghost add = additive_update(*old(self), new_total, new_stake, new_vote, old_stake, old_vote);
        let added: bool;
        match self.apply_event(new_total, new_stake, new_vote, old_stake, old_vote) {
            Ok(b) => {
                added = b;
            },
            Err(e) => {
                return Err(e);
            },
        }
        let prev_median: i128 = self.median;
        let half: u128 = new_total / 2;
        let len: usize = self.d.y.len();
        let ghost y2 = self.d.y@;
        let ghost w2 = self.d.w@;
        if new_total != 0 && half != 0 && len > 0 {
            if len == 1 || new_vote <= prev_median {
                self.d.sum_w_k = self.d.sum_w_k.saturating_add(new_stake);
            }
            if old_vote <= prev_median {
                self.d.sum_w_k = self.d.sum_w_k.saturating_sub(old_stake);
            }
            proof {
                if add {
                    vstd::arithmetic::div_mod::lemma_fundamental_div_mod(new_total as int, 2);
                    assert(new_total >= 2);
                    if old_stake != 0 && len == 1 {
                        // the single entry is the pointer entry, whose vote
                        // is the previous median, and it carries the old vote
                        assert(e0.d.y@.len() == 1);
                        assert(e0.d.k == 0);
                        assert(e0.median as int == e0.d.y@[0] as int);
                        assert(new_vote as int <= e0.median as int);
                    }
                    assert(self.d.sum_w_k as int == (if len == 1 || new_vote as int
                        <= e0.median as int {
                        e0.d.sum_w_k as int + new_stake as int - old_stake as int
                    } else {
                        e0.d.sum_w_k as int
                    }));
                }
            }
            if prev_median > new_vote {
                if added && len > 1 && self.d.k + 1 < len {
                    self.d.k = self.d.k + 1;
                }
                proof {
                    if add {
                        assert(self.d.sum_w_k as int == sum_prefix(w2, self.d.k + 1));
                        assert(self.d.sum_w_k as int >= half as int);
                    }
                }
                shrink_pointer(&mut self.d, half, Ghost(add));
            } else {
                proof {
                    if add {
                        assert(self.d.sum_w_k as int == sum_prefix(w2, self.d.k + 1));
                        assert(self.d.k > 0 ==> sum_prefix(w2, self.d.k as int) < half as int);
                    }
                }
                grow_pointer(&mut self.d, half, len, Ghost(add));
            }
            let mut med: i128 = self.d.y[self.d.k];
            if self.d.sum_w_k == half && self.d.k + 1 < len {
                let nxt: i128 = self.d.y[self.d.k + 1];
                med = floor_half_vote(saturating_add_votes(med, nxt));
            }
            self.median = med;
            proof {
                if add {
                    lemma_additive_exit(e0, new_total, new_stake, new_vote, old_stake, old_vote, *self);
                }
            }
        } else {
            self.d.sum_w_k = 0;
            proof {
                if add {
                    assert(new_total < 2) by {
                        if new_total >= 2 {
                            vstd::arithmetic::div_mod::lemma_fundamental_div_mod(
                                new_total as int,
                                2,
                            );
                        }
                    }
                }
            }
        }
        Ok(())
    }
}

} // verus!
