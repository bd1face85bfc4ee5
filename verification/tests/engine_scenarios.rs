use sputnik_median::engine::recompute_median;
use sputnik_median::engine::MedianEngine;
use sputnik_median::engine::RebalanceError;

#[test]
fn first_vote() {
    let mut e = MedianEngine::new();
    assert_eq!(e.median, -1);
    assert_eq!(e.d.total, 0);
    let r = e.rebalance(100, 100, 5, 0, -1);
    assert_eq!(r, Ok(()));
    assert_eq!(e.d.y, vec![5i128]);
    assert_eq!(e.d.w, vec![100u128]);
    assert_eq!(e.d.total, 100);
    assert_eq!(e.median, 5);
    assert_eq!(recompute_median(&e.d), Some(5));
}

#[test]
fn second_vote_exact_split() {
    let mut e = MedianEngine::new();
    assert_eq!(e.rebalance(100, 100, 5, 0, -1), Ok(()));
    assert_eq!(e.rebalance(200, 100, 10, 0, -1), Ok(()));
    assert_eq!(e.d.y, vec![5i128, 10]);
    assert_eq!(e.d.w, vec![100u128, 100]);
    assert_eq!(e.d.k, 0);
    assert_eq!(e.d.sum_w_k, 100);
    // half = 100 is reached exactly at k = 0: floor((5 + 10) / 2) = 7
    assert_eq!(e.median, 7);
    assert_eq!(recompute_median(&e.d), Some(7));
}

#[test]
fn moved_weight_matches_full_recomputation() {
    let mut e = MedianEngine::new();
    assert_eq!(e.rebalance(100, 100, 5, 0, -1), Ok(()));
    assert_eq!(e.rebalance(200, 100, 10, 0, -1), Ok(()));
    // a participant moves 50 weight from vote 5 to vote 8
    assert_eq!(e.rebalance(200, 50, 8, 50, 5), Ok(()));
    assert_eq!(e.d.y, vec![5i128, 8, 10]);
    assert_eq!(e.d.w, vec![50u128, 50, 100]);
    assert_eq!(e.d.total, 200);
    // the incrementally derived median equals the independent recomputation
    assert_eq!(e.median, 9);
    assert_eq!(recompute_median(&e.d), Some(9));
}

#[test]
fn degenerate_after_full_withdrawal() {
    let mut e = MedianEngine::new();
    assert_eq!(e.rebalance(100, 100, 5, 0, -1), Ok(()));
    assert_eq!(e.rebalance(200, 100, 10, 0, -1), Ok(()));
    assert_eq!(e.rebalance(200, 50, 8, 50, 5), Ok(()));
    assert_eq!(e.rebalance(150, 0, 5, 50, 5), Ok(()));
    assert_eq!(e.d.y, vec![8i128, 10]);
    assert_eq!(e.median, 10);
    assert_eq!(e.rebalance(100, 0, 8, 50, 8), Ok(()));
    assert_eq!(e.d.y, vec![10i128]);
    assert_eq!(e.median, 10);
    // all weight withdrawn: total drops to zero, the cache is cleared, and
    // the median keeps its last defined value
    assert_eq!(e.rebalance(0, 0, 10, 100, 10), Ok(()));
    assert_eq!(e.d.y, Vec::<i128>::new());
    assert_eq!(e.d.w, Vec::<u128>::new());
    assert_eq!(e.d.total, 0);
    assert_eq!(e.d.sum_w_k, 0);
    assert_eq!(e.median, 10);
    assert_eq!(recompute_median(&e.d), None);
}

#[test]
fn zero_delta_same_vote_changes_nothing() {
    let mut e = MedianEngine::new();
    assert_eq!(e.rebalance(100, 100, 5, 0, -1), Ok(()));
    assert_eq!(e.rebalance(200, 100, 10, 0, -1), Ok(()));
    let y_before = e.d.y.clone();
    let w_before = e.d.w.clone();
    let (k, c, t, m) = (e.d.k, e.d.sum_w_k, e.d.total, e.median);
    assert_eq!(e.rebalance(200, 0, 10, 0, 10), Ok(()));
    assert_eq!(e.d.y, y_before);
    assert_eq!(e.d.w, w_before);
    assert_eq!(e.d.k, k);
    assert_eq!(e.d.sum_w_k, c);
    assert_eq!(e.d.total, t);
    assert_eq!(e.median, m);
    // the same for a vote left of the split median
    assert_eq!(e.rebalance(200, 0, 5, 0, 5), Ok(()));
    assert_eq!(e.d.y, y_before);
    assert_eq!(e.d.w, w_before);
    assert_eq!(e.median, m);
}

#[test]
fn withdrawing_unregistered_vote_is_rejected_without_change() {
    let mut e = MedianEngine::new();
    assert_eq!(e.rebalance(100, 100, 5, 0, -1), Ok(()));
    assert_eq!(e.rebalance(200, 100, 10, 0, -1), Ok(()));
    let y_before = e.d.y.clone();
    let w_before = e.d.w.clone();
    let r = e.rebalance(210, 10, 12, 5, 3);
    assert_eq!(r, Err(RebalanceError::MissingDecrementTarget));
    assert_eq!(e.d.y, y_before);
    assert_eq!(e.d.w, w_before);
    assert_eq!(e.d.total, 200);
    assert_eq!(e.median, 7);
}

#[test]
fn growing_stake_on_an_existing_vote_moves_the_median() {
    let mut e = MedianEngine::new();
    assert_eq!(e.rebalance(100, 100, 5, 0, -1), Ok(()));
    assert_eq!(e.rebalance(200, 100, 10, 0, -1), Ok(()));
    assert_eq!(e.median, 7);
    // the participant behind vote 10 raises its stake from 100 to 200
    assert_eq!(e.rebalance(300, 200, 10, 100, 10), Ok(()));
    assert_eq!(e.d.y, vec![5i128, 10]);
    assert_eq!(e.d.w, vec![100u128, 200]);
    assert_eq!(e.median, 10);
    assert_eq!(recompute_median(&e.d), Some(10));
}

#[test]
fn exact_split_of_negative_votes_rounds_down() {
    let mut e = MedianEngine::new();
    assert_eq!(e.rebalance(10, 10, -9, 0, -1), Ok(()));
    assert_eq!(e.median, -9);
    assert_eq!(e.rebalance(20, 10, -2, 0, -1), Ok(()));
    // floor((-9 + -2) / 2) = -6, rounding toward negative infinity
    assert_eq!(e.median, -6);
    assert_eq!(recompute_median(&e.d), Some(-6));
}

#[test]
fn long_additive_walk_matches_full_recomputation() {
    // a deterministic pseudo-random walk of first votes and same-vote
    // stake raises; after every step the incrementally maintained median
    // must equal the one recomputed from scratch
    let mut e = MedianEngine::new();
    let mut votes: Vec<Option<i128>> = vec![None; 10];
    let mut stakes: Vec<u128> = vec![0; 10];
    let mut total: u128 = 0;
    let mut seed: u64 = 0x2545_F491_4F6C_DD1D;
    let mut next = move || {
        seed = seed.wrapping_mul(6364136223846793005).wrapping_add(1442695040888963407);
        (seed >> 33) as u128
    };
    for _ in 0..300 {
        let p = (next() % 10) as usize;
        match votes[p] {
            None => {
                let mut v: i128 = (next() % 21) as i128 - 10;
                // a fresh vote equal to the current median would fall
                // outside the event class the engine is exact for
                while v == e.median && !e.d.y.contains(&v) {
                    v += 1;
                }
                let s: u128 = 1 + next() % 50;
                total += s;
                stakes[p] = s;
                votes[p] = Some(v);
                assert_eq!(e.rebalance(total, s, v, 0, -1), Ok(()));
            },
            Some(v) => {
                let delta: u128 = next() % 30;
                let old = stakes[p];
                let new = old + delta;
                total += delta;
                stakes[p] = new;
                assert_eq!(e.rebalance(total, new, v, old, v), Ok(()));
            },
        }
        assert_eq!(e.d.total, total);
        if total >= 2 {
            assert_eq!(recompute_median(&e.d), Some(e.median));
        }
    }
}

#[test]
fn single_unit_total_leaves_median_undefined() {
    let mut e = MedianEngine::new();
    // half of 1 is 0: no median is derivable yet
    assert_eq!(e.rebalance(1, 1, 4, 0, -1), Ok(()));
    assert_eq!(e.d.y, vec![4i128]);
    assert_eq!(e.d.sum_w_k, 0);
    assert_eq!(e.median, -1);
    assert_eq!(recompute_median(&e.d), None);
    // more stake arrives and the median becomes defined
    assert_eq!(e.rebalance(3, 2, 4, 0, -1), Ok(()));
    assert_eq!(e.median, 4);
    assert_eq!(recompute_median(&e.d), Some(4));
}
