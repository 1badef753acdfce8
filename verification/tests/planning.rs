//! Tests for range planning, wave grouping and boundary search.

use ledger_scan::boundary::find_earliest;
use ledger_scan::aggregate::{FetchOutcome, UnitRecord};
use ledger_scan::executor::{fetch_all, plan_waves, FailurePolicy};
use ledger_scan::range::{plan, plan_descending, Range};

#[test]
fn plan_splits_exactly() {
    let chunks = plan(Range::new(0, 250), 100);
    assert_eq!(chunks.len(), 3);
    assert_eq!(chunks[0], Range { start: 0, end: 100 });
    assert_eq!(chunks[1], Range { start: 100, end: 200 });
    assert_eq!(chunks[2], Range { start: 200, end: 250 });
}

#[test]
fn plan_empty_range_yields_no_chunks() {
    let range = Range::new(42, 42);
    assert!(range.is_empty());
    let chunks = plan(range, 100);
    assert!(chunks.is_empty());
    assert!(!Range::new(42, 43).is_empty());
}

#[test]
fn plan_exact_multiple_has_full_chunks_only() {
    let chunks = plan(Range::new(10, 40), 10);
    assert_eq!(chunks.len(), 3);
    for (i, c) in chunks.iter().enumerate() {
        assert_eq!(c.start, 10 + 10 * i as u64);
        assert_eq!(c.end, c.start + 10);
    }
}

#[test]
fn plan_batch_of_one() {
    let chunks = plan(Range::new(5, 9), 1);
    assert_eq!(chunks.len(), 4);
    for (i, c) in chunks.iter().enumerate() {
        assert_eq!(c.start, 5 + i as u64);
        assert_eq!(c.end, c.start + 1);
    }
}

#[test]
fn plan_chunks_partition_range() {
    // Pairwise disjoint, gap-free, and union exactly the input range.
    for (s, e, b) in [(0u64, 250u64, 100u64), (7, 7, 3), (1, 1000, 7), (90, 110, 64)] {
        let chunks = plan(Range::new(s, e), b);
        let mut pos = s;
        for c in &chunks {
            assert_eq!(c.start, pos, "chunks must leave no gap and not overlap");
            assert!(c.end > c.start && c.end - c.start <= b);
            pos = c.end;
        }
        assert_eq!(pos, e, "chunks must cover the range exactly");
    }
}

#[test]
fn plan_descending_is_pure_inversion() {
    let up = plan(Range::new(0, 250), 100);
    let down = plan_descending(Range::new(0, 250), 100);
    let mut reversed = up.clone();
    reversed.reverse();
    assert_eq!(down, reversed);
    assert_eq!(down[0], Range { start: 200, end: 250 });
}

#[test]
fn waves_respect_concurrency_ceiling() {
    let chunks = plan(Range::new(0, 2_600), 100);
    assert_eq!(chunks.len(), 26);
    let waves = plan_waves(&chunks, 8);
    assert_eq!(waves.len(), 4);
    for w in &waves {
        assert!(w.len() <= 8, "no wave may exceed the concurrency ceiling");
        assert!(!w.is_empty());
    }
    assert_eq!(waves[3].len(), 2);
    let flat: Vec<Range> = waves.into_iter().flatten().collect();
    assert_eq!(flat, chunks, "waves must concatenate back to the input");
}

#[test]
fn waves_of_empty_input() {
    let waves = plan_waves(&Vec::new(), 5);
    assert!(waves.is_empty());
}

#[test]
fn fetch_all_outcomes_are_index_aligned() {
    let chunks = plan(Range::new(0, 50), 20);
    let outcomes = fetch_all(&chunks, &|c: Range| {
        if c.start == 20 {
            FetchOutcome::Failed(String::from("timeout"))
        } else {
            FetchOutcome::Records(vec![UnitRecord { transactions: c.end - c.start, messages: 0 }])
        }
    });
    assert_eq!(outcomes.len(), 3);
    match &outcomes[0] {
        FetchOutcome::Records(v) => assert_eq!(v[0].transactions, 20),
        _ => panic!("chunk 0 must succeed"),
    }
    match &outcomes[1] {
        FetchOutcome::Failed(r) => assert_eq!(r, "timeout"),
        _ => panic!("chunk 1 must fail"),
    }
    match &outcomes[2] {
        FetchOutcome::Records(v) => assert_eq!(v[0].transactions, 10),
        _ => panic!("chunk 2 must succeed"),
    }
}

#[test]
fn failure_policy_is_explicit() {
    assert!(FailurePolicy::RetryUntilSuccess.retries());
    assert!(!FailurePolicy::SkipAndCount.retries());
}

#[test]
fn find_earliest_returns_threshold() {
    let t = 5_678u64;
    let r = find_earliest(&|id: u64| id >= t, 0, 10_000);
    assert_eq!(r, t);
}

#[test]
fn find_earliest_whole_range_exists() {
    let r = find_earliest(&|_id: u64| true, 17, 400);
    assert_eq!(r, 17, "when the entire range exists the lower bound is returned");
}

#[test]
fn find_earliest_nothing_exists() {
    let r = find_earliest(&|_id: u64| false, 17, 400);
    assert_eq!(r, 400, "when nothing exists the sentinel upper bound is returned");
}

#[test]
fn find_earliest_empty_interval() {
    let r = find_earliest(&|_id: u64| true, 9, 9);
    assert_eq!(r, 9);
}

#[test]
fn find_earliest_synthetic_thresholds() {
    // Pseudo-random thresholds over [0, 10000], fixed seed.
    let mut state = 0x2545_f491_4f6c_dd1du64;
    for _ in 0..200 {
        state ^= state << 13;
        state ^= state >> 7;
        state ^= state << 17;
        let t = state % 10_001;
        let r = find_earliest(&|id: u64| id >= t, 0, 10_000);
        if t < 10_000 {
            assert_eq!(r, t);
        } else {
            assert_eq!(r, 10_000);
        }
    }
}
