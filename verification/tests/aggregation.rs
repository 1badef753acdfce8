//! Tests for the record aggregator: exact totals, skip-on-failure, and
//! independence from completion order.

use ledger_scan::aggregate::{Counters, FetchOutcome, RecordAggregator, UnitRecord};
use ledger_scan::executor::fetch_all;
use ledger_scan::range::{plan, Range};
use std::cell::Cell;

fn unit(transactions: u64, messages: u64) -> UnitRecord {
    UnitRecord { transactions, messages }
}

fn three_outcomes() -> Vec<FetchOutcome> {
    vec![
        FetchOutcome::Records(vec![unit(2, 5), unit(0, 0), unit(1, 3)]),
        FetchOutcome::Records(vec![unit(4, 4)]),
        FetchOutcome::Records(vec![unit(1, 9), unit(2, 2)]),
    ]
}

#[test]
fn fold_adds_exact_counts() {
    let mut agg = RecordAggregator::new();
    agg.fold(&FetchOutcome::Records(vec![unit(2, 5), unit(1, 3)]));
    let t = agg.totals();
    assert_eq!(t, Counters { units: 2, transactions: 3, messages: 8 });
}

#[test]
fn failed_fetch_contributes_nothing() {
    let mut agg = RecordAggregator::new();
    agg.fold(&FetchOutcome::Records(vec![unit(7, 7)]));
    agg.fold(&FetchOutcome::Failed(String::from("connection reset")));
    let t = agg.totals();
    assert_eq!(t, Counters { units: 1, transactions: 7, messages: 7 });
}

#[test]
fn empty_records_count_only_units() {
    let mut agg = RecordAggregator::new();
    agg.fold(&FetchOutcome::Records(Vec::new()));
    assert_eq!(agg.totals(), Counters { units: 0, transactions: 0, messages: 0 });
}

#[test]
fn totals_independent_of_fold_order() {
    // Fold the same outcomes in every rotation and in reverse: the final
    // counters are identical.
    let mut reference: Option<Counters> = None;
    for rotation in 0..3 {
        let mut outcomes = three_outcomes();
        outcomes.rotate_left(rotation);
        let mut agg = RecordAggregator::new();
        agg.fold_all(&outcomes);
        match reference {
            None => reference = Some(agg.totals()),
            Some(c) => assert_eq!(agg.totals(), c),
        }
    }
    let mut outcomes = three_outcomes();
    outcomes.reverse();
    let mut agg = RecordAggregator::new();
    agg.fold_all(&outcomes);
    assert_eq!(Some(agg.totals()), reference);
    assert_eq!(reference, Some(Counters { units: 6, transactions: 10, messages: 23 }));
}

#[test]
fn end_to_end_scan_of_small_range() {
    // Scanning [0, 250) with batch size 100 yields three chunks, hence three
    // fetch calls; folding the three outcomes in any completion order gives
    // the summed counters.
    let chunks = plan(Range::new(0, 250), 100);
    assert_eq!(chunks.len(), 3);
    let calls = Cell::new(0u32);
    let per_chunk = fetch_all(&chunks, &|c: Range| {
        calls.set(calls.get() + 1);
        let per_unit = match c.start {
            0 => unit(3, 6),
            100 => unit(1, 1),
            _ => unit(2, 4),
        };
        FetchOutcome::Records(vec![per_unit; (c.end - c.start) as usize])
    });
    assert_eq!(calls.get(), 3, "one fetch call per chunk");
    let expected = Counters { units: 250, transactions: 300 + 100 + 100, messages: 600 + 100
        + 200 };
    // In-order completion.
    let mut agg = RecordAggregator::new();
    agg.fold_all(&per_chunk);
    assert_eq!(agg.totals(), expected);
    // Out-of-order completion.
    let mut shuffled = per_chunk;
    shuffled.swap(0, 2);
    shuffled.swap(1, 2);
    let mut agg2 = RecordAggregator::new();
    agg2.fold_all(&shuffled);
    assert_eq!(agg2.totals(), expected);
}
