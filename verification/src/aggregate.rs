//! Aggregation of per-chunk fetch results into process-wide counters under a
//! single point of mutation, with totals independent of completion order.

use vstd::prelude::*;
use vstd::seq_lib::{commutative_foldr, lemma_fold_right_permutation};

verus! {

/// Counts extracted from one decoded ledger unit by the external decoder:
/// how many transactions the unit carried and how many messages those
/// transactions held in all.
#[derive(Clone, Copy, PartialEq, Eq, Structural, Debug)]
pub struct UnitRecord {
    pub transactions: u64,
    pub messages: u64,
}

/// The result of fetching one chunk. A chunk fetch is atomic: it either
/// yields the decoded records of every unit it covered, or it failed as a
/// whole, with a reason. There is no partial-success shape.
pub enum FetchOutcome {
    /// The chunk was fetched and decoded; one record per ledger unit.
    Records(Vec<UnitRecord>),
    /// The chunk fetch failed; under the skip-and-count policy it
    /// contributes nothing to the totals.
    Failed(String),
}

/// Process-wide totals of a scan, monotonically increasing, mutated only by
/// [`RecordAggregator`].
#[derive(Clone, Copy, PartialEq, Eq, Structural, Debug)]
pub struct Counters {
    pub units: u64,
    pub transactions: u64,
    pub messages: u64,
}

/// Mathematical totals, used to state what folding contributes.
pub struct Totals {
    pub units: int,
    pub transactions: int,
    pub messages: int,
}

/// Sum of the transaction counts of a sequence of unit records.
pub open spec fn seq_transactions(s: Seq<UnitRecord>) -> int
    decreases s.len(),
{
    if s.len() == 0 {
        0
    } else {
        seq_transactions(s.drop_last()) + s.last().transactions
    }
}

/// Sum of the message counts of a sequence of unit records.
pub open spec fn seq_messages(s: Seq<UnitRecord>) -> int
    decreases s.len(),
{
    if s.len() == 0 {
        0
    } else {
        seq_messages(s.drop_last()) + s.last().messages
    }
}

/// What one outcome contributes to the totals: a failed fetch contributes
/// nothing.
pub open spec fn outcome_totals(o: FetchOutcome) -> Totals {
    match o {
        FetchOutcome::Records(v) => Totals {
            units: v@.len() as int,
            transactions: seq_transactions(v@),
            messages: seq_messages(v@),
        },
        FetchOutcome::Failed(_) => Totals { units: 0, transactions: 0, messages: 0 },
    }
}

/// Componentwise addition of totals.
pub open spec fn totals_add(a: Totals, b: Totals) -> Totals {
    Totals {
        units: a.units + b.units,
        transactions: a.transactions + b.transactions,
        messages: a.messages + b.messages,
    }
}

/// The totals of no outcomes at all.
pub open spec fn totals_zero() -> Totals {
    Totals { units: 0, transactions: 0, messages: 0 }
}

/// The fold step: add one outcome's contribution to an accumulator.
pub open spec fn totals_fn() -> spec_fn(FetchOutcome, Totals) -> Totals {
    |o: FetchOutcome, acc: Totals| totals_add(acc, outcome_totals(o))
}

/// The combined totals of a sequence of outcomes.
pub open spec fn seq_totals(s: Seq<FetchOutcome>) -> Totals {
    s.fold_right(totals_fn(), totals_zero())
}

/// Folding from any accumulator just shifts the result by that accumulator.
proof fn lemma_fold_right_offset(s: Seq<FetchOutcome>, acc: Totals)
    ensures
        s.fold_right(totals_fn(), acc) == totals_add(seq_totals(s), acc),
    decreases s.len(),
{
    if s.len() == 0 {
    } else {
        lemma_fold_right_offset(s.drop_last(), totals_fn()(s.last(), acc));
        lemma_fold_right_offset(s.drop_last(), totals_fn()(s.last(), totals_zero()));
    }
}

/// Appending one outcome adds exactly its contribution.
pub proof fn lemma_seq_totals_push(s: Seq<FetchOutcome>, o: FetchOutcome)
    ensures
        seq_totals(s.push(o)) == totals_add(seq_totals(s), outcome_totals(o)),
{
    assert(s.push(o).drop_last() =~= s);
    assert(s.push(o).last() == o);
    lemma_fold_right_offset(s, totals_fn()(o, totals_zero()));
}

/// Every component of a sequence's totals is non-negative.
pub proof fn lemma_seq_totals_nonneg(s: Seq<FetchOutcome>)
    ensures
        seq_totals(s).units >= 0,
        seq_totals(s).transactions >= 0,
        seq_totals(s).messages >= 0,
    decreases s.len(),
{
    if s.len() == 0 {
    } else {
        lemma_seq_totals_nonneg(s.drop_last());
        lemma_seq_totals_push(s.drop_last(), s.last());
        assert(s.drop_last().push(s.last()) =~= s);
        lemma_unit_sums_nonneg_of(s.last());
    }
}

/// Every component of one outcome's contribution is non-negative.
proof fn lemma_unit_sums_nonneg_of(o: FetchOutcome)
    ensures
        outcome_totals(o).units >= 0,
        outcome_totals(o).transactions >= 0,
        outcome_totals(o).messages >= 0,
{
    match o {
        FetchOutcome::Records(v) => {
            lemma_unit_sums_nonneg(v@);
        },
        FetchOutcome::Failed(_) => {},
    }
}

/// The per-unit sums of a record sequence are non-negative.
proof fn lemma_unit_sums_nonneg(s: Seq<UnitRecord>)
    ensures
        seq_transactions(s) >= 0,
        seq_messages(s) >= 0,
    decreases s.len(),
{
    if s.len() > 0 {
        lemma_unit_sums_nonneg(s.drop_last());
    }
}

/// One step of a prefix of unit records: taking one more record adds its
/// counts.
proof fn lemma_unit_sums_take_step(s: Seq<UnitRecord>, i: int)
    requires
        0 <= i < s.len(),
    ensures
        seq_transactions(s.take(i + 1)) == seq_transactions(s.take(i)) + s[i].transactions,
        seq_messages(s.take(i + 1)) == seq_messages(s.take(i)) + s[i].messages,
{
    assert(s.take(i + 1).drop_last() =~= s.take(i));
    assert(s.take(i + 1).last() == s[i]);
}

/// The sums of a prefix of unit records never exceed the sums of the whole.
proof fn lemma_unit_sums_prefix_le(s: Seq<UnitRecord>, i: int)
    requires
        0 <= i <= s.len(),
    ensures
        seq_transactions(s.take(i)) <= seq_transactions(s),
        seq_messages(s.take(i)) <= seq_messages(s),
    decreases s.len() - i,
{
    if i == s.len() {
        assert(s.take(i) =~= s);
    } else {
        lemma_unit_sums_take_step(s, i);
        lemma_unit_sums_prefix_le(s, i + 1);
    }
}

/// One step of a prefix of outcomes: taking one more outcome adds its
/// contribution.
pub proof fn lemma_seq_totals_take_step(s: Seq<FetchOutcome>, i: int)
    requires
        0 <= i < s.len(),
    ensures
        seq_totals(s.take(i + 1)) == totals_add(seq_totals(s.take(i)), outcome_totals(s[i])),
{
    assert(s.take(i + 1) =~= s.take(i).push(s[i]));
    lemma_seq_totals_push(s.take(i), s[i]);
}

/// The totals of a prefix of outcomes never exceed the totals of the whole.
pub proof fn lemma_seq_totals_prefix_le(s: Seq<FetchOutcome>, i: int)
    requires
        0 <= i <= s.len(),
    ensures
        seq_totals(s.take(i)).units <= seq_totals(s).units,
        seq_totals(s.take(i)).transactions <= seq_totals(s).transactions,
        seq_totals(s.take(i)).messages <= seq_totals(s).messages,
    decreases s.len() - i,
{
    if i == s.len() {
        assert(s.take(i) =~= s);
    } else {
        lemma_seq_totals_take_step(s, i);
        lemma_unit_sums_nonneg_of(s[i]);
        lemma_seq_totals_prefix_le(s, i + 1);
    }
}

/// Law: the totals of a fixed set of outcomes do not depend on the order in
/// which the outcomes are folded. Any two orderings of the same outcomes,
/// that is, any two sequences holding the same multiset, give identical
/// totals: folding is commutative and associative over disjoint chunk
/// contributions.
pub proof fn lemma_totals_order_independent(s1: Seq<FetchOutcome>, s2: Seq<FetchOutcome>)
    requires
        s1.to_multiset() == s2.to_multiset(),
    ensures
        seq_totals(s1) == seq_totals(s2),
{
    assert(commutative_foldr(totals_fn()));
    lemma_fold_right_permutation(s1, s2, totals_fn(), totals_zero());
}

/// The single owner of the scan's counters: all mutation goes through
/// [`RecordAggregator::fold`], so concurrent completion order can only
/// change the order of fold calls, never the final totals (see
/// [`lemma_totals_order_independent`]). The caller must fold each chunk's
/// outcome exactly once.
pub struct RecordAggregator {
    counters: Counters,
}

impl RecordAggregator {
    /// The current totals, as this aggregator's model.
    pub closed spec fn counters(self) -> Counters {
        self.counters
    }

    /// A fresh aggregator with all counters at zero.
    pub fn new() -> (r: RecordAggregator)
        ensures
            r.counters() == (Counters { units: 0, transactions: 0, messages: 0 }),
    {
        RecordAggregator { counters: Counters { units: 0, transactions: 0, messages: 0 } }
    }

    /// Read the current totals.
    pub fn totals(&self) -> (r: Counters)
        ensures
            r == self.counters(),
    {
        self.counters
    }

    /// Fold one chunk's outcome into the totals: a decoded chunk adds its
    /// unit count and the per-unit transaction and message counts; a failed
    /// chunk adds nothing. The counters only ever grow.
    pub fn fold(&mut self, outcome: &FetchOutcome)
        requires
            old(self).counters().units + outcome_totals(*outcome).units <= u64::MAX,
            old(self).counters().transactions + outcome_totals(*outcome).transactions
                <= u64::MAX,
            old(self).counters().messages + outcome_totals(*outcome).messages <= u64::MAX,
        ensures
            final(self).counters().units == old(self).counters().units + outcome_totals(
                *outcome,
            ).units,
            final(self).counters().transactions == old(self).counters().transactions
                + outcome_totals(*outcome).transactions,
            final(self).counters().messages == old(self).counters().messages + outcome_totals(
                *outcome,
            ).messages,
    {
        match outcome {
            FetchOutcome::Records(v) => {
                let n = v.len();
                let mut tx: u64 = 0;
                let mut ms: u64 = 0;
                let mut i: usize = 0;
                proof {
                    lemma_unit_sums_nonneg(v@);
                    assert(v@.take(0) =~= Seq::<UnitRecord>::empty());
                }
                while i < n
                    invariant
                        n == v@.len(),
                        0 <= i <= n,
                        tx == seq_transactions(v@.take(i as int)),
                        ms == seq_messages(v@.take(i as int)),
                        seq_transactions(v@) <= u64::MAX,
                        seq_messages(v@) <= u64::MAX,
                    decreases n - i,
                {
                    proof {
                        lemma_unit_sums_take_step(v@, i as int);
                        lemma_unit_sums_prefix_le(v@, i as int + 1);
                        lemma_unit_sums_nonneg(v@.take(i as int));
                    }
                    tx = tx + v[i].transactions;
                    ms = ms + v[i].messages;
                    i = i + 1;
                }
                proof {
                    assert(v@.take(n as int) =~= v@);
                }
                self.counters.units = self.counters.units + n as u64;
                self.counters.transactions = self.counters.transactions + tx;
                self.counters.messages = self.counters.messages + ms;
            },
            FetchOutcome::Failed(_) => {},
        }
    }

    /// Fold a whole sequence of outcomes, in the order given. By
    /// [`lemma_totals_order_independent`], any reordering of the same
    /// outcomes ends at the same counters.
    pub fn fold_all(&mut self, outcomes: &Vec<FetchOutcome>)
        requires
            old(self).counters().units + seq_totals(outcomes@).units <= u64::MAX,
            old(self).counters().transactions + seq_totals(outcomes@).transactions <= u64::MAX,
            old(self).counters().messages + seq_totals(outcomes@).messages <= u64::MAX,
        ensures
            final(self).counters().units == old(self).counters().units + seq_totals(
                outcomes@,
            ).units,
            final(self).counters().transactions == old(self).counters().transactions + seq_totals(
                outcomes@,
            ).transactions,
            final(self).counters().messages == old(self).counters().messages + seq_totals(
                outcomes@,
            ).messages,
    {
        let n = outcomes.len();
        let mut i: usize = 0;
        proof {
            assert(outcomes@.take(0) =~= Seq::<FetchOutcome>::empty());
            lemma_seq_totals_nonneg(outcomes@);
        }
        while i < n
            invariant
                n == outcomes@.len(),
                0 <= i <= n,
                old(self).counters().units + seq_totals(outcomes@).units <= u64::MAX,
                old(self).counters().transactions + seq_totals(outcomes@).transactions
                    <= u64::MAX,
                old(self).counters().messages + seq_totals(outcomes@).messages <= u64::MAX,
                self.counters().units == old(self).counters().units + seq_totals(
                    outcomes@.take(i as int),
                ).units,
                self.counters().transactions == old(self).counters().transactions + seq_totals(
                    outcomes@.take(i as int),
                ).transactions,
                self.counters().messages == old(self).counters().messages + seq_totals(
                    outcomes@.take(i as int),
                ).messages,
            decreases n - i,
        {
            proof {
                lemma_seq_totals_take_step(outcomes@, i as int);
                lemma_seq_totals_prefix_le(outcomes@, i as int + 1);
                lemma_seq_totals_nonneg(outcomes@.take(i as int));
                lemma_unit_sums_nonneg_of(outcomes@[i as int]);
            }
            self.fold(&outcomes[i]);
            i = i + 1;
        }
        proof {
            assert(outcomes@.take(n as int) =~= outcomes@);
        }
    }
}

} // verus!
