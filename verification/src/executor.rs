//! Bounded execution planning: group chunks into waves with a fixed
//! concurrency ceiling, and make the failure policy of a call site an
//! explicit configuration.

use crate::aggregate::FetchOutcome;
use crate::range::Chunk;
use vstd::prelude::*;

verus! {

/// What to do when a fetch fails, chosen explicitly per call site rather
/// than buried in control flow. Critical setup queries retry until they
/// succeed; bulk data chunks are skipped by default, so their loss is an
/// intentional policy, visible as missing counts, never an accident.
#[derive(Clone, Copy, PartialEq, Eq, Structural, Debug)]
pub enum FailurePolicy {
    /// Attempt the operation again, indefinitely, until it succeeds.
    RetryUntilSuccess,
    /// Drop the failed unit; it contributes nothing to the totals.
    SkipAndCount,
}

impl FailurePolicy {
    /// Whether a failed operation is to be attempted again under this
    /// policy.
    pub fn retries(&self) -> (r: bool)
        ensures
            r <==> *self is RetryUntilSuccess,
    {
        matches!(self, FailurePolicy::RetryUntilSuccess)
    }
}

/// Run a fetch operation over every chunk of a sequence, producing one
/// outcome per chunk, index-aligned: outcome `i` is a result the operation
/// can return for chunk `i`. A deployment issues the calls of one wave
/// concurrently and awaits the wave before the next; the chunk-outcome
/// correspondence is the same either way, and the folded totals do not
/// depend on completion order (see
/// [`crate::aggregate::lemma_totals_order_independent`]).
pub fn fetch_all<F: Fn(Chunk) -> FetchOutcome>(chunks: &Vec<Chunk>, fetch: &F) -> (outcomes: Vec<
    FetchOutcome,
>)
    requires
        forall|i: int| 0 <= i < chunks@.len() ==> call_requires(*fetch, (chunks@[i],)),
    ensures
        outcomes@.len() == chunks@.len(),
        forall|i: int|
            0 <= i < chunks@.len() ==> call_ensures(*fetch, (chunks@[i],), #[trigger] outcomes@[i]),
{
    let mut outcomes: Vec<FetchOutcome> = Vec::new();
    let n = chunks.len();
    let mut i: usize = 0;
    while i < n
        invariant
            n == chunks@.len(),
            0 <= i <= n,
            outcomes@.len() == i,
            forall|k: int| 0 <= k < n ==> call_requires(*fetch, (chunks@[k],)),
            forall|k: int|
                0 <= k < i ==> call_ensures(*fetch, (chunks@[k],), #[trigger] outcomes@[k]),
        decreases n - i,
    {
        outcomes.push(fetch(chunks[i]));
        i = i + 1;
    }
    outcomes
}

/// The sequences of chunks held by a sequence of waves.
pub open spec fn waves_view(waves: Seq<Vec<Chunk>>) -> Seq<Seq<Chunk>> {
    waves.map_values(|v: Vec<Chunk>| v@)
}

/// Group `chunks` into waves of exactly `concurrency` chunks each, the last
/// wave holding the remainder. The executor awaits each wave fully before
/// starting the next, so no more than `concurrency` fetches are ever in
/// flight at the same time; the waves concatenate back to exactly the input,
/// in order, so each chunk is scheduled exactly once and outcomes stay
/// index-aligned with chunks.
pub fn plan_waves(chunks: &Vec<Chunk>, concurrency: usize) -> (waves: Vec<Vec<Chunk>>)
    requires
        concurrency > 0,
    ensures
        forall|w: int|
            0 <= w < waves@.len() ==> 0 < (#[trigger] waves_view(waves@)[w]).len()
                <= concurrency,
        forall|w: int|
            0 <= w < waves@.len() - 1 ==> (#[trigger] waves_view(waves@)[w]).len()
                == concurrency,
        waves_view(waves@).flatten() == chunks@,
{
    let mut waves: Vec<Vec<Chunk>> = Vec::new();
    let mut current: Vec<Chunk> = Vec::new();
    let mut i: usize = 0;
    let n = chunks.len();
    proof {
        assert(waves_view(waves@) =~= Seq::<Seq<Chunk>>::empty());
        assert(waves_view(waves@).flatten() + current@ =~= chunks@.take(0));
    }
    while i < n
        invariant
            n == chunks@.len(),
            0 <= i <= n,
            concurrency > 0,
            current@.len() < concurrency,
            waves_view(waves@).flatten() + current@ == chunks@.take(i as int),
            forall|w: int|
                0 <= w < waves@.len() ==> (#[trigger] waves_view(waves@)[w]).len()
                    == concurrency,
        decreases n - i,
    {
        let ghost prev = i as int;
        let ghost flat0 = waves_view(waves@).flatten();
        let ghost cur0 = current@;
        current.push(chunks[i]);
        i = i + 1;
        proof {
            assert(current@ =~= cur0.push(chunks@[prev]));
            assert(flat0 + current@ =~= (flat0 + cur0).push(chunks@[prev]));
            assert((flat0 + cur0).push(chunks@[prev]) =~= chunks@.take(prev + 1));
        }
        if current.len() == concurrency {
            let ghost wv0 = waves_view(waves@);
            let full = current;
            current = Vec::new();
            waves.push(full);
            proof {
                assert(waves_view(waves@) =~= wv0.push(full@));
                wv0.lemma_flatten_push(full@);
                assert(waves_view(waves@).flatten() + current@ =~= wv0.flatten() + full@);
            }
        }
    }
    proof {
        assert(chunks@.take(n as int) =~= chunks@);
    }
    if current.len() > 0 {
        let ghost wv0 = waves_view(waves@);
        let ghost cur0 = current@;
        let last = current;
        waves.push(last);
        proof {
            assert(waves_view(waves@) =~= wv0.push(cur0));
            wv0.lemma_flatten_push(cur0);
            assert(waves_view(waves@).flatten() =~= chunks@);
        }
    } else {
        proof {
            assert(current@ =~= Seq::<Chunk>::empty());
            assert(waves_view(waves@).flatten() + current@ =~= waves_view(waves@).flatten());
            assert(waves_view(waves@).flatten() =~= chunks@);
        }
    }
    waves
}

} // verus!
