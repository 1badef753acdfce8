//! Boundary finding: binary search over a remote, monotonic id space for the
//! earliest unit id at which a record exists.

use vstd::prelude::*;

verus! {

/// A predicate over unit ids is monotonic on `[lo, hi)` when, once it holds
/// at some id, it holds at every greater id of the interval: below one
/// threshold nothing exists, from it on everything does.
pub open spec fn monotonic_within(p: spec_fn(u64) -> bool, lo: u64, hi: u64) -> bool {
    forall|i: u64, j: u64| #![trigger p(i), p(j)] lo <= i <= j < hi && p(i) ==> p(j)
}

/// The probe computes the predicate `p`: whatever boolean a call at `i` can
/// return equals `p(i)`.
pub open spec fn probe_computes<F: Fn(u64) -> bool>(f: F, p: spec_fn(u64) -> bool) -> bool {
    forall|i: u64, b: bool| call_ensures(f, (i,), b) ==> b == p(i)
}

/// Binary search for the earliest retrievable unit id in `[lo, hi)`.
///
/// `probe(id)` reports whether a record exists at `id`; the remote source is
/// assumed to answer monotonically. For every monotonic predicate `p` that
/// `probe` computes, the result is the unique smallest id of `[lo, hi)`
/// satisfying `p`; when the whole interval exists that is `lo`, and when
/// none of it exists the sentinel `hi` is returned. The convergence
/// invariant is one proven pair of bounds: everything below the lower bound
/// is absent, everything from the upper bound on is present.
pub fn find_earliest<F: Fn(u64) -> bool>(probe: &F, lo: u64, hi: u64) -> (r: u64)
    requires
        lo <= hi,
        forall|i: u64| lo <= i < hi ==> call_requires(*probe, (i,)),
    ensures
        lo <= r <= hi,
        forall|p: spec_fn(u64) -> bool|
            #[trigger] monotonic_within(p, lo, hi) && probe_computes(*probe, p) ==> {
                &&& (r < hi ==> p(r))
                &&& forall|i: u64| lo <= i < r ==> !#[trigger] p(i)
            },
{
    let mut a = lo;
    let mut b = hi;
    while a < b
        invariant
            lo <= a <= b <= hi,
            forall|i: u64| lo <= i < hi ==> call_requires(*probe, (i,)),
            forall|p: spec_fn(u64) -> bool|
                #[trigger] monotonic_within(p, lo, hi) && probe_computes(*probe, p) ==> {
                    &&& (forall|i: u64| lo <= i < a ==> !#[trigger] p(i))
                    &&& (forall|i: u64| b <= i < hi ==> #[trigger] p(i))
                },
        decreases b - a,
    {
        let mid = a + (b - a) / 2;
        let found = probe(mid);
        if found {
            b = mid;
        } else {
            a = mid + 1;
        }
    }
    a
}

/// Law: the boundary of a monotonic predicate is unique. Any two ids that
/// both satisfy the earliest-id characterisation returned by
/// [`find_earliest`] — present themselves (unless at the sentinel), with
/// everything below them absent — are one and the same.
pub proof fn lemma_earliest_unique(p: spec_fn(u64) -> bool, lo: u64, hi: u64, r1: u64, r2: u64)
    requires
        monotonic_within(p, lo, hi),
        lo <= r1 <= hi,
        lo <= r2 <= hi,
        r1 < hi ==> p(r1),
        forall|i: u64| lo <= i < r1 ==> !#[trigger] p(i),
        r2 < hi ==> p(r2),
        forall|i: u64| lo <= i < r2 ==> !#[trigger] p(i),
    ensures
        r1 == r2,
{
    if r1 < r2 {
        assert(p(r1));
        assert(!p(r1));
    }
    if r2 < r1 {
        assert(p(r2));
        assert(!p(r2));
    }
}

} // verus!
