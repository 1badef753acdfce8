//! Range planning: partition a half-open interval of ledger unit ids into an
//! ordered sequence of fixed-size, non-overlapping, gap-free chunks.

use vstd::arithmetic::div_mod::{
    lemma_div_is_ordered, lemma_fundamental_div_mod, lemma_fundamental_div_mod_converse,
    lemma_mod_bound,
};
use vstd::arithmetic::mul::lemma_mul_inequality;
use vstd::prelude::*;

verus! {

/// A half-open interval `[start, end)` of ledger unit ids.
#[derive(Clone, Copy, PartialEq, Eq, Structural, Debug)]
pub struct Range {
    pub start: u64,
    pub end: u64,
}

/// A chunk is a sub-range no wider than the configured batch size, the unit
/// of one fetch call.
pub type Chunk = Range;

impl Range {
    /// A range is well formed when it does not run backwards.
    pub open spec fn wf(self) -> bool {
        self.start <= self.end
    }

    /// Number of unit ids in the range.
    pub open spec fn width(self) -> int {
        self.end - self.start
    }

    /// Whether a unit id lies inside the range.
    pub open spec fn contains_id(self, id: u64) -> bool {
        self.start <= id < self.end
    }

    /// Build a range.
    pub fn new(start: u64, end: u64) -> (r: Range)
        requires
            start <= end,
        ensures
            r.start == start,
            r.end == end,
    {
        Range { start, end }
    }

    /// Whether the range holds no ids at all.
    pub fn is_empty(&self) -> (r: bool)
        ensures
            r == (self.width() == 0),
    {
        self.start == self.end
    }
}

/// How many chunks a plan over `r` with batch size `b` holds: the width of
/// `r` divided by `b`, rounded up.
pub open spec fn num_chunks(r: Range, b: u64) -> int
    recommends
        r.wf(),
        b > 0,
{
    (r.width() + b - 1) / (b as int)
}

/// The chunk at position `i` of a plan over `r` with batch size `b`: it
/// starts at `r.start + i * b` and ends one batch later, truncated to
/// `r.end`.
pub open spec fn chunk_at(r: Range, b: u64, i: int) -> Range
    recommends
        r.wf(),
        b > 0,
        0 <= i < num_chunks(r, b),
{
    Range {
        start: (r.start + i * b) as u64,
        end: if r.start + (i + 1) * b <= r.end {
            (r.start + (i + 1) * b) as u64
        } else {
            r.end
        },
    }
}

/// The whole plan over `r` with batch size `b`, as a mathematical sequence.
pub open spec fn plan_spec(r: Range, b: u64) -> Seq<Range> {
    Seq::new(num_chunks(r, b) as nat, |i: int| chunk_at(r, b, i))
}

/// Split `range` into an ascending sequence of chunks of at most
/// `batch_size` ids each: chunk `i` is exactly
/// `[range.start + i * batch_size, min(range.start + (i + 1) * batch_size, range.end))`.
/// An empty range yields no chunks.
pub fn plan(range: Range, batch_size: u64) -> (chunks: Vec<Chunk>)
    requires
        range.wf(),
        batch_size > 0,
    ensures
        chunks@ == plan_spec(range, batch_size),
{
    let mut chunks: Vec<Chunk> = Vec::new();
    let mut pos: u64 = range.start;
    proof {
        lemma_num_chunks_bounds(range, batch_size);
    }
    while pos < range.end
        invariant
            range.wf(),
            batch_size > 0,
            range.start <= pos <= range.end,
            chunks@.len() <= num_chunks(range, batch_size),
            chunks@.len() < num_chunks(range, batch_size) ==> pos == range.start + chunks@.len()
                * batch_size,
            chunks@.len() == num_chunks(range, batch_size) ==> pos == range.end,
            forall|j: int|
                0 <= j < chunks@.len() ==> chunks@[j] == chunk_at(range, batch_size, j),
        decreases range.end - pos,
    {
        let ghost k = chunks@.len() as int;
        proof {
            lemma_chunk_index_iff(range, batch_size, k);
        }
        let next: u64 = if range.end - pos > batch_size {
            pos + batch_size
        } else {
            range.end
        };
        chunks.push(Range { start: pos, end: next });
        proof {
            lemma_chunk_index_iff(range, batch_size, k + 1);
            assert((k + 1) * batch_size == k * batch_size + batch_size) by (nonlinear_arith);
            assert(chunks@[k] == chunk_at(range, batch_size, k));
        }
        pos = next;
    }
    proof {
        lemma_chunk_index_iff(range, batch_size, chunks@.len() as int);
        assert(chunks@ =~= plan_spec(range, batch_size));
    }
    chunks
}

/// Split `range` into the same chunks as [`plan`], emitted most-recent-first:
/// the result is exactly the reverse of the ascending plan.
pub fn plan_descending(range: Range, batch_size: u64) -> (chunks: Vec<Chunk>)
    requires
        range.wf(),
        batch_size > 0,
    ensures
        chunks@ == plan_spec(range, batch_size).reverse(),
{
    let ascending = plan(range, batch_size);
    let mut chunks: Vec<Chunk> = Vec::new();
    let mut i: usize = ascending.len();
    while i > 0
        invariant
            chunks@.len() == ascending@.len() - i,
            forall|j: int|
                0 <= j < chunks@.len() ==> chunks@[j] == ascending@[ascending@.len() - 1 - j],
        decreases i,
    {
        i = i - 1;
        chunks.push(ascending[i]);
    }
    proof {
        assert(chunks@ =~= plan_spec(range, batch_size).reverse());
    }
    chunks
}

/// The plan is empty exactly when the range is, and never holds more chunks
/// than the range holds ids.
pub proof fn lemma_num_chunks_bounds(r: Range, b: u64)
    requires
        r.wf(),
        b > 0,
    ensures
        0 <= num_chunks(r, b) <= r.width(),
        num_chunks(r, b) == 0 <==> r.width() == 0,
{
    let w = r.width();
    let bi = b as int;
    if w == 0 {
        assert(bi - 1 == 0 * bi + (bi - 1)) by (nonlinear_arith);
        lemma_fundamental_div_mod_converse(bi - 1, bi, 0, bi - 1);
    } else {
        lemma_div_is_ordered(bi, w + bi - 1, bi);
        lemma_fundamental_div_mod_converse(bi, bi, 1, 0);
        // (w + b - 1) / b <= (w * b + b - 1) / b == w, since w <= w * b
        lemma_mul_inequality(1, bi, w);
        lemma_div_is_ordered(w + bi - 1, w * bi + bi - 1, bi);
        assert(w * bi + bi - 1 == bi * w + (bi - 1)) by (nonlinear_arith);
        lemma_fundamental_div_mod_converse(w * bi + bi - 1, bi, w, bi - 1);
    }
}

/// Law: every chunk of a plan is well formed, non-empty, lies inside the
/// planned range, and is at most one batch wide.
pub proof fn lemma_plan_chunks_shape(r: Range, b: u64)
    requires
        r.wf(),
        b > 0,
    ensures
        forall|i: int|
            0 <= i < plan_spec(r, b).len() ==> {
                let c = #[trigger] plan_spec(r, b)[i];
                &&& c.wf()
                &&& 0 < c.width() <= b
                &&& r.start <= c.start
                &&& c.end <= r.end
            },
{
    assert forall|i: int| 0 <= i < plan_spec(r, b).len() implies {
        let c = #[trigger] plan_spec(r, b)[i];
        &&& c.wf()
        &&& 0 < c.width() <= b
        &&& r.start <= c.start
        &&& c.end <= r.end
    } by {
        lemma_chunk_index_iff(r, b, i);
        assert(i * b >= 0) by (nonlinear_arith)
            requires
                i >= 0,
                b > 0,
        ;
        assert((i + 1) * b == i * b + b) by (nonlinear_arith);
    }
}

/// Law: the chunks of a plan are emitted in ascending order and are pairwise
/// non-overlapping; chunk `i` ends exactly where chunk `i + 1` starts, so the
/// plan leaves no gap either.
pub proof fn lemma_plan_chunks_disjoint(r: Range, b: u64)
    requires
        r.wf(),
        b > 0,
    ensures
        forall|i: int|
            0 <= i < plan_spec(r, b).len() - 1 ==> (#[trigger] plan_spec(r, b)[i]).end
                == plan_spec(r, b)[i + 1].start,
        forall|i: int, j: int, id: u64|
            0 <= i < j < plan_spec(r, b).len() ==> !(#[trigger] (plan_spec(r, b)[i].contains_id(
                id,
            )) && #[trigger] (plan_spec(r, b)[j].contains_id(id))),
{
    assert forall|i: int| 0 <= i < plan_spec(r, b).len() - 1 implies (#[trigger] plan_spec(
        r,
        b,
    )[i]).end == plan_spec(r, b)[i + 1].start by {
        lemma_chunk_index_iff(r, b, i + 1);
        assert((i + 1) * b == i * b + b) by (nonlinear_arith);
    }
    assert forall|i: int, j: int, id: u64| 0 <= i < j < plan_spec(r, b).len() implies !(
    #[trigger] (plan_spec(r, b)[i].contains_id(id)) && #[trigger] (plan_spec(r, b)[j].contains_id(
        id,
    ))) by {
        lemma_chunk_index_iff(r, b, i + 1);
        lemma_chunk_index_iff(r, b, j);
        assert((i + 1) * b == i * b + b) by (nonlinear_arith);
        assert((i + 1) * b <= j * b) by (nonlinear_arith)
            requires
                i + 1 <= j,
                b > 0,
        ;
        assert(j * b >= 0) by (nonlinear_arith)
            requires
                j >= 0,
                b > 0,
        ;
    }
}

/// Law: every id of the planned range lies in some chunk of the plan.
/// Together with [`lemma_plan_chunks_shape`] and
/// [`lemma_plan_chunks_disjoint`] this says that the chunks of a plan union
/// to exactly the planned range, each id covered exactly once.
pub proof fn lemma_plan_chunks_cover(r: Range, b: u64)
    requires
        r.wf(),
        b > 0,
    ensures
        forall|id: u64|
            r.contains_id(id) ==> exists|i: int|
                0 <= i < plan_spec(r, b).len() && (#[trigger] plan_spec(r, b)[i]).contains_id(id),
{
    assert forall|id: u64| r.contains_id(id) implies exists|i: int|
        0 <= i < plan_spec(r, b).len() && (#[trigger] plan_spec(r, b)[i]).contains_id(id) by {
        let bi = b as int;
        let off = id - r.start;
        lemma_fundamental_div_mod(off, bi);
        lemma_mod_bound(off, bi);
        let i = off / bi;
        assert(i >= 0) by (nonlinear_arith)
            requires
                bi > 0,
                off >= 0,
                off == bi * i + off % bi,
                0 <= off % bi < bi,
        ;
        assert(i * bi <= off < i * bi + bi) by (nonlinear_arith)
            requires
                off == bi * i + off % bi,
                0 <= off % bi < bi,
        ;
        lemma_chunk_index_iff(r, b, i);
        assert((i + 1) * bi == i * bi + bi) by (nonlinear_arith);
        assert(plan_spec(r, b)[i].contains_id(id));
    }
}

/// Position `i` is a valid chunk index exactly when `i` whole batches do not
/// yet exhaust the range.
pub proof fn lemma_chunk_index_iff(r: Range, b: u64, i: int)
    requires
        r.wf(),
        b > 0,
        i >= 0,
    ensures
        i < num_chunks(r, b) <==> i * b < r.width(),
{
    let w = r.width();
    let bi = b as int;
    let n = num_chunks(r, b);
    if i * bi < w {
        // i is at most (w - 1) / b, and n is (w - 1) / b + 1
        assert(w > 0) by (nonlinear_arith)
            requires
                i >= 0,
                bi > 0,
                i * bi < w,
        ;
        lemma_fundamental_div_mod(w - 1, bi);
        lemma_mod_bound(w - 1, bi);
        let q = (w - 1) / bi;
        let rem = (w - 1) % bi;
        assert(w + bi - 1 == bi * (q + 1) + rem) by (nonlinear_arith)
            requires
                w - 1 == bi * q + rem,
        ;
        lemma_fundamental_div_mod_converse(w + bi - 1, bi, q + 1, rem);
        // i * b <= w - 1 ==> i <= q
        if i > q {
            assert(i * bi >= (q + 1) * bi) by (nonlinear_arith)
                requires
                    i >= q + 1,
                    bi > 0,
            ;
            assert((q + 1) * bi == q * bi + bi) by (nonlinear_arith);
            assert(q * bi >= bi * q);
        }
        assert(i <= q);
        assert(n == q + 1);
    }
    if i < n {
        // n - 1 batches never exhaust the range: (n - 1) * b < w
        lemma_fundamental_div_mod(w + bi - 1, bi);
        lemma_mod_bound(w + bi - 1, bi);
        let q = (w + bi - 1) / bi;
        let rem = (w + bi - 1) % bi;
        assert(i <= q - 1);
        assert(i * bi <= (q - 1) * bi) by (nonlinear_arith)
            requires
                i <= q - 1,
                bi > 0,
        ;
        assert((q - 1) * bi == bi * q - bi) by (nonlinear_arith);
    }
}

} // verus!
