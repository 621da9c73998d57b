//! The interval partitioner: the numbers from a starting point up to an upper
//! bound, cut into one consecutive sub-interval per worker.

use vstd::prelude::*;

verus! {

/// One worker's share of a batch: the closed interval `[start, end]`, and its
/// position among the sub-intervals of the batch, counted from 0.
#[derive(Clone, Copy, Debug, PartialEq, Eq, Structural)]
pub struct SubInterval {
    pub index: usize,
    pub start: u64,
    pub end: u64,
}

/// Where the sub-interval at position `i` starts: each sub-interval before it
/// holds `width + 1` numbers.
pub open spec fn chunk_start(start: int, width: int, i: int) -> int {
    start + i * (width + 1)
}

/// Where the sub-interval at position `i` ends: `width` past its start, or at
/// the upper bound if that comes first.
pub open spec fn chunk_end(start: int, width: int, upper: int, i: int) -> int {
    if chunk_start(start, width, i) + width < upper {
        chunk_start(start, width, i) + width
    } else {
        upper
    }
}

/// `k` is the number of sub-intervals of a batch: there is at most one per
/// worker, each starts below the upper bound, and where workers are left
/// over, the next sub-interval would not start below it.
pub open spec fn is_chunk_count(k: int, start: int, workers: int, width: int, upper: int) -> bool {
    &&& 0 <= k <= workers
    &&& k > 0 ==> chunk_start(start, width, k - 1) < upper
    &&& k < workers ==> chunk_start(start, width, k) >= upper
}

/// `parts` is the list of the sub-intervals of a batch: as many as the batch
/// has, each with its position, its start and its end.
pub open spec fn is_partition(
    parts: Seq<SubInterval>,
    start: int,
    workers: int,
    width: int,
    upper: int,
) -> bool {
    &&& is_chunk_count(parts.len() as int, start, workers, width, upper)
    &&& forall|i: int|
        0 <= i < parts.len() ==> {
            &&& (#[trigger] parts[i]).index == i
            &&& parts[i].start == chunk_start(start, width, i)
            &&& parts[i].end == chunk_end(start, width, upper, i)
        }
}

/// Sub-intervals start in the order of their positions.
pub proof fn lemma_chunk_start_increases(start: int, width: int, i: int, j: int)
    requires
        0 <= width,
        i < j,
    ensures
        chunk_start(start, width, i) + width + 1 <= chunk_start(start, width, j),
{
    assert(i * (width + 1) + (width + 1) <= j * (width + 1)) by (nonlinear_arith)
        requires
            0 <= width,
            i + 1 <= j,
    ;
}

/// The number of sub-intervals is determined by the inputs.
pub proof fn lemma_chunk_count_unique(
    k1: int,
    k2: int,
    start: int,
    workers: int,
    width: int,
    upper: int,
)
    requires
        0 <= width,
        is_chunk_count(k1, start, workers, width, upper),
        is_chunk_count(k2, start, workers, width, upper),
    ensures
        k1 == k2,
{
    if k1 < k2 {
        if k1 < k2 - 1 {
            lemma_chunk_start_increases(start, width, k1, k2 - 1);
        }
    } else if k2 < k1 {
        if k2 < k1 - 1 {
            lemma_chunk_start_increases(start, width, k2, k1 - 1);
        }
    }
}

/// The sub-intervals of a batch are not empty, follow one another without a
/// gap or an overlap, and end at the upper bound at the latest.
pub proof fn lemma_chunks_contiguous(start: int, width: int, upper: int, k: int, i: int)
    requires
        0 <= width,
        k > 0 ==> chunk_start(start, width, k - 1) < upper,
        0 <= i < k,
    ensures
        chunk_start(start, width, i) <= chunk_end(start, width, upper, i) <= upper,
        chunk_start(start, width, i) < upper,
        i + 1 < k ==> chunk_start(start, width, i + 1) == chunk_end(start, width, upper, i) + 1,
        i == 0 ==> chunk_start(start, width, i) == start,
{
    if i < k - 1 {
        lemma_chunk_start_increases(start, width, i, k - 1);
    }
    assert((i + 1) * (width + 1) == i * (width + 1) + (width + 1)) by (nonlinear_arith);
    if i + 1 < k - 1 {
        lemma_chunk_start_increases(start, width, i + 1, k - 1);
    }
}

/// Cuts the numbers from `start` on into consecutive sub-intervals, one per
/// worker, each `chunk_width` long from its first to its last number. No
/// sub-interval reaches past `upper_bound`: the one that would is cut off
/// there, and none starts at or after it, so there may be fewer sub-intervals
/// than workers, or none.
pub fn partition(start: u64, worker_count: usize, chunk_width: u64, upper_bound: u64) -> (parts:
    Vec<SubInterval>)
    ensures
        is_partition(
            parts@,
            start as int,
            worker_count as int,
            chunk_width as int,
            upper_bound as int,
        ),
        forall|i: int|
            0 <= i < parts@.len() ==> start <= (#[trigger] parts@[i]).start <= parts@[i].end
                <= upper_bound,
        forall|i: int|
            0 < i < parts@.len() ==> (#[trigger] parts@[i]).start == parts@[i - 1].end + 1,
        forall|i: int, j: int|
            0 <= i < j < parts@.len() ==> (#[trigger] parts@[i]).end < (#[trigger] parts@[j]).start,
{
    let mut parts: Vec<SubInterval> = Vec::new();
    let mut next: u64 = start;
    let mut i: usize = 0;
    while i < worker_count && next < upper_bound
        invariant
            i <= worker_count,
            parts@.len() == i,
            chunk_start(start as int, chunk_width as int, i as int) < upper_bound ==> next
                == chunk_start(start as int, chunk_width as int, i as int),
            chunk_start(start as int, chunk_width as int, i as int) >= upper_bound ==> next
                >= upper_bound,
            i > 0 ==> chunk_start(start as int, chunk_width as int, i - 1) < upper_bound,
            forall|j: int|
                0 <= j < i ==> {
                    &&& (#[trigger] parts@[j]).index == j
                    &&& parts@[j].start == chunk_start(start as int, chunk_width as int, j)
                    &&& parts@[j].end == chunk_end(
                        start as int,
                        chunk_width as int,
                        upper_bound as int,
                        j,
                    )
                },
        decreases worker_count - i,
    {
        let end: u64 = match next.checked_add(chunk_width) {
            Some(e) => if e < upper_bound {
                e
            } else {
                upper_bound
            },
            None => upper_bound,
        };
        parts.push(SubInterval { index: i, start: next, end });
        assert((i + 1) * (chunk_width + 1) == i * (chunk_width + 1) + (chunk_width + 1))
            by (nonlinear_arith);
        next = if end < upper_bound {
            end + 1
        } else {
            upper_bound
        };
        i += 1;
    }
    proof {
        let k = parts@.len() as int;
        assert forall|a: int| 0 <= a < k implies start <= (#[trigger] parts@[a]).start
            <= parts@[a].end <= upper_bound by {
            lemma_chunks_contiguous(start as int, chunk_width as int, upper_bound as int, k, a);
            if a > 0 {
                lemma_chunk_start_increases(start as int, chunk_width as int, 0, a);
            }
        }
        assert forall|a: int| 0 < a < k implies (#[trigger] parts@[a]).start == parts@[a - 1].end
            + 1 by {
            lemma_chunks_contiguous(
                start as int,
                chunk_width as int,
                upper_bound as int,
                k,
                a - 1,
            );
        }
        assert forall|a: int, b: int| 0 <= a < b < k implies (#[trigger] parts@[a]).end < (
        #[trigger] parts@[b]).start by {
            lemma_chunk_start_increases(start as int, chunk_width as int, a, b);
        }
    }
    parts
}

} // verus!
