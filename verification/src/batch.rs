//! The batch runner: one round of scanning. The numbers that the known primes
//! can decide are cut into sub-intervals, each sub-interval is scanned, and
//! each result is filed under the position of its sub-interval.

use crate::partition::{
    chunk_end, chunk_start, is_chunk_count, is_partition, lemma_chunk_start_increases,
    lemma_chunks_contiguous, partition, SubInterval,
};
use crate::prime_seq::{complete_primes, primes_between};
use crate::scanner::{
    find_primes, lemma_scan_concat, lemma_scan_increasing, lemma_scan_is_primes,
    lemma_scan_nothing, scan_result,
};
use std::collections::HashMap;
use vstd::prelude::*;

verus! {

/// How many numbers lie between the first and the last number of a full
/// sub-interval.
pub const INTERVAL: u64 = 10_000_000;

/// Up to where the known primes decide primality: the square of the largest
/// of them, or the largest 64-bit value where the square is beyond it.
pub open spec fn validity_bound(last: int) -> int {
    if last * last <= u64::MAX {
        last * last
    } else {
        u64::MAX as int
    }
}

/// The results of the first `k` sub-intervals, one after the other in the
/// order of their positions.
pub open spec fn merged(results: Map<usize, Vec<u64>>, k: nat) -> Seq<u64>
    decreases k,
{
    if k == 0 {
        Seq::empty()
    } else {
        merged(results, (k - 1) as nat) + results[(k - 1) as usize]@
    }
}

/// `results` holds one entry for each of the positions `0 .. k`, and no other.
pub open spec fn filed_under(results: Map<usize, Vec<u64>>, k: nat) -> bool {
    forall|i: usize| results.contains_key(i) <==> i < k
}

/// Merging more positions never shortens what is merged.
pub proof fn lemma_merged_grows(results: Map<usize, Vec<u64>>, j: nat, k: nat)
    requires
        j <= k,
    ensures
        merged(results, j).len() <= merged(results, k).len(),
        merged(results, k).subrange(0, merged(results, j).len() as int) == merged(results, j),
    decreases k,
{
    if j < k {
        lemma_merged_grows(results, j, (k - 1) as nat);
        assert(merged(results, k).subrange(0, merged(results, j).len() as int) =~= merged(
            results,
            (k - 1) as nat,
        ).subrange(0, merged(results, j).len() as int));
    } else {
        assert(merged(results, k).subrange(0, merged(results, k).len() as int) =~= merged(
            results,
            k,
        ));
    }
}

/// Where a batch of `k` sub-intervals ends: at the end of its last
/// sub-interval, or just before `start` where it has none.
pub open spec fn batch_end(start: int, upper: int, k: int) -> int {
    if k <= 0 {
        start - 1
    } else {
        chunk_end(start, INTERVAL as int, upper, k - 1)
    }
}

/// `results` is what a batch from `start` on yields with `workers` workers
/// and known primes up to `last`: one entry for each sub-interval, filed under
/// its position, holding what a scan of that sub-interval yields.
pub open spec fn is_batch(
    results: Map<usize, Vec<u64>>,
    start: int,
    workers: int,
    last: int,
) -> bool {
    &&& is_chunk_count(
        results.len() as int,
        start,
        workers,
        INTERVAL as int,
        validity_bound(last),
    )
    &&& filed_under(results, results.len())
    &&& forall|i: int|
        0 <= i < results.len() ==> (#[trigger] results[i as usize])@ == scan_result(
            chunk_start(start, INTERVAL as int, i),
            chunk_end(start, INTERVAL as int, validity_bound(last), i),
        )
}

/// The results of the first `j` sub-intervals of a batch, merged in the order
/// of their positions, are what one scan from `start` to the end of the last
/// of them yields.
proof fn lemma_merge_order_upto(
    results: Map<usize, Vec<u64>>,
    start: int,
    workers: int,
    last: int,
    j: nat,
)
    requires
        0 <= start,
        is_batch(results, start, workers, last),
        j <= results.len(),
    ensures
        merged(results, j) == scan_result(start, batch_end(start, validity_bound(last), j as int)),
    decreases j,
{
    let upper = validity_bound(last);
    let k = results.len() as int;
    if j == 0 {
        lemma_scan_nothing(start, start - 1);
    } else {
        let i = (j - 1) as int;
        lemma_merge_order_upto(results, start, workers, last, i as nat);
        lemma_chunks_contiguous(start, INTERVAL as int, upper, k, i);
        if i > 0 {
            lemma_chunks_contiguous(start, INTERVAL as int, upper, k, i - 1);
            lemma_chunk_start_increases(start, INTERVAL as int, 0, i);
        }
        assert(results[i as usize]@ == scan_result(
            chunk_start(start, INTERVAL as int, i),
            chunk_end(start, INTERVAL as int, upper, i),
        ));
        lemma_scan_concat(
            start,
            batch_end(start, upper, i),
            chunk_end(start, INTERVAL as int, upper, i),
        );
    }
}

/// Merging the results of a batch in the order of the sub-intervals yields
/// what one scan of the whole stretch yields: the same numbers, each once, in
/// ascending order, however the stretch was cut.
pub proof fn lemma_merge_order(results: Map<usize, Vec<u64>>, start: int, workers: int, last: int)
    requires
        0 <= start <= u64::MAX,
        is_batch(results, start, workers, last),
    ensures
        merged(results, results.len()) == scan_result(
            start,
            batch_end(start, validity_bound(last), results.len() as int),
        ),
        3 <= start ==> merged(results, results.len()) == primes_between(
            start,
            batch_end(start, validity_bound(last), results.len() as int),
        ),
        forall|i: int, j: int|
            0 <= i < j < merged(results, results.len()).len() ==> merged(results, results.len())[i]
                < merged(results, results.len())[j],
        start - 1 <= batch_end(start, validity_bound(last), results.len() as int) <= u64::MAX,
{
    lemma_merge_order_upto(results, start, workers, last, results.len());
    let k = results.len() as int;
    let end = batch_end(start, validity_bound(last), k);
    if 3 <= start {
        lemma_scan_is_primes(start, end);
    }
    lemma_scan_increasing(start, end);
    if k > 0 {
        lemma_chunks_contiguous(start, INTERVAL as int, validity_bound(last), k, k - 1);
        if k > 1 {
            lemma_chunk_start_increases(start, INTERVAL as int, 0, k - 1);
        }
    }
}

/// The validity bound of a list of known primes.
pub fn validity_limit(primes: &Vec<u64>) -> (upper: u64)
    requires
        primes@.len() > 0,
    ensures
        upper == validity_bound(primes@.last() as int),
{
    let last: u64 = primes[primes.len() - 1];
    match last.checked_mul(last) {
        Some(square) => square,
        None => u64::MAX,
    }
}

/// Runs one batch from `start` on: cuts what the known primes can decide into
/// at most `workers` sub-intervals, scans each of them, and files each result
/// under the position of its sub-interval. Returns the last number scanned
/// with the results.
///
/// Where there is nothing to scan, because no worker is there or `start` is
/// not below the validity bound, the results are empty and the last number
/// scanned is `start - 1`.
pub fn find_next_primes(primes: &Vec<u64>, start: u64, workers: usize) -> (batch: (
    u64,
    HashMap<usize, Vec<u64>>,
))
    requires
        complete_primes(primes@),
        start >= 1,
    ensures
        is_batch(batch.1@, start as int, workers as int, primes@.last() as int),
        batch.0 == batch_end(
            start as int,
            validity_bound(primes@.last() as int),
            batch.1@.len() as int,
        ),
        start - 1 <= batch.0,
        merged(batch.1@, batch.1@.len()) == scan_result(start as int, batch.0 as int),
{
    broadcast use vstd::std_specs::hash::group_hash_axioms;

    let upper = validity_limit(primes);
    let parts: Vec<SubInterval> = partition(start, workers, INTERVAL, upper);
    let mut results: HashMap<usize, Vec<u64>> = HashMap::new();
    let mut end: u64 = start - 1;
    proof {
        assert(results@.len() == 0);
    }
    let mut i: usize = 0;
    while i < parts.len()
        invariant
            i <= parts@.len(),
            start >= 1,
            complete_primes(primes@),
            upper == validity_bound(primes@.last() as int),
            results@.len() == i,
            filed_under(results@, i as nat),
            is_partition(parts@, start as int, workers as int, INTERVAL as int, upper as int),
            forall|j: int|
                0 <= j < parts@.len() ==> start <= (#[trigger] parts@[j]).start <= parts@[j].end
                    <= upper,
            forall|j: int|
                0 < j < parts@.len() ==> (#[trigger] parts@[j]).start == parts@[j - 1].end + 1,
            parts@.len() > 0 ==> parts@[0].start == start,
            forall|j: int|
                0 <= j < i ==> (#[trigger] results@[j as usize])@ == scan_result(
                    parts@[j].start as int,
                    parts@[j].end as int,
                ),
            end == if i == 0 {
                start - 1
            } else {
                parts@[i - 1].end as int
            },
            start - 1 <= end,
        decreases parts@.len() - i,
    {
        let part: SubInterval = parts[i];
        let found: Vec<u64> = find_primes(part.start, part.end, primes);
        let ghost before = results@;
        results.insert(part.index, found);
        proof {
            assert(results@ == before.insert(i, found));
            assert(!before.contains_key(i));
            assert forall|j: int| 0 <= j < i + 1 implies (#[trigger] results@[j as usize])@
                == scan_result(parts@[j].start as int, parts@[j].end as int) by {
                if j < i {
                    assert(results@[j as usize] == before[j as usize]);
                }
            }
        }
        end = part.end;
        i += 1;
    }
    proof {
        lemma_merge_order(results@, start as int, workers as int, primes@.last() as int);
    }
    (end, results)
}

} // verus!
