//! The controller: starting from the first four primes it runs batch after
//! batch, merges each batch's results into the known primes in the order of
//! the sub-intervals, and stops at the prime of the rank asked for.

use crate::batch::{
    batch_end, filed_under, find_next_primes, is_batch, lemma_merge_order, lemma_merged_grows,
    merged, validity_bound, validity_limit, INTERVAL,
};
use crate::partition::{is_partition, lemma_chunk_count_unique, partition, SubInterval};
use crate::primality::{is_prime, lemma_prime_by_trial};
use crate::prime_seq::{
    is_nth_prime, lemma_prime_count_is_len, lemma_prime_count_monotone, lemma_primes_between,
    lemma_primes_between_split, lemma_primes_upto_complete, lemma_rank_of_element, prime_count,
    primes_between,
};
use crate::reach::lemma_reaching_prime;
use crate::scanner::lemma_scan_is_primes;
use std::collections::HashMap;
use vstd::prelude::*;

verus! {

/// Why no prime is returned.
#[derive(Clone, Copy, Debug, PartialEq, Eq, Structural)]
pub enum FindError {
    /// The rank 0 was asked for: ranks count from 1.
    InvalidRank,
    /// The prime of the rank asked for does not fit in 64 bits.
    OutOfRange,
}

/// The primes that the search starts from.
pub open spec fn seed() -> Seq<u64> {
    seq![2u64, 3u64, 5u64, 7u64]
}

/// The seed is the list of all primes up to 7.
pub proof fn lemma_seed()
    ensures
        seed() == primes_between(2, 7),
{
    lemma_prime_by_trial(3, 1);
    assert(5int % 2 != 0);
    lemma_prime_by_trial(5, 2);
    assert(7int % 2 != 0);
    lemma_prime_by_trial(7, 2);
    assert(is_prime(2));
    assert(4int % 2 == 0);
    assert(6int % 2 == 0);
    assert(primes_between(2, 1) =~= Seq::<u64>::empty());
    assert(primes_between(2, 2) =~= seq![2u64]);
    assert(primes_between(2, 3) =~= seq![2u64, 3u64]);
    assert(primes_between(2, 4) =~= seq![2u64, 3u64]);
    assert(primes_between(2, 5) =~= seq![2u64, 3u64, 5u64]);
    assert(primes_between(2, 6) =~= seq![2u64, 3u64, 5u64]);
    assert(primes_between(2, 7) =~= seed());
}

/// The known primes always reach past what has been scanned: once every
/// number below `start` has been scanned, the square of the largest known
/// prime lies beyond `start`, so there is something left that the known primes
/// can decide.
pub proof fn lemma_never_stalls(start: int)
    requires
        8 <= start <= u64::MAX,
    ensures
        start < primes_between(2, start - 1).last() * primes_between(2, start - 1).last(),
{
    let known = primes_between(2, start - 1);
    let p = lemma_reaching_prime(start - 1);
    lemma_primes_between(2, start - 1);
    lemma_primes_upto_complete(start - 1);
    assert(known.contains(p as u64));
    let i = choose|i: int| 0 <= i < known.len() && known[i] == p as u64;
    let last = known.last();
    assert(p <= last) by {
        if i < known.len() - 1 {
            assert(known[i] < known[known.len() - 1]);
        }
    }
    assert(p * p <= last * last) by (nonlinear_arith)
        requires
            0 <= p <= last,
    ;
}

/// Merges the results of a batch into the known primes, sub-interval by
/// sub-interval in the order of their positions, until the prime of rank `n`
/// is reached.
///
/// A result that leaves the count of known primes below `n` is appended as a
/// whole. The first one that does not holds the prime of rank `n`, which is
/// returned; that result and those after it are not appended. Where all the
/// results together leave the count below `n`, all are appended and `None` is
/// returned.
pub fn merge_batch(primes: &mut Vec<u64>, n: u32, results: &HashMap<usize, Vec<u64>>) -> (found:
    Option<u64>)
    requires
        old(primes)@.len() < n,
        filed_under(results@, results@.len()),
    ensures
        match found {
            Some(p) => {
                &&& (old(primes)@ + merged(results@, results@.len())).len() >= n
                &&& p == (old(primes)@ + merged(results@, results@.len()))[n - 1]
                &&& exists|j: nat|
                    {
                        &&& j < results@.len()
                        &&& final(primes)@ == old(primes)@ + #[trigger] merged(results@, j)
                        &&& final(primes)@.len() < n <= final(primes)@.len() + results@[j as usize]@.len()
                    }
            },
            None => {
                &&& (old(primes)@ + merged(results@, results@.len())).len() < n
                &&& final(primes)@ == old(primes)@ + merged(results@, results@.len())
            },
        },
{
    broadcast use vstd::std_specs::hash::group_hash_axioms;

    let ghost base = primes@;
    let k: usize = results.len();
    let mut i: usize = 0;
    proof {
        assert(base + merged(results@, 0) =~= base);
    }
    while i < k
        invariant
            i <= k,
            k == results@.len(),
            filed_under(results@, results@.len()),
            base == old(primes)@,
            primes@ == base + merged(results@, i as nat),
            primes@.len() < n,
        decreases k - i,
    {
        assert(results@.contains_key(i));
        let batch: Option<&Vec<u64>> = results.get(&i);
        let list: &Vec<u64> = match batch {
            Some(list) => list,
            None => { return None; },
        };
        assert(list@ == results@[i]@);
        let missing: usize = n as usize - primes.len();
        if list.len() < missing {
            let ghost before = primes@;
            let mut j: usize = 0;
            while j < list.len()
                invariant
                    j <= list@.len(),
                    primes@ == before + list@.subrange(0, j as int),
                    before.len() + list@.len() < n,
                decreases list@.len() - j,
            {
                primes.push(list[j]);
                proof {
                    assert(before + list@.subrange(0, j + 1) =~= (before + list@.subrange(
                        0,
                        j as int,
                    )).push(list@[j as int]));
                }
                j += 1;
            }
            proof {
                assert(list@.subrange(0, list@.len() as int) =~= list@);
                assert(base + merged(results@, (i + 1) as nat) =~= (base + merged(
                    results@,
                    i as nat,
                )) + list@);
            }
        } else {
            let p: u64 = list[missing - 1];
            proof {
                let part = merged(results@, (i + 1) as nat);
                let all = merged(results@, k as nat);
                lemma_merged_grows(results@, (i + 1) as nat, k as nat);
                assert(part == merged(results@, i as nat) + list@);
                assert(all.subrange(0, part.len() as int) == part);
                assert((base + part)[n - 1] == p);
                assert((base + all)[n - 1] == all.subrange(0, part.len() as int)[n - 1
                    - base.len()]);
                assert(primes@ == base + merged(results@, i as nat));
            }
            return Some(p);
        }
        i += 1;
    }
    None
}

/// The state of a search between two batches: the rank asked for, the number
/// of workers, the known primes, and the first number not yet scanned.
pub struct Search {
    pub rank: u32,
    pub workers: usize,
    pub primes: Vec<u64>,
    pub start: u64,
}

/// What a batch has brought.
#[derive(Clone, Copy, Debug, PartialEq, Eq, Structural)]
pub enum Step {
    /// The prime of the rank asked for.
    Found(u64),
    /// The rank is not reached yet: the next batch is due.
    Continue,
    /// Every 64-bit number has been scanned and the rank is not reached.
    Exhausted,
}

impl Search {
    /// The state is sound: the known primes are all the primes below `start`,
    /// and they are fewer than the rank asks for, unless no batch has been
    /// merged yet.
    pub open spec fn wf(&self) -> bool {
        &&& self.rank >= 1
        &&& self.workers >= 1
        &&& 8 <= self.start
        &&& self.primes@ == primes_between(2, self.start - 1)
        &&& (self.primes@.len() < self.rank || self.start == 8)
    }

    /// The largest known prime.
    pub open spec fn last(&self) -> int {
        self.primes@.last() as int
    }

    /// Where the next batch ends, given the number of its sub-intervals.
    pub open spec fn end_of_batch(&self, k: nat) -> int {
        batch_end(self.start as int, validity_bound(self.last()), k as int)
    }

    /// A search for the prime of rank `rank`, counting from 1, that starts
    /// from the seed. Without a worker the search goes on with one. The rank
    /// 0 is refused.
    pub fn new(rank: u32, workers: usize) -> (r: Result<Search, FindError>)
        ensures
            match r {
                Ok(search) => {
                    &&& rank >= 1
                    &&& search.wf()
                    &&& search.rank == rank
                    &&& search.workers == if workers == 0 { 1 } else { workers }
                    &&& search.primes@ == seed()
                    &&& search.start == 8
                },
                Err(refused) => rank == 0 && refused == FindError::InvalidRank,
            },
    {
        if rank == 0 {
            return Err(FindError::InvalidRank);
        }
        let mut primes: Vec<u64> = Vec::new();
        primes.push(2);
        primes.push(3);
        primes.push(5);
        primes.push(7);
        proof {
            lemma_seed();
            assert(primes@ =~= seed());
        }
        Ok(Search { rank, workers: if workers == 0 { 1 } else { workers }, primes, start: 8 })
    }

    /// The sub-intervals of the next batch: from `start` on, one per worker,
    /// as far as the known primes decide.
    pub fn plan(&self) -> (parts: Vec<SubInterval>)
        requires
            self.wf(),
        ensures
            is_partition(
                parts@,
                self.start as int,
                self.workers as int,
                INTERVAL as int,
                validity_bound(self.last()),
            ),
            parts@.len() >= 1 || self.start == u64::MAX,
            forall|i: int|
                0 <= i < parts@.len() ==> (#[trigger] parts@[i]).end <= self.last() * self.last(),
    {
        proof {
            lemma_primes_upto_complete(self.start - 1);
            lemma_never_stalls(self.start as int);
        }
        let upper = validity_limit(&self.primes);
        partition(self.start, self.workers, INTERVAL, upper)
    }

    /// Takes in the results of the batch that `plan` laid out: merges them
    /// into the known primes in the order of the sub-intervals and says what
    /// they brought.
    ///
    /// The prime of the rank asked for is found as soon as the known primes
    /// and the merged results have it. Otherwise the search continues after
    /// the end of the batch, unless the batch ended at the largest 64-bit
    /// value or had nothing left to scan.
    pub fn absorb(&mut self, results: &HashMap<usize, Vec<u64>>) -> (step: Step)
        requires
            old(self).wf(),
            is_batch(
                results@,
                old(self).start as int,
                old(self).workers as int,
                old(self).last(),
            ),
        ensures
            final(self).rank == old(self).rank,
            final(self).workers == old(self).workers,
            old(self).primes@.is_prefix_of(final(self).primes@),
            final(self).primes@.is_prefix_of(
                primes_between(2, old(self).end_of_batch(results@.len())),
            ),
            match step {
                Step::Found(p) => {
                    &&& is_nth_prime(p as int, old(self).rank as int)
                    &&& final(self).start == old(self).start
                },
                Step::Continue => {
                    &&& final(self).wf()
                    &&& final(self).start == old(self).end_of_batch(results@.len()) + 1
                    &&& final(self).start > old(self).start
                    &&& final(self).primes@.len() < old(self).rank
                },
                Step::Exhausted => {
                    &&& prime_count(u64::MAX as int) < old(self).rank
                    &&& final(self).start == old(self).start
                },
            },
            step is Found <==> prime_count(old(self).end_of_batch(results@.len())) >= old(
                self,
            ).rank,
            step is Exhausted <==> {
                &&& prime_count(old(self).end_of_batch(results@.len())) < old(self).rank
                &&& (results@.len() == 0 || old(self).end_of_batch(results@.len()) == u64::MAX)
            },
    {
        let ghost base = self.primes@;
        let ghost k = results@.len();
        let ghost end = self.end_of_batch(k);
        proof {
            lemma_primes_upto_complete(self.start - 1);
            lemma_merge_order(results@, self.start as int, self.workers as int, self.last());
            lemma_scan_is_primes(self.start as int, end);
            lemma_primes_between_split(2, self.start - 1, end);
            lemma_prime_count_is_len(end);
            lemma_prime_count_is_len(self.start - 1);
            lemma_prime_count_monotone(self.start - 1, end);
            assert(base + merged(results@, k) == primes_between(2, end));
            assert(base =~= primes_between(2, end).subrange(0, base.len() as int));
        }
        if self.rank as usize <= self.primes.len() {
            let p: u64 = self.primes[self.rank as usize - 1];
            proof {
                lemma_rank_of_element(self.start - 1, self.rank - 1);
            }
            return Step::Found(p);
        }
        let parts = self.plan();
        proof {
            lemma_chunk_count_unique(
                parts@.len() as int,
                k as int,
                self.start as int,
                self.workers as int,
                INTERVAL as int,
                validity_bound(self.last()),
            );
        }
        let stalled: bool = parts.len() == 0;
        let last_scanned: u64 = if stalled {
            self.start - 1
        } else {
            parts[parts.len() - 1].end
        };
        assert(last_scanned == end);
        let found: Option<u64> = merge_batch(&mut self.primes, self.rank, results);
        match found {
            Some(p) => {
                proof {
                    lemma_rank_of_element(end, self.rank - 1);
                    let j = choose|j: nat|
                        {
                            &&& j < k
                            &&& self.primes@ == base + #[trigger] merged(results@, j)
                            &&& self.primes@.len() < self.rank <= self.primes@.len()
                                + results@[j as usize]@.len()
                        };
                    lemma_merged_grows(results@, j, k);
                    assert(self.primes@ =~= primes_between(2, end).subrange(
                        0,
                        self.primes@.len() as int,
                    ));
                }
                return Step::Found(p);
            },
            None => {},
        }
        if stalled || last_scanned == u64::MAX {
            proof {
                if stalled {
                    assert(18446744073709551615int % 3 == 0);
                    assert(!is_prime(u64::MAX as int));
                }
                lemma_prime_count_is_len(u64::MAX as int);
            }
            return Step::Exhausted;
        }
        self.start = last_scanned + 1;
        Step::Continue
    }
}

/// The prime of rank `n`, counting from 1, found with batches of at most
/// `workers` sub-intervals. Without a worker the search goes on with one.
///
/// The result does not depend on `workers`. The rank 0 is refused, and so is
/// a rank whose prime does not fit in 64 bits.
pub fn find_nth_prime_with_workers(n: u32, workers: usize) -> (r: Result<u64, FindError>)
    ensures
        match r {
            Ok(p) => n >= 1 && is_nth_prime(p as int, n as int),
            Err(FindError::InvalidRank) => n == 0,
            Err(FindError::OutOfRange) => n >= 1 && prime_count(u64::MAX as int) < n,
        },
        r is Ok <==> n >= 1 && prime_count(u64::MAX as int) >= n,
{
    let mut search: Search = match Search::new(n, workers) {
        Ok(search) => search,
        Err(refused) => { return Err(refused); },
    };
    loop
        invariant
            search.wf(),
            search.rank == n,
        decreases u64::MAX - search.start,
    {
        proof {
            lemma_primes_upto_complete(search.start - 1);
        }
        let (_, results) = find_next_primes(&search.primes, search.start, search.workers);
        match search.absorb(&results) {
            Step::Found(p) => {
                proof {
                    lemma_prime_count_monotone(p as int, u64::MAX as int);
                }
                return Ok(p);
            },
            Step::Exhausted => { return Err(FindError::OutOfRange); },
            Step::Continue => {},
        }
    }
}

/// `num_cpus::get`: the number of logical processors that this process can
/// use. It depends on the machine, so nothing is claimed of it.
#[verifier::external_body]
fn available_workers() -> (cpus: usize) {
    num_cpus::get()
}

/// The prime of rank `n`, counting from 1, found with one sub-interval per
/// available processor in each batch.
///
/// The rank 0 is refused, and so is a rank whose prime does not fit in 64
/// bits.
pub fn find_nth_prime_parallelized(n: u32) -> (r: Result<u64, FindError>)
    ensures
        match r {
            Ok(p) => n >= 1 && is_nth_prime(p as int, n as int),
            Err(FindError::InvalidRank) => n == 0,
            Err(FindError::OutOfRange) => n >= 1 && prime_count(u64::MAX as int) < n,
        },
        r is Ok <==> n >= 1 && prime_count(u64::MAX as int) >= n,
{
    find_nth_prime_with_workers(n, available_workers())
}

} // verus!
