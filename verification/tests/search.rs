use nth_prime::{find_next_primes, find_primes, FindError, Search, Step, SubInterval, INTERVAL};
use std::collections::HashMap;

fn scan_in_reverse(search: &Search) -> HashMap<usize, Vec<u64>> {
    let mut results = HashMap::new();
    for part in search.plan().iter().rev() {
        results.insert(part.index, find_primes(part.start, part.end, &search.primes));
    }
    results
}

fn run(rank: u32, workers: usize) -> (u64, usize) {
    let mut search = Search::new(rank, workers).unwrap();
    let mut batches = 0;
    loop {
        let results = scan_in_reverse(&search);
        batches += 1;
        match search.absorb(&results) {
            Step::Found(p) => return (p, batches),
            Step::Continue => {}
            Step::Exhausted => panic!("no prime of rank {}", rank),
        }
    }
}

#[test]
fn search_starts_from_the_seed() {
    let search = Search::new(9, 3).unwrap();
    assert_eq!(search.rank, 9);
    assert_eq!(search.workers, 3);
    assert_eq!(search.primes, vec![2, 3, 5, 7]);
    assert_eq!(search.start, 8);
}

#[test]
fn search_without_a_worker_goes_on_with_one() {
    assert_eq!(Search::new(9, 0).unwrap().workers, 1);
}

#[test]
fn search_refuses_rank_zero() {
    assert_eq!(Search::new(0, 3).err(), Some(FindError::InvalidRank));
}

#[test]
fn first_plan_goes_up_to_the_square_of_seven() {
    let search = Search::new(9, 3).unwrap();
    assert_eq!(search.plan(), vec![SubInterval { index: 0, start: 8, end: 49 }]);
}

#[test]
fn absorb_finds_the_ninth_prime_in_the_first_batch() {
    let mut search = Search::new(9, 3).unwrap();
    let results = scan_in_reverse(&search);
    assert_eq!(search.absorb(&results), Step::Found(23));
    assert_eq!(search.start, 8);
}

#[test]
fn absorb_answers_a_seed_rank_whatever_the_batch_holds() {
    for (rank, prime) in [(1u32, 2u64), (2, 3), (3, 5), (4, 7)] {
        let mut search = Search::new(rank, 1).unwrap();
        let results = scan_in_reverse(&search);
        assert_eq!(search.absorb(&results), Step::Found(prime));
        assert_eq!(search.primes, vec![2, 3, 5, 7]);
    }
}

#[test]
fn absorb_continues_after_the_end_of_the_batch() {
    let mut search = Search::new(100, 2).unwrap();
    let results = scan_in_reverse(&search);
    assert_eq!(search.absorb(&results), Step::Continue);
    assert_eq!(search.start, 50);
    assert_eq!(search.primes.len(), 15);
    assert_eq!(search.primes.last(), Some(&47));
    assert_eq!(search.plan(), vec![SubInterval { index: 0, start: 50, end: 2209 }]);
    let results = scan_in_reverse(&search);
    assert_eq!(search.absorb(&results), Step::Found(541));
    assert_eq!(search.primes.last(), Some(&47));
}

#[test]
fn batches_of_the_search() {
    assert_eq!(run(15, 4), (47, 1));
    assert_eq!(run(16, 4), (53, 2));
    assert_eq!(run(329, 4), (2207, 2));
    assert_eq!(run(330, 4), (2213, 3));
    assert_eq!(run(100_000, 4), (1_299_709, 3));
}

#[test]
fn later_plans_have_one_sub_interval_per_worker() {
    let mut search = Search::new(2_000_000, 3).unwrap();
    for _ in 0..3 {
        let results = scan_in_reverse(&search);
        assert_eq!(search.absorb(&results), Step::Continue);
    }
    assert_eq!(search.start, 4_870_850);
    let parts = search.plan();
    assert_eq!(parts.len(), 3);
    assert_eq!(parts[0], SubInterval { index: 0, start: 4_870_850, end: 4_870_850 + INTERVAL });
    assert_eq!(parts[1].start, parts[0].end + 1);
    assert_eq!(parts[2].end, 4_870_850 + 3 * INTERVAL + 2);
    let (end, results) = find_next_primes(&search.primes, search.start, search.workers);
    assert_eq!(end, parts[2].end);
    assert_eq!(results, scan_in_reverse(&search));
    assert_eq!(search.absorb(&results), Step::Found(32_452_843));
}
