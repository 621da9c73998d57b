use nth_prime::{
    find_next_primes, find_primes, is_prime_mem, merge_batch, partition, validity_limit,
    SubInterval, INTERVAL,
};
use std::collections::HashMap;

fn seed() -> Vec<u64> {
    vec![2, 3, 5, 7]
}

#[test]
fn tester_decides_up_to_the_square_of_the_last_prime() {
    let primes = seed();
    let expected = [
        11u64, 13, 17, 19, 23, 29, 31, 37, 41, 43, 47,
    ];
    for n in 8u64..=49 {
        assert_eq!(is_prime_mem(n, &primes), expected.contains(&n), "{}", n);
    }
}

#[test]
fn tester_on_small_candidates() {
    let primes = seed();
    assert!(is_prime_mem(0, &primes));
    assert!(is_prime_mem(1, &primes));
    assert!(is_prime_mem(2, &primes));
    assert!(is_prime_mem(3, &primes));
    assert!(!is_prime_mem(4, &primes));
    assert!(is_prime_mem(5, &primes));
    assert!(!is_prime_mem(6, &primes));
    assert!(is_prime_mem(7, &primes));
}

#[test]
fn tester_rejects_the_square_of_the_last_prime() {
    assert!(!is_prime_mem(49, &seed()));
    assert!(!is_prime_mem(9, &vec![2, 3]));
    assert!(!is_prime_mem(4, &vec![2]));
    assert!(is_prime_mem(3, &vec![2]));
}

#[test]
fn tester_with_a_large_known_prime() {
    let primes: Vec<u64> = find_primes(3, 70_000, &{
        let mut known = seed();
        let more = find_primes(8, 49, &known);
        known.extend(more);
        let more = find_primes(50, 2209, &known);
        known.extend(more);
        known
    });
    let mut known = vec![2u64];
    known.extend(primes);
    assert_eq!(*known.last().unwrap(), 69_997);
    assert!(is_prime_mem(4_294_967_311, &known));
    assert!(!is_prime_mem(4_294_967_297, &known));
    assert!(!is_prime_mem(4_294_967_309, &known));
}

#[test]
fn scanner_finds_the_primes_of_an_interval() {
    assert_eq!(find_primes(8, 49, &seed()), vec![11, 13, 17, 19, 23, 29, 31, 37, 41, 43, 47]);
    assert_eq!(find_primes(9, 23, &seed()), vec![11, 13, 17, 19, 23]);
    assert_eq!(find_primes(11, 11, &seed()), vec![11]);
    assert_eq!(find_primes(24, 28, &seed()), Vec::<u64>::new());
}

#[test]
fn scanner_on_an_empty_interval() {
    assert_eq!(find_primes(20, 10, &seed()), Vec::<u64>::new());
    assert_eq!(find_primes(12, 12, &seed()), Vec::<u64>::new());
}

#[test]
fn scanner_tests_odd_numbers_only() {
    assert_eq!(find_primes(2, 10, &seed()), vec![3, 5, 7]);
    assert_eq!(find_primes(0, 10, &seed()), vec![1, 3, 5, 7]);
    assert_eq!(find_primes(1, 1, &seed()), vec![1]);
    assert_eq!(find_primes(0, 0, &seed()), Vec::<u64>::new());
    assert_eq!(find_primes(3, 3, &seed()), vec![3]);
}

#[test]
fn scanner_in_parts_equals_scanner_in_one_piece() {
    let whole = find_primes(8, 49, &seed());
    for mid in 7u64..=49 {
        let mut joined = find_primes(8, mid, &seed());
        joined.extend(find_primes(mid + 1, 49, &seed()));
        assert_eq!(joined, whole);
    }
}

#[test]
fn partition_gives_one_sub_interval_per_worker() {
    let parts = partition(8, 3, 10, 1000);
    assert_eq!(
        parts,
        vec![
            SubInterval { index: 0, start: 8, end: 18 },
            SubInterval { index: 1, start: 19, end: 29 },
            SubInterval { index: 2, start: 30, end: 40 },
        ]
    );
}

#[test]
fn partition_cuts_the_last_sub_interval_at_the_bound() {
    let parts = partition(8, 4, 10, 25);
    assert_eq!(
        parts,
        vec![
            SubInterval { index: 0, start: 8, end: 18 },
            SubInterval { index: 1, start: 19, end: 25 },
        ]
    );
    let parts = partition(8, 4, 10, 18);
    assert_eq!(parts, vec![SubInterval { index: 0, start: 8, end: 18 }]);
    let parts = partition(8, 4, 10, 19);
    assert_eq!(parts, vec![SubInterval { index: 0, start: 8, end: 18 }]);
    let parts = partition(8, 4, 10, 20);
    assert_eq!(
        parts,
        vec![
            SubInterval { index: 0, start: 8, end: 18 },
            SubInterval { index: 1, start: 19, end: 20 },
        ]
    );
}

#[test]
fn partition_may_be_empty() {
    assert_eq!(partition(8, 0, 10, 1000), Vec::<SubInterval>::new());
    assert_eq!(partition(50, 4, 10, 50), Vec::<SubInterval>::new());
    assert_eq!(partition(51, 4, 10, 50), Vec::<SubInterval>::new());
}

#[test]
fn partition_near_the_largest_value() {
    let parts = partition(u64::MAX - 5, 3, u64::MAX, u64::MAX);
    assert_eq!(parts, vec![SubInterval { index: 0, start: u64::MAX - 5, end: u64::MAX }]);
    let parts = partition(u64::MAX - 5, 3, 1, u64::MAX);
    assert_eq!(
        parts,
        vec![
            SubInterval { index: 0, start: u64::MAX - 5, end: u64::MAX - 4 },
            SubInterval { index: 1, start: u64::MAX - 3, end: u64::MAX - 2 },
            SubInterval { index: 2, start: u64::MAX - 1, end: u64::MAX },
        ]
    );
}

#[test]
fn partition_is_contiguous_and_disjoint() {
    for workers in 0usize..6 {
        for width in [0u64, 1, 3, 10] {
            for upper in 0u64..40 {
                let parts = partition(8, workers, width, upper);
                assert!(parts.len() <= workers);
                for (i, part) in parts.iter().enumerate() {
                    assert_eq!(part.index, i);
                    assert!(part.start <= part.end);
                    assert!(part.end <= upper);
                    if i == 0 {
                        assert_eq!(part.start, 8);
                    } else {
                        assert_eq!(part.start, parts[i - 1].end + 1);
                    }
                }
                if parts.len() < workers {
                    let next = parts.last().map_or(8, |p| p.end + 1);
                    assert!(next >= upper);
                }
            }
        }
    }
}

#[test]
fn validity_limit_is_the_square_of_the_last_prime() {
    assert_eq!(validity_limit(&seed()), 49);
    assert_eq!(validity_limit(&vec![2]), 4);
    assert_eq!(validity_limit(&vec![4_294_967_311]), u64::MAX);
}

#[test]
fn interval_width() {
    assert_eq!(INTERVAL, 10_000_000);
}

#[test]
fn batch_from_the_seed() {
    let (end, results) = find_next_primes(&seed(), 8, 4);
    assert_eq!(end, 49);
    assert_eq!(results.len(), 1);
    assert_eq!(results[&0], vec![11, 13, 17, 19, 23, 29, 31, 37, 41, 43, 47]);
}

#[test]
fn batch_with_nothing_to_scan() {
    let (end, results) = find_next_primes(&seed(), 8, 0);
    assert_eq!(end, 7);
    assert!(results.is_empty());
    let (end, results) = find_next_primes(&seed(), 49, 4);
    assert_eq!(end, 48);
    assert!(results.is_empty());
    let (end, results) = find_next_primes(&seed(), 60, 4);
    assert_eq!(end, 59);
    assert!(results.is_empty());
}

#[test]
fn batch_with_several_sub_intervals() {
    let mut known = seed();
    known.extend(find_primes(8, 49, &seed()));
    let more = find_primes(50, 2209, &known);
    known.extend(more);
    let more = find_primes(2210, 30_000, &known);
    known.extend(more);
    assert_eq!(*known.last().unwrap(), 29_989);
    let bound = validity_limit(&known);
    assert_eq!(bound, 29_989 * 29_989);
    let (end, results) = find_next_primes(&known, 30_001, 3);
    assert_eq!(results.len(), 3);
    assert_eq!(end, 30_001 + 3 * (INTERVAL + 1) - 1);
    let mut merged = Vec::new();
    for i in 0..3usize {
        merged.extend(results[&i].iter().copied());
    }
    assert_eq!(merged, find_primes(30_001, end, &known));
    assert_eq!(merged[0], 30_011);
    assert!(merged.windows(2).all(|w| w[0] < w[1]));
    assert!(results[&0].iter().all(|p| *p <= 30_001 + INTERVAL));
    assert!(results[&1].iter().all(|p| *p > 30_001 + INTERVAL));
}

#[test]
fn merge_appends_until_the_rank_is_reached() {
    let mut results: HashMap<usize, Vec<u64>> = HashMap::new();
    results.insert(2, vec![23, 29]);
    results.insert(0, vec![11, 13]);
    results.insert(1, vec![17, 19]);
    let mut primes = seed();
    assert_eq!(merge_batch(&mut primes, 9, &results), Some(23));
    assert_eq!(primes, vec![2, 3, 5, 7, 11, 13, 17, 19]);
    let mut primes = seed();
    assert_eq!(merge_batch(&mut primes, 8, &results), Some(19));
    assert_eq!(primes, vec![2, 3, 5, 7, 11, 13]);
    let mut primes = seed();
    assert_eq!(merge_batch(&mut primes, 5, &results), Some(11));
    assert_eq!(primes, seed());
    let mut primes = seed();
    assert_eq!(merge_batch(&mut primes, 10, &results), Some(29));
    assert_eq!(primes, vec![2, 3, 5, 7, 11, 13, 17, 19]);
}

#[test]
fn merge_appends_everything_when_the_rank_is_not_reached() {
    let mut results: HashMap<usize, Vec<u64>> = HashMap::new();
    results.insert(1, vec![17, 19]);
    results.insert(0, vec![11, 13]);
    let mut primes = seed();
    assert_eq!(merge_batch(&mut primes, 9, &results), None);
    assert_eq!(primes, vec![2, 3, 5, 7, 11, 13, 17, 19]);
    let mut primes = seed();
    assert_eq!(merge_batch(&mut primes, 9, &HashMap::new()), None);
    assert_eq!(primes, seed());
}

#[test]
fn merge_passes_over_empty_results() {
    let mut results: HashMap<usize, Vec<u64>> = HashMap::new();
    results.insert(0, vec![]);
    results.insert(1, vec![11]);
    results.insert(2, vec![]);
    results.insert(3, vec![13, 17]);
    let mut primes = seed();
    assert_eq!(merge_batch(&mut primes, 6, &results), Some(13));
    assert_eq!(primes, vec![2, 3, 5, 7, 11]);
}
