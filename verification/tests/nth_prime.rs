use nth_prime::{find_nth_prime_parallelized, find_nth_prime_with_workers, FindError};

#[test]
fn test_find_nth_prime_parallelized() {
    assert_eq!(find_nth_prime_parallelized(9), Ok(23));
}

#[test]
fn first_rank_is_two() {
    assert_eq!(find_nth_prime_parallelized(1), Ok(2));
}

#[test]
fn seed_ranks_come_from_the_seed() {
    assert_eq!(find_nth_prime_parallelized(2), Ok(3));
    assert_eq!(find_nth_prime_parallelized(3), Ok(5));
    assert_eq!(find_nth_prime_parallelized(4), Ok(7));
}

#[test]
fn rank_four_needs_no_scan() {
    assert_eq!(find_nth_prime_with_workers(4, 0), Ok(7));
    assert_eq!(find_nth_prime_with_workers(4, 1), Ok(7));
}

#[test]
fn first_rank_past_the_seed() {
    assert_eq!(find_nth_prime_parallelized(5), Ok(11));
}

#[test]
fn hundredth_prime() {
    assert_eq!(find_nth_prime_parallelized(100), Ok(541));
}

#[test]
fn thousandth_and_ten_thousandth_prime() {
    assert_eq!(find_nth_prime_parallelized(1000), Ok(7919));
    assert_eq!(find_nth_prime_parallelized(10_000), Ok(104_729));
}

#[test]
fn rank_zero_is_refused() {
    assert_eq!(find_nth_prime_parallelized(0), Err(FindError::InvalidRank));
    assert_eq!(find_nth_prime_with_workers(0, 3), Err(FindError::InvalidRank));
}

#[test]
fn result_does_not_depend_on_the_workers() {
    for workers in [0usize, 1, 2, 3, 7, 64] {
        assert_eq!(find_nth_prime_with_workers(9, workers), Ok(23));
        assert_eq!(find_nth_prime_with_workers(100, workers), Ok(541));
        assert_eq!(find_nth_prime_with_workers(2000, workers), Ok(17_389));
    }
}

#[test]
fn same_rank_gives_the_same_prime() {
    let first = find_nth_prime_parallelized(500);
    let second = find_nth_prime_parallelized(500);
    assert_eq!(first, Ok(3571));
    assert_eq!(first, second);
}

#[test]
fn primes_grow_with_the_rank() {
    let mut previous = 0u64;
    for n in 1u32..=200 {
        let p = find_nth_prime_with_workers(n, 2).unwrap();
        assert!(previous < p);
        previous = p;
    }
    assert_eq!(previous, 1223);
}

#[test]
fn results_are_prime_and_of_the_right_rank() {
    fn trial(n: u64) -> bool {
        n >= 2 && (2..n).take_while(|d| d * d <= n).all(|d| n % d != 0)
    }
    for n in [1u32, 6, 25, 168, 169, 1229] {
        let p = find_nth_prime_with_workers(n, 4).unwrap();
        assert!(trial(p));
        let rank = (2..=p).filter(|c| trial(*c)).count();
        assert_eq!(rank, n as usize);
    }
}
