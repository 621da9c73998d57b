//! Why the search never runs out of known primes: up to any bound from 7 on
//! there is a prime whose square lies beyond the bound, so the primes found so
//! far always allow the next stretch of numbers to be tested.
//!
//! Within 64 bits this takes five primes, each below the square of the one
//! before it: 7, 17, 257, 65537 and 4294967311.

use crate::primality::{is_prime, lemma_prime_by_trial};
use vstd::prelude::*;

verus! {

proof fn lemma_trial_17()
    ensures
        forall|d: int| 2 <= d <= 4 ==> #[trigger] (17int % d) != 0,
{
    assert(forall|d: u64| 2 <= d <= 4 ==> #[trigger] (17u64 % d) != 0) by (bit_vector);
    assert forall|d: int| 2 <= d <= 4 implies #[trigger] (17int % d) != 0 by {
        assert(17u64 % (d as u64) != 0);
    }
}

proof fn lemma_trial_257()
    ensures
        forall|d: int| 2 <= d <= 16 ==> #[trigger] (257int % d) != 0,
{
    assert(forall|d: u64| 2 <= d <= 16 ==> #[trigger] (257u64 % d) != 0) by (bit_vector);
    assert forall|d: int| 2 <= d <= 16 implies #[trigger] (257int % d) != 0 by {
        assert(257u64 % (d as u64) != 0);
    }
}

proof fn lemma_trial_65537()
    ensures
        forall|d: int| 2 <= d <= 256 ==> #[trigger] (65537int % d) != 0,
{
    assert(forall|d: u64| 2 <= d <= 256 ==> #[trigger] (65537u64 % d) != 0) by (bit_vector);
    assert forall|d: int| 2 <= d <= 256 implies #[trigger] (65537int % d) != 0 by {
        assert(65537u64 % (d as u64) != 0);
    }
}

#[verifier::rlimit(40)]
proof fn lemma_trial_4294967311_low()
    ensures
        forall|d: int| 2 <= d <= 16384 ==> #[trigger] (4294967311int % d) != 0,
{
    assert(forall|d: u64| 2 <= d <= 16384 ==> #[trigger] (4294967311u64 % d) != 0)
        by (bit_vector);
    assert forall|d: int| 2 <= d <= 16384 implies #[trigger] (4294967311int % d) != 0 by {
        assert(4294967311u64 % (d as u64) != 0);
    }
}

#[verifier::rlimit(40)]
proof fn lemma_trial_4294967311_mid()
    ensures
        forall|d: int| 16384 < d <= 32768 ==> #[trigger] (4294967311int % d) != 0,
{
    assert(forall|d: u64| 16384 < d <= 32768 ==> #[trigger] (4294967311u64 % d) != 0)
        by (bit_vector);
    assert forall|d: int| 16384 < d <= 32768 implies #[trigger] (4294967311int % d) != 0 by {
        assert(4294967311u64 % (d as u64) != 0);
    }
}

#[verifier::rlimit(40)]
proof fn lemma_trial_4294967311_high()
    ensures
        forall|d: int| 32768 < d <= 65536 ==> #[trigger] (4294967311int % d) != 0,
{
    assert(forall|d: u64| 32768 < d <= 65536 ==> #[trigger] (4294967311u64 % d) != 0)
        by (bit_vector);
    assert forall|d: int| 32768 < d <= 65536 implies #[trigger] (4294967311int % d) != 0 by {
        assert(4294967311u64 % (d as u64) != 0);
    }
}

/// The five primes that the argument steps on.
pub proof fn lemma_landmark_primes()
    ensures
        is_prime(7),
        is_prime(17),
        is_prime(257),
        is_prime(65537),
        is_prime(4294967311),
{
    assert(7int % 2 != 0);
    lemma_prime_by_trial(7, 2);
    lemma_trial_17();
    lemma_prime_by_trial(17, 4);
    lemma_trial_257();
    lemma_prime_by_trial(257, 16);
    lemma_trial_65537();
    lemma_prime_by_trial(65537, 256);
    lemma_trial_4294967311_low();
    lemma_trial_4294967311_mid();
    lemma_trial_4294967311_high();
    lemma_prime_by_trial(4294967311, 65536);
}

/// For every `x` from 7 up to the largest 64-bit value but one there is a
/// prime `p <= x` with `p * p >= x + 2`: trial division by the primes up to
/// `x` decides every number up to `x + 2`.
pub proof fn lemma_reaching_prime(x: int) -> (p: int)
    requires
        7 <= x < u64::MAX,
    ensures
        is_prime(p),
        p <= x,
        p * p >= x + 2,
{
    lemma_landmark_primes();
    if x < 17 {
        7
    } else if x < 257 {
        17
    } else if x < 65537 {
        257
    } else if x < 4294967311 {
        65537
    } else {
        4294967311
    }
}

} // verus!
