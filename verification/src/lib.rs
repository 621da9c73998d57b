//! Finding the n-th prime by extending a list of known primes with trial
//! division over successive ranges.
//!
//! The search keeps the list of all primes up to the last number scanned.
//! Each batch cuts the numbers that this list can decide into sub-intervals,
//! scans each of them, and merges the results in the order of the
//! sub-intervals, until the prime of the rank asked for is reached.
//!
//! [`find_nth_prime_parallelized`] runs the whole search. [`Search`] holds its
//! state between two batches, for a caller that scans the sub-intervals of a
//! batch on threads of its own.

pub mod batch;
pub mod controller;
pub mod partition;
pub mod primality;
pub mod prime_seq;
pub mod reach;
pub mod scanner;
pub mod tester;

pub use batch::{find_next_primes, validity_limit, INTERVAL};
pub use controller::{
    find_nth_prime_parallelized, find_nth_prime_with_workers, merge_batch, FindError, Search, Step,
};
pub use partition::{partition, SubInterval};
pub use scanner::find_primes;
pub use tester::is_prime_mem;
