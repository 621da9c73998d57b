//! The primality tester: trial division of one candidate by the known primes.

use crate::primality::{is_prime, lemma_small_prime_factor};
use crate::prime_seq::complete_primes;
use vstd::arithmetic::div_mod::lemma_mod_multiples_basic;
use vstd::prelude::*;

verus! {

/// A number whose square is at most `n` is smaller than any number whose
/// square exceeds `n`.
proof fn lemma_square_order(q: int, p: int, n: int)
    requires
        0 <= q,
        0 <= p,
        q * q <= n,
        n < p * p,
    ensures
        q < p,
{
    assert(q < p) by (nonlinear_arith)
        requires
            0 <= q,
            0 <= p,
            q * q < p * p,
    ;
}

/// Decides whether `n` is prime by dividing it by the known primes, in
/// ascending order, up to its square root.
///
/// `primes` has to hold every prime up to its last element, and `n` must not
/// exceed the square of that element. The candidates 0 and 1, which no prime
/// divides, are answered with `true`.
pub fn is_prime_mem(n: u64, primes: &Vec<u64>) -> (r: bool)
    requires
        complete_primes(primes@),
        n <= primes@.last() * primes@.last(),
    ensures
        r == (n < 2 || is_prime(n as int)),
{
    let mut i: usize = 0;
    while i < primes.len()
        invariant
            i <= primes.len(),
            complete_primes(primes@),
            n <= primes@.last() * primes@.last(),
            forall|j: int|
                0 <= j < i ==> (#[trigger] primes@[j]) * primes@[j] <= n && n % primes@[j] != 0,
        decreases primes.len() - i,
    {
        let p: u64 = primes[i];
        let beyond = match p.checked_mul(p) {
            Some(square) => square > n,
            None => true,
        };
        if beyond {
            proof {
                if n >= 2 && !is_prime(n as int) {
                    let q = lemma_small_prime_factor(n as int);
                    lemma_square_order(q, p as int, n as int);
                    assert(primes@.contains(q as u64));
                    let k = choose|k: int| 0 <= k < primes@.len() && primes@[k] == q as u64;
                    assert(k < i);
                    assert(n % primes@[k] != 0);
                }
            }
            return true;
        }
        assert(is_prime(p as int));
        assert(p < n) by (nonlinear_arith)
            requires
                2 <= p,
                p * p <= n,
        ;
        if n > 6 && n % 6 != 5 && n % 6 != 1 {
            proof {
                if n % 2 == 0 {
                    assert(!is_prime(n as int));
                } else {
                    assert(n % 3 == 0);
                    assert(!is_prime(n as int));
                }
            }
            return false;
        }
        if n % p == 0 {
            assert((n as int) % (p as int) == 0);
            return false;
        }
        i += 1;
    }
    proof {
        let last = primes@.last();
        assert(primes@[primes@.len() - 1] == last);
        assert(n == last * last);
        lemma_mod_multiples_basic(last as int, last as int);
    }
    true
}

} // verus!
