//! What it means for an integer to be prime, and the facts about divisors
//! that trial division rests on.

use vstd::arithmetic::div_mod::{lemma_fundamental_div_mod, lemma_mod_multiples_basic};
use vstd::prelude::*;

verus! {

/// `n` is prime: at least 2, and no integer strictly between 1 and `n` divides it.
pub open spec fn is_prime(n: int) -> bool {
    &&& n >= 2
    &&& forall|d: int| 2 <= d < n ==> #[trigger] (n % d) != 0
}

/// A proper divisor `d` of `n` comes with a cofactor `n / d`, which is a
/// proper divisor of `n` as well.
pub proof fn lemma_cofactor(n: int, d: int)
    requires
        2 <= d < n,
        n % d == 0,
    ensures
        n == d * (n / d),
        2 <= n / d < n,
        n % (n / d) == 0,
{
    let e = n / d;
    lemma_fundamental_div_mod(n, d);
    assert(e >= 2 && e < n) by (nonlinear_arith)
        requires
            n == d * e,
            2 <= d < n,
    ;
    lemma_mod_multiples_basic(d, e);
}

/// Divisibility is transitive: a divisor of a divisor of `n` divides `n`.
pub proof fn lemma_divides_transitive(q: int, d: int, n: int)
    requires
        q > 0,
        d > 0,
        d % q == 0,
        n % d == 0,
    ensures
        n % q == 0,
{
    lemma_fundamental_div_mod(d, q);
    lemma_fundamental_div_mod(n, d);
    let f = d / q;
    let e = n / d;
    assert(n == (f * e) * q) by (nonlinear_arith)
        requires
            d == q * f,
            n == d * e,
    ;
    lemma_mod_multiples_basic(f * e, q);
}

/// Every integer from 2 on has a prime divisor.
pub proof fn lemma_prime_factor(n: int) -> (q: int)
    requires
        n >= 2,
    ensures
        is_prime(q),
        q <= n,
        n % q == 0,
    decreases n,
{
    if is_prime(n) {
        lemma_mod_multiples_basic(1, n);
        n
    } else {
        let d = choose|d: int| 2 <= d < n && #[trigger] (n % d) == 0;
        let q = lemma_prime_factor(d);
        lemma_divides_transitive(q, d, n);
        q
    }
}

/// A composite number has a prime divisor whose square does not exceed it.
pub proof fn lemma_small_prime_factor(n: int) -> (q: int)
    requires
        n >= 2,
        !is_prime(n),
    ensures
        is_prime(q),
        q * q <= n,
        n % q == 0,
{
    let d = choose|d: int| 2 <= d < n && #[trigger] (n % d) == 0;
    let e = n / d;
    lemma_cofactor(n, d);
    let a = if d <= e { d } else { e };
    assert(a * a <= n) by (nonlinear_arith)
        requires
            n == d * e,
            2 <= d,
            2 <= e,
            a == if d <= e { d } else { e },
    ;
    let q = lemma_prime_factor(a);
    lemma_divides_transitive(q, a, n);
    assert(q * q <= n) by (nonlinear_arith)
        requires
            2 <= q <= a,
            a * a <= n,
    ;
    q
}

/// Trial division decides primality: a number from 2 on that no integer
/// from 2 up to `bound` divides is prime, once `bound + 1` squared exceeds it.
pub proof fn lemma_prime_by_trial(n: int, bound: int)
    requires
        n >= 2,
        bound >= 1,
        (bound + 1) * (bound + 1) > n,
        forall|d: int| 2 <= d <= bound ==> #[trigger] (n % d) != 0,
    ensures
        is_prime(n),
{
    if !is_prime(n) {
        let q = lemma_small_prime_factor(n);
        assert(q <= bound) by (nonlinear_arith)
            requires
                2 <= q,
                q * q <= n,
                (bound + 1) * (bound + 1) > n,
                bound >= 1,
        ;
        assert(n % q != 0);
    }
}

/// An even number above 2 is not prime.
pub proof fn lemma_even_not_prime(n: int)
    requires
        n > 2,
        n % 2 == 0,
    ensures
        !is_prime(n),
{
    assert(n % 2 == 0);
}

} // verus!
