//! The ascending sequence of primes: the primes of an interval, the number of
//! primes up to a bound, and the rank of a prime.

use crate::primality::is_prime;
use vstd::prelude::*;

verus! {

/// The primes `p` with `lo <= p <= hi`, in ascending order.
pub open spec fn primes_between(lo: int, hi: int) -> Seq<u64>
    decreases hi - lo + 1,
{
    if hi < lo {
        Seq::empty()
    } else if is_prime(hi) {
        primes_between(lo, hi - 1).push(hi as u64)
    } else {
        primes_between(lo, hi - 1)
    }
}

/// How many primes are at most `x`.
pub open spec fn prime_count(x: int) -> nat
    decreases x,
{
    if x < 2 {
        0
    } else if is_prime(x) {
        prime_count(x - 1) + 1
    } else {
        prime_count(x - 1)
    }
}

/// `p` is the prime of rank `n`, counting from 1: it is prime, and exactly
/// `n` primes are at most `p`.
pub open spec fn is_nth_prime(p: int, n: int) -> bool {
    is_prime(p) && prime_count(p) == n
}

/// A list of known primes that trial division may rely on: not empty,
/// strictly increasing, made of primes, and holding every prime up to its
/// own last element.
pub open spec fn complete_primes(s: Seq<u64>) -> bool {
    &&& s.len() > 0
    &&& forall|i: int| 0 <= i < s.len() ==> is_prime(#[trigger] s[i] as int)
    &&& forall|i: int, j: int| 0 <= i < j < s.len() ==> s[i] < s[j]
    &&& forall|q: int| #[trigger] is_prime(q) && q <= s.last() ==> s.contains(q as u64)
}

/// What `primes_between` holds: primes of the interval only, in strictly
/// increasing order, and all of them.
pub proof fn lemma_primes_between(lo: int, hi: int)
    requires
        0 <= lo,
        hi <= u64::MAX,
    ensures
        forall|i: int|
            0 <= i < primes_between(lo, hi).len() ==> {
                &&& lo <= (#[trigger] primes_between(lo, hi)[i]) <= hi
                &&& is_prime(primes_between(lo, hi)[i] as int)
            },
        forall|i: int, j: int|
            0 <= i < j < primes_between(lo, hi).len() ==> primes_between(lo, hi)[i]
                < primes_between(lo, hi)[j],
        forall|q: int|
            lo <= q <= hi && #[trigger] is_prime(q) ==> primes_between(lo, hi).contains(q as u64),
    decreases hi - lo + 1,
{
    if hi >= lo {
        lemma_primes_between(lo, hi - 1);
        let prev = primes_between(lo, hi - 1);
        let s = primes_between(lo, hi);
        assert forall|q: int| lo <= q <= hi && #[trigger] is_prime(q) implies s.contains(
            q as u64,
        ) by {
            if q == hi {
                assert(s[s.len() - 1] == q as u64);
            } else {
                assert(prev.contains(q as u64));
                let i = choose|i: int| 0 <= i < prev.len() && prev[i] == q as u64;
                assert(s[i] == q as u64);
            }
        }
    }
}

/// An interval's primes are those of its lower part followed by those of its
/// upper part.
pub proof fn lemma_primes_between_split(lo: int, mid: int, hi: int)
    requires
        lo - 1 <= mid <= hi,
    ensures
        primes_between(lo, hi) == primes_between(lo, mid) + primes_between(mid + 1, hi),
    decreases hi - mid,
{
    if hi == mid {
        assert(primes_between(lo, mid) + Seq::<u64>::empty() =~= primes_between(lo, mid));
    } else {
        lemma_primes_between_split(lo, mid, hi - 1);
        let a = primes_between(lo, mid);
        let b = primes_between(mid + 1, hi - 1);
        assert((a + b).push(hi as u64) =~= a + b.push(hi as u64));
    }
}

/// `prime_count` is the length of the list of primes from 2 on.
pub proof fn lemma_prime_count_is_len(x: int)
    ensures
        primes_between(2, x).len() == prime_count(x),
    decreases x,
{
    if x >= 2 {
        lemma_prime_count_is_len(x - 1);
    }
}

/// The number of primes up to a bound does not decrease with the bound.
pub proof fn lemma_prime_count_monotone(x: int, y: int)
    requires
        x <= y,
    ensures
        prime_count(x) <= prime_count(y),
    decreases y - x,
{
    if x < y {
        lemma_prime_count_monotone(x, y - 1);
    }
}

/// The element at index `i` of the list of primes from 2 on has rank `i + 1`.
pub proof fn lemma_rank_of_element(hi: int, i: int)
    requires
        hi <= u64::MAX,
        0 <= i < primes_between(2, hi).len(),
    ensures
        is_nth_prime(primes_between(2, hi)[i] as int, i + 1),
    decreases hi,
{
    if hi >= 2 {
        let prev = primes_between(2, hi - 1);
        if i < prev.len() {
            lemma_rank_of_element(hi - 1, i);
        } else {
            lemma_prime_count_is_len(hi);
        }
    }
}

/// The list of all primes from 2 up to a bound is a list that trial division
/// may rely on.
pub proof fn lemma_primes_upto_complete(x: int)
    requires
        2 <= x <= u64::MAX,
    ensures
        complete_primes(primes_between(2, x)),
        primes_between(2, x).last() <= x,
{
    let s = primes_between(2, x);
    lemma_primes_between(2, x);
    assert(is_prime(2));
    assert(s.contains(2u64));
    assert forall|q: int| #[trigger] is_prime(q) && q <= s.last() implies s.contains(q as u64) by {
        assert(2 <= q <= x);
    }
}

/// Ranks order the primes: a prime of lower rank is the smaller one.
pub proof fn lemma_nth_prime_increasing(p1: int, n1: int, p2: int, n2: int)
    requires
        is_nth_prime(p1, n1),
        is_nth_prime(p2, n2),
        n1 < n2,
    ensures
        p1 < p2,
{
    if p1 >= p2 {
        lemma_prime_count_monotone(p2, p1);
    }
}

/// A rank names one prime only.
pub proof fn lemma_nth_prime_unique(p: int, q: int, n: int)
    requires
        is_nth_prime(p, n),
        is_nth_prime(q, n),
    ensures
        p == q,
{
    if p < q {
        lemma_prime_count_monotone(p, q - 1);
    } else if q < p {
        lemma_prime_count_monotone(q, p - 1);
    }
}

} // verus!
