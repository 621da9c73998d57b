//! The range scanner: the primes of a closed interval, found by testing its
//! odd numbers against the known primes.

use crate::primality::{is_prime, lemma_even_not_prime};
use crate::prime_seq::{
    complete_primes, lemma_primes_between, lemma_primes_between_split, primes_between,
};
use crate::tester::is_prime_mem;
use vstd::prelude::*;

verus! {

/// What a scan of `[start, end]` yields. Only odd candidates are tested, so
/// 2 is never reported; the tester lets 1 pass, so an interval that holds 1
/// reports it first. From 3 on the result is the interval's primes.
pub open spec fn scan_result(start: int, end: int) -> Seq<u64> {
    let unit = if start <= 1 <= end {
        seq![1u64]
    } else {
        Seq::empty()
    };
    unit + primes_between(if start < 3 { 3 } else { start }, end)
}

/// From 3 on, a scan yields exactly the primes of the interval.
pub proof fn lemma_scan_is_primes(start: int, end: int)
    requires
        3 <= start,
    ensures
        scan_result(start, end) == primes_between(start, end),
{
    assert(Seq::<u64>::empty() + primes_between(start, end) =~= primes_between(start, end));
}

/// An interval that ends below its start, or that holds nothing but its own
/// even start, yields nothing.
pub proof fn lemma_scan_nothing(start: int, upto: int)
    requires
        0 <= start,
        upto < start || (upto == start && start % 2 == 0),
    ensures
        scan_result(start, upto) == Seq::<u64>::empty(),
{
    let lo = if start < 3 { 3 } else { start };
    if upto >= lo {
        lemma_even_not_prime(upto);
        assert(primes_between(lo, upto - 1) == Seq::<u64>::empty());
    }
    assert(scan_result(start, upto) =~= Seq::<u64>::empty());
}

/// What a scan yields is strictly increasing.
pub proof fn lemma_scan_increasing(start: int, end: int)
    requires
        0 <= start,
        end <= u64::MAX,
    ensures
        forall|i: int, j: int|
            0 <= i < j < scan_result(start, end).len() ==> scan_result(start, end)[i]
                < scan_result(start, end)[j],
{
    let lo = if start < 3 { 3 } else { start };
    let found = primes_between(lo, end);
    let all = scan_result(start, end);
    lemma_primes_between(lo, end);
    assert forall|i: int, j: int| 0 <= i < j < all.len() implies all[i] < all[j] by {
        if start <= 1 <= end {
            assert(all[j] == found[j - 1]);
            if i > 0 {
                assert(all[i] == found[i - 1]);
            }
        } else {
            assert(all[i] == found[i]);
            assert(all[j] == found[j]);
        }
    }
}

/// Scanning an interval in two consecutive parts yields what scanning it in
/// one piece yields.
pub proof fn lemma_scan_concat(start: int, mid: int, end: int)
    requires
        0 <= start,
        start - 1 <= mid <= end,
    ensures
        scan_result(start, mid) + scan_result(mid + 1, end) == scan_result(start, end),
{
    let lo = if start < 3 { 3 } else { start };
    let lo2 = if mid + 1 < 3 { 3 } else { mid + 1 };
    if mid >= lo - 1 {
        lemma_primes_between_split(lo, mid, end);
    } else {
        assert(primes_between(lo, mid) == Seq::<u64>::empty());
        assert(lo2 == lo);
    }
    assert(scan_result(start, mid) + scan_result(mid + 1, end) =~= scan_result(start, end));
}

/// Extending a scanned interval by the odd number `c` and the even number
/// after it adds `c` if it is 1 or prime, and nothing else.
proof fn lemma_scan_step(start: int, c: int)
    requires
        0 <= start <= c,
        c % 2 == 1,
    ensures
        scan_result(start, c) == if c < 2 || is_prime(c) {
            scan_result(start, c - 1).push(c as u64)
        } else {
            scan_result(start, c - 1)
        },
        scan_result(start, c + 1) == scan_result(start, c),
{
    let lo = if start < 3 { 3 } else { start };
    if c == 1 {
        assert(primes_between(lo, 0) == Seq::<u64>::empty());
        assert(primes_between(lo, 1) == Seq::<u64>::empty());
        assert(primes_between(lo, 2) == Seq::<u64>::empty());
        assert(scan_result(start, 1) =~= scan_result(start, 0).push(1u64));
        assert(scan_result(start, 2) =~= scan_result(start, 1));
    } else {
        assert(c >= 3);
        let unit = if start <= 1 {
            seq![1u64]
        } else {
            Seq::empty()
        };
        if is_prime(c) {
            assert(unit + primes_between(lo, c - 1).push(c as u64) =~= (unit + primes_between(
                lo,
                c - 1,
            )).push(c as u64));
        }
        lemma_even_not_prime(c + 1);
    }
}

/// The primes of `[start, end]`, ascending, found by testing each odd number
/// of the interval against the known primes.
///
/// `primes` has to hold every prime up to its last element, and `end` must not
/// exceed the square of that element.
pub fn find_primes(start: u64, end: u64, primes: &Vec<u64>) -> (res: Vec<u64>)
    requires
        complete_primes(primes@),
        end <= primes@.last() * primes@.last(),
    ensures
        res@ == scan_result(start as int, end as int),
{
    let mut res: Vec<u64> = Vec::new();
    if start > end {
        proof {
            lemma_scan_nothing(start as int, end as int);
        }
        return res;
    }
    let mut p: u64 = if start % 2 == 0 {
        start + 1
    } else {
        start
    };
    proof {
        lemma_scan_nothing(start as int, p - 1);
    }
    while p <= end
        invariant_except_break
            res@ == scan_result(start as int, if p - 1 < end { p - 1 } else { end as int }),
            p % 2 == 1,
        invariant
            start <= end,
            start <= p,
            complete_primes(primes@),
            end <= primes@.last() * primes@.last(),
        ensures
            res@ == scan_result(start as int, end as int),
        decreases end + 2 - p,
    {
        proof {
            lemma_scan_step(start as int, p as int);
        }
        if is_prime_mem(p, primes) {
            res.push(p);
        }
        if p > u64::MAX - 2 {
            break ;
        }
        p += 2;
    }
    res
}

} // verus!
