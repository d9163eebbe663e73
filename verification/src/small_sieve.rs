//! The bootstrap sieve of small primes, provided by the `primal` crate.

use vstd::prelude::*;
use crate::number_theory::{is_prime, prime_count};
use primal::Sieve;

verus! {

/// `primal::Sieve`, a table of the primes up to some bound.
#[verifier::external_type_specification]
#[verifier::external_body]
pub struct ExSieve(Sieve);

/// The largest number a `primal::Sieve` answers queries about
/// (`Sieve::upper_bound`).
pub uninterp spec fn sieve_bound(s: Sieve) -> nat;

/// `primal::Sieve::new(limit)`. Its documentation promises that the sieve
/// knows about every number up to at least `limit`.
#[verifier::external_body]
pub(crate) fn sieve_new(limit: usize) -> (s: Sieve)
    ensures
        sieve_bound(s) >= limit,
{
    Sieve::new(limit)
}

/// A sieve that reaches past `limit`, and at least to 5, so that every
/// number up to `limit` can be asked about.
pub fn sieve_past(limit: usize) -> (s: Sieve)
    requires
        limit < usize::MAX,
    ensures
        sieve_bound(s) > limit,
        sieve_bound(s) >= 5,
{
    sieve_new(if limit < 5 {
        5
    } else {
        limit + 1
    })
}

/// `primal::Sieve::upper_bound`: the largest number the sieve knows about.
#[verifier::external_body]
pub(crate) fn sieve_upper_bound(s: &Sieve) -> (r: usize)
    ensures
        r == sieve_bound(*s),
{
    s.upper_bound()
}

/// `primal::Sieve::is_prime(n)`, which panics beyond the sieve's bound and
/// otherwise says whether `n` is prime.
#[verifier::external_body]
pub(crate) fn sieve_is_prime(s: &Sieve, n: usize) -> (r: bool)
    requires
        n <= sieve_bound(*s),
    ensures
        r == is_prime(n as nat),
{
    s.is_prime(n)
}

/// `primal::Sieve::prime_pi(n)`: the primes up to and including `n`. It
/// panics beyond the sieve's bound, and can index past its last segment at
/// the bound itself, so `n` stays below the bound.
#[verifier::external_body]
pub(crate) fn sieve_prime_pi(s: &Sieve, n: usize) -> (r: usize)
    requires
        n < sieve_bound(*s),
    ensures
        r == prime_count(n as nat),
{
    s.prime_pi(n)
}

/// `primal::Sieve::primes_from(n)`, collected: the primes from `n` on, in
/// increasing order, every one up to the sieve's bound included. Past the
/// bound it yields none but 2, 3 and 5, which it hands out without looking at
/// the bound. It panics beyond the bound, and can index past its last
/// segment at the bound itself, so `n` stays below the bound.
#[verifier::external_body]
pub(crate) fn sieve_primes_from(s: &Sieve, n: usize) -> (r: Vec<usize>)
    requires
        n < sieve_bound(*s),
    ensures
        forall|i: int, j: int| 0 <= i < j < r.len() ==> r@[i] < r@[j],
        forall|i: int|
            0 <= i < r.len() ==> is_prime(#[trigger] r@[i] as nat) && n <= r@[i] && (r@[i] <= sieve_bound(*s)
                || r@[i] <= 5),
        forall|q: usize|
            n <= q <= sieve_bound(*s) && is_prime(q as nat) ==> #[trigger] r@.contains(q),
{
    s.primes_from(n).collect()
}

/// No prime lies strictly between `lo` and `hi` when `lo` is the last prime
/// taken from a complete increasing list of the primes from `from` (or
/// `from - 1` before the first) and `hi` is below the next one.
pub proof fn lemma_no_prime_gap(primes: Seq<usize>, bound: int, from: int, i: int, lo: int, hi: int)
    requires
        forall|a: int, b: int| 0 <= a < b < primes.len() ==> primes[a] < primes[b],
        forall|a: int| 0 <= a < primes.len() ==> is_prime(#[trigger] primes[a] as nat) && from <= primes[a],
        forall|q: usize| from <= q <= bound && is_prime(q as nat) ==> #[trigger] primes.contains(q),
        from >= 1,
        0 <= i <= primes.len(),
        i == 0 ==> lo == from - 1,
        i > 0 ==> lo == primes[i - 1],
        0 <= hi <= bound,
        hi <= usize::MAX,
        i < primes.len() ==> hi < primes[i],
    ensures
        forall|q: int| lo < q <= hi ==> !#[trigger] is_prime(q as nat),
{
    assert forall|q: int| lo < q <= hi implies !#[trigger] is_prime(q as nat) by {
        if is_prime(q as nat) {
            if i > 0 {
                assert(is_prime(primes[i - 1] as nat) && from <= primes[i - 1]);
            }
            assert(q >= from);
            let qq = q as usize;
            assert(qq as int == q);
            assert(primes.contains(qq));
            let k = choose|k: int| 0 <= k < primes.len() && primes[k] == qq;
            if k < i {
                if k < i - 1 {
                    assert(primes[k] < primes[i - 1]);
                }
            } else if k > i {
                assert(primes[i] < primes[k]);
            }
        }
    }
}

} // verus!
