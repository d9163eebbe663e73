//! Arithmetic tables of the combinatorial counters: least prime factors,
//! the Moebius function and pi(n) up to a bound.

use vstd::prelude::*;
use crate::number_theory::{is_prime, prime_count, lemma_divides_transitive};
use crate::small_sieve::{sieve_bound, sieve_is_prime};
use primal::Sieve;

verus! {

/// The entry of the least-prime-factor table for a number without a
/// divisor in the range looked at.
pub const NO_FACTOR: i32 = 0x7fff_ffff;

/// The least divisor of `m` in `[2, k]`, or `NO_FACTOR` when there is none.
pub open spec fn least_divisor_upto(m: int, k: int) -> int
    decreases k,
{
    if k < 2 {
        NO_FACTOR as int
    } else {
        let prev = least_divisor_upto(m, k - 1);
        if prev != NO_FACTOR as int {
            prev
        } else if m % k == 0 {
            k
        } else {
            NO_FACTOR as int
        }
    }
}

/// The least prime factor of `m >= 2` (its least divisor from 2 up),
/// `NO_FACTOR` for 1 and 0 for 0.
pub open spec fn least_prime_factor(m: int) -> int {
    if m == 0 {
        0
    } else {
        least_divisor_upto(m, m)
    }
}

/// What `least_divisor_upto` finds: a divisor in `[2, k]` below which no
/// other divisor lies, or nothing when `[2, k]` holds no divisor.
pub proof fn lemma_least_divisor_upto(m: int, k: int)
    requires
        k < NO_FACTOR,
    ensures
        least_divisor_upto(m, k) != NO_FACTOR ==> {
            let d = least_divisor_upto(m, k);
            &&& 2 <= d <= k
            &&& m % d == 0
            &&& forall|e: int| 2 <= e < d ==> #[trigger] (m % e) != 0
        },
        least_divisor_upto(m, k) == NO_FACTOR ==> forall|e: int| 2 <= e <= k ==> #[trigger] (m % e) != 0,
    decreases k,
{
    if k >= 2 {
        lemma_least_divisor_upto(m, k - 1);
    }
}

/// Beyond `m` no divisor of `m >= 1` is found.
proof fn lemma_least_divisor_stable(m: int, k: int)
    requires
        1 <= m <= k,
    ensures
        least_divisor_upto(m, k) == least_divisor_upto(m, m),
    decreases k,
{
    if k > m {
        lemma_least_divisor_stable(m, k - 1);
        vstd::arithmetic::div_mod::lemma_small_mod(m as nat, k as nat);
    }
}

/// The least prime factor of `m >= 2` is a prime divisor of `m`, and no
/// smaller number from 2 up divides `m`.
pub proof fn lemma_least_prime_factor(m: int)
    requires
        2 <= m < NO_FACTOR,
    ensures
        2 <= least_prime_factor(m) <= m,
        m % least_prime_factor(m) == 0,
        is_prime(least_prime_factor(m) as nat),
        forall|e: int| 2 <= e < least_prime_factor(m) ==> #[trigger] (m % e) != 0,
{
    lemma_least_divisor_upto(m, m);
    vstd::arithmetic::div_mod::lemma_mod_self_0(m);
    let d = least_divisor_upto(m, m);
    assert(d != NO_FACTOR as int);
    assert forall|e: nat| 2 <= e < d implies #[trigger] ((m as nat) % e) != 0 by {
        assert(m % (e as int) != 0);
    }
    crate::number_theory::lemma_least_divisor_prime(m as nat, d as nat);
}

/// Two multiples of `p` are at least `p` apart.
pub proof fn lemma_multiples_apart(k: int, m: int, p: int)
    requires
        p >= 1,
        k >= 0,
        m >= 0,
        k % p == 0,
        m % p == 0,
        m < k,
    ensures
        k >= m + p,
{
    vstd::arithmetic::div_mod::lemma_fundamental_div_mod(k, p);
    vstd::arithmetic::div_mod::lemma_fundamental_div_mod(m, p);
    assert(k >= m + p) by (nonlinear_arith)
        requires
            k == p * (k / p),
            m == p * (m / p),
            k > m,
            p >= 1,
    ;
}

/// The table of least prime factors of `0..=limit` (`NO_FACTOR` for 1, 0 for
/// 0), by crossing off the multiples of each prime in turn.
pub fn generate_lpf(limit: usize) -> (lpf: Vec<i32>)
    requires
        limit < NO_FACTOR,
    ensures
        lpf.len() == limit + 1,
        forall|m: int| 0 <= m <= limit ==> #[trigger] lpf@[m] == least_prime_factor(m),
{
    let mut lpf: Vec<i32> = Vec::new();
    let mut i: usize = 0;
    while i <= limit
        invariant
            limit < NO_FACTOR,
            i <= limit + 1,
            lpf.len() == i,
            forall|m: int| 0 <= m < i ==> #[trigger] lpf@[m] == NO_FACTOR,
        decreases limit + 1 - i,
    {
        lpf.push(NO_FACTOR);
        i += 1;
    }
    lpf.set(0, 0);
    let mut p: usize = 2;
    while p <= limit
        invariant
            limit < NO_FACTOR,
            2 <= p <= limit + 2,
            lpf.len() == limit + 1,
            lpf@[0] == 0,
            forall|m: int| 1 <= m <= limit ==> #[trigger] lpf@[m] == least_divisor_upto(m, p - 1),
        decreases limit + 1 - p,
    {
        let ghost prev = lpf@;
        if lpf[p] == NO_FACTOR {
            // p has no divisor in [2, p - 1]: it is prime
            let mut m: usize = p;
            let mut more = true;
            proof {
                assert forall|k: int| 1 <= k <= limit implies #[trigger] lpf@[k] == (if k % (p as int) == 0 && k < m {
                    least_divisor_upto(k, p as int)
                } else {
                    prev[k] as int
                }) by {
                    if k < p {
                        vstd::arithmetic::div_mod::lemma_small_mod(k as nat, p as nat);
                    }
                }
            }
            while more
                invariant
                    limit < NO_FACTOR,
                    2 <= p <= limit,
                    p <= m <= limit,
                    m % p == 0,
                    lpf.len() == limit + 1,
                    lpf@[0] == 0,
                    prev[p as int] == NO_FACTOR,
                    forall|k: int| 1 <= k <= limit ==> #[trigger] prev[k] == least_divisor_upto(k, p - 1),
                    more ==> forall|k: int|
                        1 <= k <= limit ==> #[trigger] lpf@[k] == (if k % (p as int) == 0 && k < m {
                            least_divisor_upto(k, p as int)
                        } else {
                            prev[k] as int
                        }),
                    !more ==> forall|k: int| 1 <= k <= limit ==> #[trigger] lpf@[k] == least_divisor_upto(k, p as int),
                decreases limit - m, if more { 1int } else { 0int },
            {
                let ghost before = lpf@;
                if lpf[m] == NO_FACTOR {
                    lpf.set(m, p as i32);
                }
                if limit - m >= p {
                    proof {
                        vstd::arithmetic::div_mod::lemma_mod_add_multiples_vanish(m as int, p as int);
                        assert forall|k: int| 1 <= k <= limit implies #[trigger] lpf@[k] == (if k % (p as int) == 0 && k < m + p {
                            least_divisor_upto(k, p as int)
                        } else {
                            prev[k] as int
                        }) by {
                            assert(before[k] == (if k % (p as int) == 0 && k < m {
                                least_divisor_upto(k, p as int)
                            } else {
                                prev[k] as int
                            }));
                            if k % (p as int) == 0 && m < k {
                                lemma_multiples_apart(k, m as int, p as int);
                            }
                        }
                    }
                    m += p;
                } else {
                    proof {
                        assert forall|k: int| 1 <= k <= limit implies #[trigger] lpf@[k] == least_divisor_upto(k, p as int) by {
                            if k % (p as int) == 0 && k > m {
                                // the next multiple of p is beyond limit
                                lemma_multiples_apart(k, m as int, p as int);
                            }
                        }
                    }
                    more = false;
                }
            }
        } else {
            proof {
                // p is composite: a smaller divisor of p divides every multiple of p
                let d = least_divisor_upto(p as int, p - 1);
                lemma_least_divisor_upto(p as int, p - 1);
                assert forall|k: int| 1 <= k <= limit implies #[trigger] lpf@[k] == least_divisor_upto(k, p as int) by {
                    if least_divisor_upto(k, p - 1) == NO_FACTOR && k % (p as int) == 0 {
                        lemma_least_divisor_upto(k, p - 1);
                        lemma_divides_transitive(d, p as int, k);
                        assert(k % d != 0);
                    }
                }
            }
        }
        p += 1;
    }
    proof {
        assert forall|m: int| 0 <= m <= limit implies #[trigger] lpf@[m] == least_prime_factor(m) by {
            if m >= 1 {
                if p - 1 >= m {
                    lemma_least_divisor_stable(m, p - 1);
                } else {
                    // p - 1 == limit >= m, or limit < 2
                    lemma_least_divisor_stable(m, m);
                }
            }
        }
    }
    lpf
}


/// The Moebius function over the primes up to `k`: the product, over the
/// primes `q <= k`, of 0 when `q * q` divides `m`, -1 when `q` divides `m`,
/// and 1 otherwise.
pub open spec fn mobius_upto(m: int, k: int) -> int
    decreases k,
{
    if k < 2 {
        1
    } else {
        let prev = mobius_upto(m, k - 1);
        if !is_prime(k as nat) {
            prev
        } else if m % (k * k) == 0 {
            0
        } else if m % k == 0 {
            -prev
        } else {
            prev
        }
    }
}

/// The Moebius function: 0 when the square of a prime divides `m`, else
/// `(-1)^r` for `m` with `r` prime factors; 0 at 0.
pub open spec fn mobius(m: int) -> int {
    if m == 0 {
        0
    } else {
        mobius_upto(m, m)
    }
}

proof fn lemma_mobius_upto_range(m: int, k: int)
    ensures
        -1 <= mobius_upto(m, k) <= 1,
    decreases k,
{
    if k >= 2 {
        lemma_mobius_upto_range(m, k - 1);
    }
}

/// `mu` takes the values -1, 0 and 1 only.
pub proof fn lemma_mobius_range_pub(m: int)
    ensures
        -1 <= mobius(m) <= 1,
{
    if m != 0 {
        lemma_mobius_upto_range(m, m);
    }
}

/// Primes beyond `m >= 1` change nothing.
pub proof fn lemma_mobius_stable(m: int, k: int)
    requires
        1 <= m <= k,
    ensures
        mobius_upto(m, k) == mobius_upto(m, m),
    decreases k,
{
    if k > m {
        lemma_mobius_stable(m, k - 1);
        vstd::arithmetic::div_mod::lemma_small_mod(m as nat, k as nat);
        assert(k * k > m) by (nonlinear_arith)
            requires
                k > m,
                m >= 1,
        ;
        vstd::arithmetic::div_mod::lemma_small_mod(m as nat, (k * k) as nat);
    }
}

/// `q` has a prime factor in `[2, k]` below itself.
pub open spec fn has_prime_factor_below(q: int, k: int) -> bool {
    exists|d: int| 2 <= d <= k && d < q && is_prime(d as nat) && #[trigger] (q % d) == 0
}

/// `p >= 2` has no prime factor below itself exactly when it is prime.
proof fn lemma_prime_iff_unmarked(p: int)
    requires
        p >= 2,
    ensures
        is_prime(p as nat) <==> !has_prime_factor_below(p, p - 1),
{
    if is_prime(p as nat) {
        if has_prime_factor_below(p, p - 1) {
            let d = choose|d: int| 2 <= d <= p - 1 && d < p && is_prime(d as nat) && #[trigger] (p % d) == 0;
            assert((p as nat) % (d as nat) != 0);
        }
    } else {
        let d = crate::number_theory::lemma_composite_has_small_prime_factor(p as nat);
        assert(d < p) by (nonlinear_arith)
            requires
                d * d <= p,
                d >= 2,
        ;
        assert(p % (d as int) == 0);
    }
}

/// A positive multiple of `d` is at least `d`.
proof fn lemma_multiple_at_least(q: int, d: int)
    requires
        d >= 1,
        q >= 1,
        q % d == 0,
    ensures
        q >= d,
{
    if q < d {
        vstd::arithmetic::div_mod::lemma_small_mod(q as nat, d as nat);
    }
}

/// The table of `mu(0..=limit)`, by flipping the sign at the multiples of each
/// prime and clearing the multiples of its square.
pub fn generate_mu(limit: usize) -> (mu: Vec<i8>)
    requires
        limit < usize::MAX,
    ensures
        mu.len() == limit + 1,
        forall|m: int| 0 <= m <= limit ==> #[trigger] mu@[m] == mobius(m),
{
    let mut mu: Vec<i8> = Vec::new();
    let mut is_p: Vec<bool> = Vec::new();
    let mut i: usize = 0;
    while i <= limit
        invariant
            limit < usize::MAX,
            i <= limit + 1,
            mu.len() == i,
            is_p.len() == i,
            forall|m: int| 0 <= m < i ==> #[trigger] mu@[m] == 1,
            forall|m: int| 0 <= m < i ==> #[trigger] is_p@[m],
        decreases limit + 1 - i,
    {
        mu.push(1);
        is_p.push(true);
        i += 1;
    }
    mu.set(0, 0);
    let mut p: usize = 2;
    while p <= limit
        invariant
            limit < usize::MAX,
            2 <= p <= limit + 2,
            mu.len() == limit + 1,
            is_p.len() == limit + 1,
            mu@[0] == 0,
            forall|q: int| 1 <= q <= limit ==> #[trigger] mu@[q] == mobius_upto(q, p - 1),
            forall|q: int| 2 <= q <= limit ==> #[trigger] is_p@[q] == !has_prime_factor_below(q, p - 1),
        decreases limit + 1 - p,
    {
        proof {
            lemma_prime_iff_unmarked(p as int);
        }
        if is_p[p] {
            let ghost prev_mu = mu@;
            let ghost prev_p = is_p@;
            let mut m: usize = p;
            let mut more = true;
            proof {
                assert forall|q: int| 1 <= q <= limit implies #[trigger] mu@[q] == (if q % (p as int) == 0 && q < m {
                    -prev_mu[q]
                } else {
                    prev_mu[q] as int
                }) by {
                    if q < p {
                        vstd::arithmetic::div_mod::lemma_small_mod(q as nat, p as nat);
                    }
                }
                assert forall|q: int| 2 <= q <= limit implies #[trigger] is_p@[q] == (if q % (p as int) == 0 && p < q && q < m {
                    false
                } else {
                    prev_p[q]
                }) by {}
            }
            while more
                invariant
                    2 <= p <= limit,
                    is_prime(p as nat),
                    p <= m <= limit,
                    m % p == 0,
                    mu.len() == limit + 1,
                    is_p.len() == limit + 1,
                    mu@[0] == 0,
                    forall|q: int| 1 <= q <= limit ==> #[trigger] prev_mu[q] == mobius_upto(q, p - 1),
                    forall|q: int| 2 <= q <= limit ==> #[trigger] prev_p[q] == !has_prime_factor_below(q, p - 1),
                    more ==> forall|q: int| 1 <= q <= limit ==> #[trigger] mu@[q] == (if q % (p as int) == 0 && q < m {
                        -prev_mu[q]
                    } else {
                        prev_mu[q] as int
                    }),
                    more ==> forall|q: int| 2 <= q <= limit ==> #[trigger] is_p@[q] == (if q % (p as int) == 0 && p < q && q < m {
                        false
                    } else {
                        prev_p[q]
                    }),
                    !more ==> forall|q: int| 1 <= q <= limit ==> #[trigger] mu@[q] == (if q % (p as int) == 0 {
                        -prev_mu[q]
                    } else {
                        prev_mu[q] as int
                    }),
                    !more ==> forall|q: int| 2 <= q <= limit ==> #[trigger] is_p@[q] == !has_prime_factor_below(q, p as int),
                decreases limit - m, if more { 1int } else { 0int },
            {
                let ghost before_mu = mu@;
                let ghost before_p = is_p@;
                if m > p {
                    is_p.set(m, false);
                }
                proof {
                    lemma_mobius_upto_range(m as int, p - 1);
                }
                let cur = mu[m];
                mu.set(m, -cur);
                if limit - m >= p {
                    proof {
                        vstd::arithmetic::div_mod::lemma_mod_add_multiples_vanish(m as int, p as int);
                        assert forall|q: int| 1 <= q <= limit implies #[trigger] mu@[q] == (if q % (p as int) == 0 && q < m + p {
                            -prev_mu[q]
                        } else {
                            prev_mu[q] as int
                        }) by {
                            assert(before_mu[q] == (if q % (p as int) == 0 && q < m {
                                -prev_mu[q]
                            } else {
                                prev_mu[q] as int
                            }));
                            if q % (p as int) == 0 && m < q {
                                lemma_multiples_apart(q, m as int, p as int);
                            }
                        }
                        assert forall|q: int| 2 <= q <= limit implies #[trigger] is_p@[q] == (if q % (p as int) == 0 && p < q && q < m + p {
                            false
                        } else {
                            prev_p[q]
                        }) by {
                            assert(before_p[q] == (if q % (p as int) == 0 && p < q && q < m {
                                false
                            } else {
                                prev_p[q]
                            }));
                            if q % (p as int) == 0 && m < q {
                                lemma_multiples_apart(q, m as int, p as int);
                            }
                        }
                    }
                    m += p;
                } else {
                    proof {
                        assert forall|q: int| 1 <= q <= limit implies #[trigger] mu@[q] == (if q % (p as int) == 0 {
                            -prev_mu[q]
                        } else {
                            prev_mu[q] as int
                        }) by {
                            assert(before_mu[q] == (if q % (p as int) == 0 && q < m {
                                -prev_mu[q]
                            } else {
                                prev_mu[q] as int
                            }));
                            if q % (p as int) == 0 && m < q {
                                lemma_multiples_apart(q, m as int, p as int);
                            }
                        }
                        assert forall|q: int| 2 <= q <= limit implies #[trigger] is_p@[q] == !has_prime_factor_below(q, p as int) by {
                            assert(before_p[q] == (if q % (p as int) == 0 && p < q && q < m {
                                false
                            } else {
                                prev_p[q]
                            }));
                            if q % (p as int) == 0 && m < q {
                                lemma_multiples_apart(q, m as int, p as int);
                            }
                            if q % (p as int) == 0 && p < q {
                                assert(has_prime_factor_below(q, p as int));
                            }
                            if has_prime_factor_below(q, p as int) && !has_prime_factor_below(q, p - 1) {
                                let d = choose|d: int| 2 <= d <= p && d < q && is_prime(d as nat) && #[trigger] (q % d) == 0;
                                assert(d == p);
                            }
                        }
                    }
                    more = false;
                }
            }
            // clear the multiples of p * p
            if p <= limit / p {
                proof {
                    vstd::arithmetic::div_mod::lemma_fundamental_div_mod(limit as int, p as int);
                    assert(p * p <= limit && p * p >= 4) by (nonlinear_arith)
                        requires
                            p <= limit / p,
                            limit == p * (limit / p) + limit % p,
                            limit % p >= 0,
                            p >= 2,
                    ;
                }
                let pp = p * p;
                let ghost mid_mu = mu@;
                let mut m2: usize = pp;
                let mut more2 = true;
                proof {
                    assert forall|q: int| 1 <= q <= limit implies #[trigger] mu@[q] == (if q % (pp as int) == 0 && q < m2 {
                        0
                    } else {
                        mid_mu[q] as int
                    }) by {
                        if q < pp {
                            vstd::arithmetic::div_mod::lemma_small_mod(q as nat, pp as nat);
                        }
                    }
                    vstd::arithmetic::div_mod::lemma_mod_self_0(pp as int);
                }
                while more2
                    invariant
                        2 <= p <= limit,
                        pp == p * p,
                        pp >= 4,
                        pp <= m2 <= limit,
                        m2 % pp == 0,
                        mu.len() == limit + 1,
                        mu@[0] == 0,
                        more2 ==> forall|q: int| 1 <= q <= limit ==> #[trigger] mu@[q] == (if q % (pp as int) == 0 && q < m2 {
                            0
                        } else {
                            mid_mu[q] as int
                        }),
                        !more2 ==> forall|q: int| 1 <= q <= limit ==> #[trigger] mu@[q] == (if q % (pp as int) == 0 {
                            0
                        } else {
                            mid_mu[q] as int
                        }),
                    decreases limit - m2, if more2 { 1int } else { 0int },
                {
                    let ghost before = mu@;
                    mu.set(m2, 0);
                    if limit - m2 >= pp {
                        proof {
                            vstd::arithmetic::div_mod::lemma_mod_add_multiples_vanish(m2 as int, pp as int);
                            assert forall|q: int| 1 <= q <= limit implies #[trigger] mu@[q] == (if q % (pp as int) == 0 && q < m2 + pp {
                                0
                            } else {
                                mid_mu[q] as int
                            }) by {
                                assert(before[q] == (if q % (pp as int) == 0 && q < m2 {
                                    0
                                } else {
                                    mid_mu[q] as int
                                }));
                                if q % (pp as int) == 0 && m2 < q {
                                    lemma_multiples_apart(q, m2 as int, pp as int);
                                }
                            }
                        }
                        m2 += pp;
                    } else {
                        proof {
                            assert forall|q: int| 1 <= q <= limit implies #[trigger] mu@[q] == (if q % (pp as int) == 0 {
                                0
                            } else {
                                mid_mu[q] as int
                            }) by {
                                assert(before[q] == (if q % (pp as int) == 0 && q < m2 {
                                    0
                                } else {
                                    mid_mu[q] as int
                                }));
                                if q % (pp as int) == 0 && m2 < q {
                                    lemma_multiples_apart(q, m2 as int, pp as int);
                                }
                            }
                        }
                        more2 = false;
                    }
                }
            } else {
                proof {
                    assert forall|q: int| 1 <= q <= limit implies #[trigger] mu@[q] == mobius_upto(q, p as int) by {
                        if q % (p * p) == 0 {
                            assert(p * p >= 4) by (nonlinear_arith)
                                requires
                                    p >= 2,
                            ;
                            lemma_multiple_at_least(q, p * p);
                            vstd::arithmetic::div_mod::lemma_fundamental_div_mod(limit as int, p as int);
                            assert(p * p > limit) by (nonlinear_arith)
                                requires
                                    p > limit / p,
                                    limit == p * (limit / p) + limit % p,
                                    limit % p < p,
                            ;
                        }
                    }
                }
            }
        } else {
            proof {
                assert forall|q: int| 2 <= q <= limit implies #[trigger] is_p@[q] == !has_prime_factor_below(q, p as int) by {
                    if has_prime_factor_below(q, p as int) && !has_prime_factor_below(q, p - 1) {
                        let d = choose|d: int| 2 <= d <= p && d < q && is_prime(d as nat) && #[trigger] (q % d) == 0;
                        assert(d == p);
                    }
                }
            }
        }
        p += 1;
    }
    proof {
        assert forall|m: int| 0 <= m <= limit implies #[trigger] mu@[m] == mobius(m) by {
            if m >= 1 {
                lemma_mobius_stable(m, p - 1);
            }
        }
    }
    mu
}


/// The table `pi[n] = pi(n)` for `n` in `0..=limit`, read off the sieve.
pub fn generate_pi(limit: usize, sieve: &Sieve) -> (pi: Vec<u32>)
    requires
        limit <= sieve_bound(*sieve),
        limit < usize::MAX,
        prime_count(limit as nat) <= u32::MAX,
    ensures
        pi.len() == limit + 1,
        forall|n: int| 0 <= n <= limit ==> #[trigger] pi@[n] == prime_count(n as nat),
{
    let mut pi: Vec<u32> = Vec::new();
    let mut count: u32 = 0;
    let mut n: usize = 0;
    while n <= limit
        invariant
            limit <= sieve_bound(*sieve),
            limit < usize::MAX,
            prime_count(limit as nat) <= u32::MAX,
            n <= limit + 1,
            pi.len() == n,
            n >= 1 ==> count == prime_count((n - 1) as nat),
            n == 0 ==> count == 0,
            forall|k: int| 0 <= k < n ==> #[trigger] pi@[k] == prime_count(k as nat),
        decreases limit + 1 - n,
    {
        if n >= 2 && sieve_is_prime(sieve, n) {
            proof {
                crate::number_theory::lemma_prime_count_monotone(n as nat, limit as nat);
            }
            count += 1;
        }
        proof {
            if n < 2 {
                crate::number_theory::lemma_prime_count_small();
            }
        }
        pi.push(count);
        n += 1;
    }
    pi
}

/// The primes that the small-phi table can leave out, in order:
/// `tiny_prime(1) = 2` up to `tiny_prime(7) = 17`.
pub open spec fn tiny_prime_spec(i: int) -> int {
    if i == 1 {
        2
    } else if i == 2 {
        3
    } else if i == 3 {
        5
    } else if i == 4 {
        7
    } else if i == 5 {
        11
    } else if i == 6 {
        13
    } else if i == 7 {
        17
    } else {
        0
    }
}

fn tiny_prime(i: usize) -> (p: u64)
    requires
        1 <= i <= 7,
    returns
        tiny_prime_spec(i as int) as u64,
{
    if i == 1 {
        2
    } else if i == 2 {
        3
    } else if i == 3 {
        5
    } else if i == 4 {
        7
    } else if i == 5 {
        11
    } else if i == 6 {
        13
    } else {
        17
    }
}

/// `j` is divisible by none of the first `c` primes.
pub open spec fn coprime_to_tiny(j: int, c: int) -> bool {
    forall|i: int| 1 <= i <= c ==> #[trigger] (j % tiny_prime_spec(i)) != 0
}

/// phi(x, c): how many of `1..=x` are divisible by none of the first `c`
/// primes.
pub open spec fn phi_tiny_spec(x: int, c: int) -> int
    decreases x,
{
    if x <= 0 {
        0
    } else {
        phi_tiny_spec(x - 1, c) + if coprime_to_tiny(x, c) {
            1int
        } else {
            0int
        }
    }
}

/// The product of the first `c` primes.
pub open spec fn tiny_product(c: int) -> int
    decreases c,
{
    if c <= 0 {
        1
    } else {
        tiny_product(c - 1) * tiny_prime_spec(c)
    }
}

pub proof fn lemma_tiny_product_values()
    ensures
        tiny_product(0) == 1,
        tiny_product(1) == 2,
        tiny_product(2) == 6,
        tiny_product(3) == 30,
        tiny_product(4) == 210,
        tiny_product(5) == 2310,
        tiny_product(6) == 30030,
        tiny_product(7) == 510510,
{
    reveal_with_fuel(tiny_product, 8);
}

/// Each of the first `c` primes divides their product.
pub proof fn lemma_tiny_product_divisible(c: int, i: int)
    requires
        1 <= i <= c <= 7,
    ensures
        tiny_product(c) % tiny_prime_spec(i) == 0,
    decreases c,
{
    lemma_tiny_product_values();
    let t = tiny_prime_spec(i);
    if i == c {
        vstd::arithmetic::div_mod::lemma_mod_multiples_basic(tiny_product(c - 1), t);
    } else {
        lemma_tiny_product_divisible(c - 1, i);
        vstd::arithmetic::div_mod::lemma_fundamental_div_mod(tiny_product(c - 1), t);
        let k = tiny_product(c - 1) / t;
        assert(tiny_product(c) == (k * tiny_prime_spec(c)) * t) by (nonlinear_arith)
            requires
                tiny_product(c) == tiny_product(c - 1) * tiny_prime_spec(c),
                tiny_product(c - 1) == t * k,
        ;
        vstd::arithmetic::div_mod::lemma_mod_multiples_basic(k * tiny_prime_spec(c), t);
    }
}

pub proof fn lemma_phi_tiny_le(x: int, c: int)
    ensures
        0 <= phi_tiny_spec(x, c),
        x >= 0 ==> phi_tiny_spec(x, c) <= x,
    decreases x,
{
    if x > 0 {
        lemma_phi_tiny_le(x - 1, c);
    }
}

/// Shifting by the product of the first `c` primes adds one period.
proof fn lemma_phi_tiny_shift(x: int, c: int)
    requires
        x >= 0,
        0 <= c <= 7,
    ensures
        phi_tiny_spec(x + tiny_product(c), c) == phi_tiny_spec(x, c) + phi_tiny_spec(tiny_product(c), c),
    decreases x,
{
    lemma_tiny_product_values();
    let pc = tiny_product(c);
    if x > 0 {
        lemma_phi_tiny_shift(x - 1, c);
        assert(coprime_to_tiny(x + pc, c) == coprime_to_tiny(x, c)) by {
            assert forall|i: int| 1 <= i <= c implies ((x + pc) % #[trigger] tiny_prime_spec(i) == 0) == (x % tiny_prime_spec(i) == 0) by {
                lemma_tiny_product_divisible(c, i);
                let t = tiny_prime_spec(i);
                vstd::arithmetic::div_mod::lemma_fundamental_div_mod(pc, t);
                vstd::arithmetic::div_mod::lemma_mod_add_multiples_vanish(x, t);
                let k = pc / t;
                assert(x + pc == x + k * t) by (nonlinear_arith)
                    requires
                        pc == t * k + pc % t,
                        pc % t == 0,
                ;
                vstd::arithmetic::div_mod::lemma_mod_multiples_vanish(k, x, t);
            }
        }
    }
}

/// `phi(q * P + r) = q * phi(P) + phi(r)` for the period `P`.
pub proof fn lemma_phi_tiny_periodic(q: int, r: int, c: int)
    requires
        q >= 0,
        r >= 0,
        0 <= c <= 7,
    ensures
        phi_tiny_spec(q * tiny_product(c) + r, c) == q * phi_tiny_spec(tiny_product(c), c) + phi_tiny_spec(r, c),
    decreases q,
{
    lemma_tiny_product_values();
    if q > 0 {
        lemma_phi_tiny_periodic(q - 1, r, c);
        let pc = tiny_product(c);
        assert(q * pc + r == ((q - 1) * pc + r) + pc) by (nonlinear_arith);
        assert((q - 1) * pc + r >= 0) by (nonlinear_arith)
            requires
                q >= 1,
                pc >= 1,
                r >= 0,
        ;
        lemma_phi_tiny_shift((q - 1) * pc + r, c);
        assert(q * phi_tiny_spec(pc, c) == (q - 1) * phi_tiny_spec(pc, c) + phi_tiny_spec(pc, c)) by (nonlinear_arith);
        assert(phi_tiny_spec(q * pc + r, c) == phi_tiny_spec((q - 1) * pc + r, c) + phi_tiny_spec(pc, c));
    } else {
        let pc = tiny_product(c);
        let f = phi_tiny_spec(pc, c);
        assert(q * pc == 0 && q * f == 0) by (nonlinear_arith)
            requires
                q == 0,
        ;
    }
}

/// phi(x, c) for the first `c <= 7` primes, from one period of partial
/// counts: `phi(x) = (x / P) * phi(P) + partial[x % P]` with `P` the product
/// of those primes.
pub struct PhiTinyCache {
    pub pc: u64,
    pub phi_pc: u64,
    pub partial: Vec<u64>,
    pub c: Ghost<int>,
}

impl PhiTinyCache {
    /// The table is complete for its number of primes.
    pub open spec fn wf(&self) -> bool {
        &&& 0 <= self.c@ <= 7
        &&& self.pc == tiny_product(self.c@)
        &&& self.partial@.len() == self.pc + 1
        &&& forall|k: int| 0 <= k <= self.pc ==> #[trigger] self.partial@[k] == phi_tiny_spec(k, self.c@)
        &&& self.phi_pc == phi_tiny_spec(self.pc as int, self.c@)
    }

    /// Builds the table for the first `c` primes.
    pub fn new(c: usize) -> (cache: Self)
        requires
            c <= 7,
        ensures
            cache.wf(),
            cache.c@ == c,
    {
        proof {
            lemma_tiny_product_values();
        }
        let mut pc: u64 = 1;
        let mut i: usize = 1;
        while i <= c
            invariant
                c <= 7,
                1 <= i <= c + 1,
                pc == tiny_product(i - 1),
                pc <= 510510,
            decreases c + 1 - i,
        {
            proof {
                lemma_tiny_product_values();
                assert(tiny_product(i as int) == tiny_product(i - 1) * tiny_prime_spec(i as int));
            }
            pc = pc * tiny_prime(i);
            i += 1;
        }
        let mut partial: Vec<u64> = Vec::new();
        partial.push(0);
        let mut k: usize = 1;
        let mut count: u64 = 0;
        while k <= pc as usize
            invariant
                c <= 7,
                pc == tiny_product(c as int),
                pc <= 510510,
                1 <= k <= pc + 1,
                partial.len() == k,
                count == phi_tiny_spec(k - 1, c as int),
                count <= k - 1,
                forall|j: int| 0 <= j < k ==> #[trigger] partial@[j] == phi_tiny_spec(j, c as int),
            decreases pc + 1 - k,
        {
            let mut coprime = true;
            let mut t: usize = 1;
            while t <= c
                invariant
                    c <= 7,
                    1 <= t <= c + 1,
                    coprime == forall|s: int| 1 <= s < t ==> #[trigger] ((k as int) % tiny_prime_spec(s)) != 0,
                decreases c + 1 - t,
            {
                if (k as u64) % tiny_prime(t) == 0 {
                    coprime = false;
                }
                t += 1;
            }
            if coprime {
                count += 1;
            }
            partial.push(count);
            k += 1;
        }
        let phi_pc = partial[pc as usize];
        PhiTinyCache { pc, phi_pc, partial, c: Ghost(c as int) }
    }

    /// phi(x, c): how many of `1..=x` are divisible by none of the first `c`
    /// primes.
    pub fn phi(&self, x: u64) -> (r: i64)
        requires
            self.wf(),
            x <= i64::MAX || phi_tiny_spec(x as int, self.c@) <= i64::MAX,
        ensures
            r == phi_tiny_spec(x as int, self.c@),
    {
        if x == 0 {
            return 0;
        }
        proof {
            lemma_tiny_product_values();
        }
        let q = x / self.pc;
        let rem = (x % self.pc) as usize;
        proof {
            let pc = self.pc as int;
            let c = self.c@;
            vstd::arithmetic::div_mod::lemma_fundamental_div_mod(x as int, pc);
            assert(x == pc * q + rem);
            vstd::arithmetic::mul::lemma_mul_is_commutative(pc, q as int);
            lemma_phi_tiny_periodic(q as int, rem as int, c);
            assert(self.partial@[rem as int] == phi_tiny_spec(rem as int, c));
            lemma_phi_tiny_le(x as int, c);
            lemma_phi_tiny_le(rem as int, c);
            lemma_phi_tiny_le(pc, c);
            assert(q * self.phi_pc <= q * pc) by (nonlinear_arith)
                requires
                    self.phi_pc <= pc,
                    q >= 0,
            ;
            assert(phi_tiny_spec(x as int, c) == q * self.phi_pc + self.partial@[rem as int]);
        }
        let full = q * self.phi_pc;
        (full + self.partial[rem]) as i64
    }
}


/// `m >= 1` has no prime factor above `y`.
pub open spec fn y_smooth_spec(m: int, y: int) -> bool {
    m >= 1 && forall|p: int| y < p <= m && is_prime(p as nat) ==> #[trigger] (m % p) != 0
}

/// The tables up to `limit` with 32-bit factors: the Moebius function, the
/// least prime factors (`NO_FACTOR` at 1, 0 at 0), and whether each number
/// has all its prime factors at most `y`. The D leaves use the 16-bit form,
/// `d_tables::generate_tables`.
pub fn generate_tables(limit: usize, y: usize) -> (t: (Vec<i8>, Vec<i32>, Vec<bool>))
    requires
        limit < NO_FACTOR,
    ensures
        t.0.len() == limit + 1,
        t.1.len() == limit + 1,
        t.2.len() == limit + 1,
        forall|m: int| 0 <= m <= limit ==> #[trigger] t.0@[m] == mobius(m),
        forall|m: int| 0 <= m <= limit ==> #[trigger] t.1@[m] == least_prime_factor(m),
        forall|m: int| 0 <= m <= limit ==> #[trigger] t.2@[m] == y_smooth_spec(m, y as int),
{
    let mu = generate_mu(limit);
    let lpf = generate_lpf(limit);
    let mut smooth: Vec<bool> = Vec::new();
    smooth.push(false);
    while smooth.len() <= limit
        invariant
            limit < NO_FACTOR,
            1 <= smooth.len() <= limit + 1,
            smooth@[0] == false,
            forall|m: int| 1 <= m < smooth.len() ==> #[trigger] smooth@[m],
        decreases limit + 1 - smooth.len(),
    {
        smooth.push(true);
    }
    // cross off the multiples of each prime above y
    let mut p: usize = if y < limit { y + 1 } else { limit + 1 };
    proof {
        assert forall|m: int| 0 <= m <= limit implies #[trigger] smooth@[m] == (m >= 1 && forall|q: int|
            y < q < p && is_prime(q as nat) ==> #[trigger] (m % q) != 0) by {}
    }
    while p <= limit
        invariant
            limit < NO_FACTOR,
            lpf.len() == limit + 1,
            forall|m: int| 0 <= m <= limit ==> #[trigger] lpf@[m] == least_prime_factor(m),
            smooth.len() == limit + 1,
            1 <= p <= limit + 1,
            y < p || p == limit + 1,
            forall|m: int| 0 <= m <= limit ==> #[trigger] smooth@[m] == (m >= 1 && forall|q: int|
                y < q < p && is_prime(q as nat) ==> #[trigger] (m % q) != 0),
        decreases limit + 1 - p,
    {
        proof {
            if p >= 2 {
                lemma_least_prime_factor_of_prime(p as int);
            }
        }
        if lpf[p] == p as i32 {
            let ghost before = smooth@;
            let mut m: usize = p;
            let mut more = true;
            proof {
                assert(p >= 2) by {
                    if p < 2 {
                        assert(lpf@[1] == NO_FACTOR);
                    }
                }
                vstd::arithmetic::div_mod::lemma_mod_self_0(p as int);
                assert forall|k: int| 0 <= k <= limit implies #[trigger] smooth@[k] == (before[k] && !(k % (p as int) == 0 && k < m)) by {
                    if k < p && k % (p as int) == 0 && k >= 1 {
                        vstd::arithmetic::div_mod::lemma_small_mod(k as nat, p as nat);
                    }
                }
            }
            while more
                invariant
                    limit < NO_FACTOR,
                    2 <= p <= limit,
                    p <= m <= limit,
                    m % p == 0,
                    smooth.len() == limit + 1,
                    more ==> forall|k: int| 0 <= k <= limit ==> #[trigger] smooth@[k] == (before[k] && !(k % (p as int) == 0 && k < m)),
                    !more ==> forall|k: int| 0 <= k <= limit ==> #[trigger] smooth@[k] == (before[k] && !(k % (p as int) == 0)),
                decreases limit - m, if more { 1int } else { 0int },
            {
                let ghost mid = smooth@;
                smooth.set(m, false);
                if limit - m >= p {
                    proof {
                        vstd::arithmetic::div_mod::lemma_mod_add_multiples_vanish(m as int, p as int);
                        assert forall|k: int| 0 <= k <= limit implies #[trigger] smooth@[k] == (before[k] && !(k % (p as int) == 0 && k < m + p)) by {
                            assert(mid[k] == (before[k] && !(k % (p as int) == 0 && k < m)));
                            if k % (p as int) == 0 && m < k {
                                lemma_multiples_apart(k, m as int, p as int);
                            }
                        }
                    }
                    m += p;
                } else {
                    proof {
                        assert forall|k: int| 0 <= k <= limit implies #[trigger] smooth@[k] == (before[k] && !(k % (p as int) == 0)) by {
                            assert(mid[k] == (before[k] && !(k % (p as int) == 0 && k < m)));
                            if k % (p as int) == 0 && m < k {
                                lemma_multiples_apart(k, m as int, p as int);
                            }
                        }
                    }
                    more = false;
                }
            }
            proof {
                assert forall|k: int| 0 <= k <= limit implies #[trigger] smooth@[k] == (k >= 1 && forall|q: int|
                    y < q < p + 1 && is_prime(q as nat) ==> #[trigger] (k % q) != 0) by {
                    assert(before[k] == (k >= 1 && forall|q: int| y < q < p && is_prime(q as nat) ==> #[trigger] (k % q) != 0));
                    if k >= 1 && k % (p as int) == 0 {
                        assert(is_prime(p as nat));
                        let q = p as int;
                        assert(y < q < p + 1 && is_prime(q as nat) && (k % q) == 0);
                        assert(!(forall|q: int| y < q < p + 1 && is_prime(q as nat) ==> #[trigger] (k % q) != 0));
                    }
                }
            }
        } else {
            proof {
                if p >= 2 {
                    assert(!is_prime(p as nat));
                } else {
                    assert(!is_prime(1nat));
                }
                assert forall|k: int| 0 <= k <= limit implies #[trigger] smooth@[k] == (k >= 1 && forall|q: int|
                    y < q < p + 1 && is_prime(q as nat) ==> #[trigger] (k % q) != 0) by {
                    if k >= 1 && !(forall|q: int| y < q < p + 1 && is_prime(q as nat) ==> #[trigger] (k % q) != 0) {
                        let q = choose|q: int| y < q < p + 1 && is_prime(q as nat) && #[trigger] (k % q) == 0;
                        assert(q != p);
                    }
                }
            }
        }
        p += 1;
    }
    proof {
        assert forall|m: int| 0 <= m <= limit implies #[trigger] smooth@[m] == y_smooth_spec(m, y as int) by {
            if m >= 1 {
                let below_p = forall|q: int| y < q < p && is_prime(q as nat) ==> #[trigger] (m % q) != 0;
                let upto_m = forall|q: int| y < q <= m && is_prime(q as nat) ==> #[trigger] (m % q) != 0;
                if upto_m {
                    assert forall|q: int| y < q < p && is_prime(q as nat) implies #[trigger] (m % q) != 0 by {
                        if q > m {
                            vstd::arithmetic::div_mod::lemma_small_mod(m as nat, q as nat);
                        }
                    }
                }
                if below_p {
                    assert forall|q: int| y < q <= m && is_prime(q as nat) implies #[trigger] (m % q) != 0 by {
                        assert(q < p);
                    }
                }
                assert(below_p == upto_m);
            }
        }
    }
    (mu, lpf, smooth)
}

/// A number from 2 up is prime exactly when it is its own least prime factor.
pub proof fn lemma_least_prime_factor_of_prime(p: int)
    requires
        2 <= p < NO_FACTOR,
    ensures
        is_prime(p as nat) <==> least_prime_factor(p) == p,
{
    lemma_least_prime_factor(p);
    if is_prime(p as nat) && least_prime_factor(p) != p {
        let d = least_prime_factor(p);
        assert((p as nat) % (d as nat) != 0);
    }
    if !is_prime(p as nat) && least_prime_factor(p) == p {
        let d = crate::number_theory::lemma_composite_has_small_prime_factor(p as nat);
        assert(d < p) by (nonlinear_arith)
            requires
                d * d <= p,
                d >= 2,
        ;
        assert(p % (d as int) == 0);
    }
}

} // verus!
