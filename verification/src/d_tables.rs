//! The tables of the D leaves up to `limit`: Möbius values, least prime
//! factors held in 16 bits, and smoothness past `y`.

use vstd::prelude::*;
use vstd::arithmetic::div_mod::*;
use crate::number_theory::{is_prime, lemma_composite_has_small_prime_factor};
use crate::roots::isqrt;
use crate::small_sieve::{sieve_past, sieve_primes_from, sieve_bound, lemma_no_prime_gap};
use crate::tables::{generate_mu, mobius, y_smooth_spec};

verus! {

/// The least-prime-factor entry of `n`: 0 below 2, the prime itself (held
/// at most at 65535) for a prime, and for a composite its least divisor
/// from 2 up.
pub open spec fn lpf_entry(n: int, v: int) -> bool {
    if n < 2 {
        v == 0
    } else if is_prime(n as nat) {
        v == (if n < 65535 { n } else { 65535 })
    } else {
        &&& 2 <= v
        &&& n % v == 0
        &&& forall|e: int| 2 <= e < v ==> #[trigger] (n % e) != 0
    }
}

proof fn lemma_divides_trans(m: int, e: int, q: int)
    requires
        m >= 0,
        e > 0,
        q > 0,
        m % e == 0,
        e % q == 0,
    ensures
        m % q == 0,
{
    lemma_fundamental_div_mod(m, e);
    lemma_fundamental_div_mod(e, q);
    let a = m / e;
    let b = e / q;
    assert(m == q * (b * a)) by (nonlinear_arith)
        requires
            m == e * a,
            e == q * b,
    ;
    lemma_mod_multiples_basic(b * a, q);
    assert(q * (b * a) == (b * a) * q) by (nonlinear_arith);
}

/// With no prime strictly between `k` and `p`, a number whose divisors from
/// 2 up all exceed `k` has none below `p` either.
proof fn lemma_no_divisor_below(m: int, k: int, p: int, e: int)
    requires
        m >= 2,
        1 <= k < e < p,
        e < m,
        forall|d: int| 2 <= d <= k && d < m ==> #[trigger] (m % d) != 0,
        forall|q: int| k < q < p ==> !#[trigger] is_prime(q as nat),
    ensures
        m % e != 0,
{
    assert(!is_prime(e as nat));
    let q = lemma_composite_has_small_prime_factor(e as nat) as int;
    assert(q <= e) by (nonlinear_arith)
        requires
            q * q <= e,
            q >= 2,
    ;
    if q > k {
        assert(!is_prime(q as nat));
    }
    if m % e == 0 {
        lemma_divides_trans(m, e, q);
        assert(m % q != 0);
    }
}

/// The Möbius values, the least prime factors (0 at 0 and 1, held at most at
/// 65535) and whether every prime factor is at most `max(y, isqrt(limit))`:
/// the small primes up to `sqrt(limit)` mark their multiples, and what they
/// leave unmarked is prime.
pub fn generate_tables(limit: usize, y: usize) -> (t: (Vec<i8>, Vec<u16>, Vec<bool>))
    requires
        usize::BITS == 64,
        limit <= 0xffff_ffff,
    ensures
        t.0.len() == limit + 1,
        t.1.len() == limit + 1,
        t.2.len() == limit + 1,
        forall|n: int| 0 <= n <= limit ==> #[trigger] t.0@[n] == mobius(n),
        forall|n: int| 0 <= n <= limit ==> lpf_entry(n, #[trigger] t.1@[n] as int),
        forall|n: int|
            0 <= n <= limit ==> #[trigger] t.2@[n] == y_smooth_spec(
                n,
                (if (y as int) < crate::sigma::floor_sqrt(limit as int) {
                    crate::sigma::floor_sqrt(limit as int)
                } else {
                    y as int
                }),
            ),
{
    let mu = generate_mu(limit);
    let s64 = isqrt(limit as u64);
    proof {
        assert(s64 <= 0xffff) by (nonlinear_arith)
            requires
                s64 * s64 <= limit,
                limit <= 0xffff_ffff,
        ;
        assert(crate::lmo::is_sqrt(limit as int, s64 as int));
        let f = crate::sigma::floor_sqrt(limit as int);
        assert(crate::lmo::is_sqrt(limit as int, f));
        crate::roots::lemma_sqrt_unique(limit as int, f, s64 as int);
    }
    let s = s64 as usize;
    let ghost ys: int = if (y as int) < s { s as int } else { y as int };
    let mut lpf: Vec<u16> = Vec::new();
    let mut smooth: Vec<bool> = Vec::new();
    while lpf.len() <= limit
        invariant
            usize::BITS == 64,
            limit <= 0xffff_ffff,
            lpf.len() == smooth.len(),
            lpf.len() <= limit + 1,
            forall|n: int| 0 <= n < lpf.len() ==> #[trigger] lpf@[n] == 0,
            forall|n: int| 0 <= n < smooth.len() ==> #[trigger] smooth@[n] == (n != 0),
        decreases limit + 1 - lpf.len(),
    {
        let n = lpf.len();
        lpf.push(0);
        smooth.push(n != 0);
    }
    // the small primes mark their multiples from twice themselves on
    let sieve = sieve_past(s);
    let small = sieve_primes_from(&sieve, 2);
    let ghost bound = sieve_bound(sieve) as int;
    let mut j: usize = 0;
    let ghost mut k: int = 1;
    while j < small.len() && small[j] <= s
        invariant
            usize::BITS == 64,
            limit <= 0xffff_ffff,
            s <= 0xffff,
            s * s <= limit < (s + 1) * (s + 1),
            bound > s,
            bound >= 5,
            lpf.len() == limit + 1,
            forall|a: int, b: int| 0 <= a < b < small.len() ==> small@[a] < small@[b],
            forall|a: int| 0 <= a < small.len() ==> is_prime(#[trigger] small@[a] as nat) && 2 <= small@[a] <= bound,
            forall|q: usize| 2 <= q <= bound && is_prime(q as nat) ==> #[trigger] small@.contains(q),
            j <= small.len(),
            j == 0 ==> k == 1,
            j > 0 ==> k == small@[j - 1],
            1 <= k <= s || (j == 0 && k == 1),
            forall|n: int|
                0 <= n <= limit && lpf@[n] != 0 ==> 2 <= #[trigger] lpf@[n] < n && n % (lpf@[n] as int) == 0
                    && forall|e: int| 2 <= e < lpf@[n] ==> #[trigger] (n % e) != 0,
            forall|n: int|
                0 <= n <= limit && lpf@[n] == 0 ==> forall|d: int| 2 <= d <= k && d < n ==> #[trigger] (n % d) != 0,
        decreases small.len() - j,
    {
        let p = small[j];
        proof {
            lemma_no_prime_gap(small@, bound, 2, j as int, k, p - 1);
        }
        let ghost before = lpf@;
        proof {
            assert(p <= limit) by (nonlinear_arith)
                requires
                    2 <= p <= s,
                    s * s <= limit,
            ;
            lemma_mod_multiples_basic(2, p as int);
        }
        let mut m = 2 * p;
        while m <= limit
            invariant
                usize::BITS == 64,
                limit <= 0xffff_ffff,
                2 <= p <= s,
                s <= 0xffff,
                lpf.len() == limit + 1,
                m % p == 0,
                m >= 2 * p,
                m <= limit + p,
                forall|n: int|
                    0 <= n <= limit ==> #[trigger] lpf@[n] == (if before[n] == 0 && n % (p as int) == 0 && 2 * p <= n
                        < m { p as u16 } else { before[n] }),
            decreases limit + p - m,
        {
            if lpf[m] == 0 {
                lpf.set(m, p as u16);
            }
            proof {
                lemma_mod_add_multiples_vanish(m as int, p as int);
                assert forall|n: int| 0 <= n <= limit implies #[trigger] lpf@[n] == (if before[n] == 0 && n % (
                p as int) == 0 && 2 * p <= n < m + p { p as u16 } else { before[n] }) by {
                    if n % (p as int) == 0 && m < n < m + p {
                        crate::tables::lemma_multiples_apart(n, m as int, p as int);
                    }
                }
            }
            m = m + p;
        }
        proof {
            assert forall|n: int| 0 <= n <= limit && lpf@[n] != 0 implies 2 <= #[trigger] lpf@[n] < n && n % (
            lpf@[n] as int) == 0 && forall|e: int| 2 <= e < lpf@[n] ==> #[trigger] (n % e) != 0 by {
                if before[n] == 0 && n % (p as int) == 0 && 2 * p <= n {
                    assert forall|e: int| 2 <= e < p implies #[trigger] (n % e) != 0 by {
                        if e > k {
                            lemma_no_divisor_below(n, k, p as int, e);
                        }
                    }
                }
            }
            assert forall|n: int| 0 <= n <= limit && lpf@[n] == 0 implies forall|d: int|
                2 <= d <= p && d < n ==> #[trigger] (n % d) != 0 by {
                assert forall|d: int| 2 <= d <= p && d < n implies #[trigger] (n % d) != 0 by {
                    if d > k && d < p {
                        lemma_no_divisor_below(n, k, p as int, d);
                    } else if d == p && n % (p as int) == 0 {
                        lemma_fundamental_div_mod(n, p as int);
                        let qq = n / (p as int);
                        assert(n >= 2 * p) by (nonlinear_arith)
                            requires
                                n == p * qq,
                                n > p,
                                p >= 2,
                        ;
                    }
                }
            }
            k = p as int;
        }
        j += 1;
    }
    proof {
        // no prime lies between the last small prime and sqrt(limit)
        lemma_no_prime_gap(small@, bound, 2, j as int, k, s as int);
    }
    // what stays unmarked from 2 up is prime
    let mut n: usize = 2;
    let ghost marked = lpf@;
    while n <= limit
        invariant
            limit <= 0xffff_ffff,
            limit < usize::MAX,
            usize::BITS == 64,
            2 <= n <= limit + 2,
            s * s <= limit < (s + 1) * (s + 1),
            1 <= k <= s || k == 1,
            forall|q: int| k < q <= s ==> !#[trigger] is_prime(q as nat),
            ys == (if (y as int) < s { s as int } else { y as int }),
            lpf.len() == limit + 1,
            smooth.len() == limit + 1,
            forall|i: int|
                0 <= i <= limit && marked[i] != 0 ==> 2 <= #[trigger] marked[i] < i && i % (marked[i] as int) == 0
                    && forall|e: int| 2 <= e < marked[i] ==> #[trigger] (i % e) != 0,
            forall|i: int|
                0 <= i <= limit && marked[i] == 0 ==> forall|d: int| 2 <= d <= k && d < i ==> #[trigger] (i % d) != 0,
            forall|i: int| 0 <= i <= limit && i < n ==> lpf_entry(i, #[trigger] lpf@[i] as int),
            forall|i: int| 0 <= i <= limit && i >= n ==> #[trigger] lpf@[i] == marked[i],
            forall|i: int|
                0 <= i <= limit ==> #[trigger] smooth@[i] == (i >= 1 && forall|q: int|
                    ys < q < n && is_prime(q as nat) ==> #[trigger] (i % q) != 0),
        decreases limit + 1 - n,
    {
        proof {
            // an unmarked number is prime, a marked one is not
            let ni = n as int;
            if marked[ni] == 0 && !is_prime(ni as nat) {
                let q = lemma_composite_has_small_prime_factor(ni as nat) as int;
                assert(q <= s) by (nonlinear_arith)
                    requires
                        q * q <= ni,
                        ni <= limit,
                        limit < (s + 1) * (s + 1),
                        q >= 2,
                        s >= 0,
                ;
                assert(q < ni) by (nonlinear_arith)
                    requires
                        q * q <= ni,
                        q >= 2,
                ;
                if q > k {
                    assert(!is_prime(q as nat));
                }
                assert(ni % q != 0);
            }
            if marked[ni] != 0 {
                let d = marked[ni] as int;
                assert(ni % d == 0 && 2 <= d < ni);
                assert((ni as nat) % (d as nat) == 0);
            }
        }
        if lpf[n] == 0 {
            let v: u16 = if n < 65535 {
                n as u16
            } else {
                65535
            };
            lpf.set(n, v);
            if n > s && n > y {
                let ghost before = smooth@;
                let mut m: usize = n;
                proof {
                    assert forall|i: int| 0 <= i <= limit implies #[trigger] smooth@[i] == (before[i] && !(i % (
                    n as int) == 0 && i < m)) by {
                        if i < n && i % (n as int) == 0 && i >= 1 {
                            lemma_small_mod(i as nat, n as nat);
                        }
                    }
                    lemma_mod_self_0(n as int);
                }
                while m <= limit
                    invariant
                        usize::BITS == 64,
                        limit <= 0xffff_ffff,
                        2 <= n <= limit,
                        n <= m <= limit + n,
                        m % n == 0,
                        smooth.len() == limit + 1,
                        forall|i: int|
                            0 <= i <= limit ==> #[trigger] smooth@[i] == (before[i] && !(i % (n as int) == 0 && i < m)),
                    decreases limit + n - m,
                {
                    smooth.set(m, false);
                    proof {
                        lemma_mod_add_multiples_vanish(m as int, n as int);
                        assert forall|i: int| 0 <= i <= limit implies #[trigger] smooth@[i] == (before[i] && !(i % (
                        n as int) == 0 && i < m + n)) by {
                            if i % (n as int) == 0 && m < i < m + n {
                                crate::tables::lemma_multiples_apart(i, m as int, n as int);
                            }
                        }
                    }
                    m = m + n;
                }
                proof {
                    assert forall|i: int| 0 <= i <= limit implies #[trigger] smooth@[i] == (i >= 1 && forall|q: int|
                        ys < q < n + 1 && is_prime(q as nat) ==> #[trigger] (i % q) != 0) by {
                        if i >= 1 && i % (n as int) == 0 {
                            let q = n as int;
                            assert(ys < q < n + 1 && is_prime(q as nat) && (i % q) == 0);
                        }
                    }
                }
            } else {
                proof {
                    assert forall|i: int| 0 <= i <= limit implies #[trigger] smooth@[i] == (i >= 1 && forall|q: int|
                        ys < q < n + 1 && is_prime(q as nat) ==> #[trigger] (i % q) != 0) by {
                        if i >= 1 && !(forall|q: int| ys < q < n + 1 && is_prime(q as nat) ==> #[trigger] (i % q) != 0) {
                            let q = choose|q: int| ys < q < n + 1 && is_prime(q as nat) && #[trigger] (i % q) == 0;
                            assert(q != n);
                        }
                    }
                }
            }
        } else {
            proof {
                assert forall|i: int| 0 <= i <= limit implies #[trigger] smooth@[i] == (i >= 1 && forall|q: int|
                    ys < q < n + 1 && is_prime(q as nat) ==> #[trigger] (i % q) != 0) by {
                    if i >= 1 && !(forall|q: int| ys < q < n + 1 && is_prime(q as nat) ==> #[trigger] (i % q) != 0) {
                        let q = choose|q: int| ys < q < n + 1 && is_prime(q as nat) && #[trigger] (i % q) == 0;
                        assert(q != n);
                    }
                }
            }
        }
        n += 1;
    }
    proof {
        assert forall|i: int| 0 <= i <= limit implies #[trigger] smooth@[i] == y_smooth_spec(i, ys) by {
            if i >= 1 {
                let below = forall|q: int| ys < q < n && is_prime(q as nat) ==> #[trigger] (i % q) != 0;
                let upto = forall|q: int| ys < q <= i && is_prime(q as nat) ==> #[trigger] (i % q) != 0;
                if upto {
                    assert forall|q: int| ys < q < n && is_prime(q as nat) implies #[trigger] (i % q) != 0 by {
                        if q > i {
                            lemma_small_mod(i as nat, q as nat);
                        }
                    }
                }
                if below {
                    assert forall|q: int| ys < q <= i && is_prime(q as nat) implies #[trigger] (i % q) != 0 by {}
                }
            }
        }
        assert forall|i: int| 0 <= i <= limit implies lpf_entry(i, #[trigger] lpf@[i] as int) by {
            if i < 2 {
                assert(lpf@[i] == marked[i] || i >= n);
            }
        }
    }
    (mu, lpf, smooth)
}

} // verus!
