//! The ordinary leaves of the Lagarias-Miller-Odlyzko decomposition:
//! `S1 = sum of mu(n) * phi(x / n, c)` over the `n <= y` whose least prime
//! factor exceeds the `c`-th prime.

use vstd::prelude::*;
use crate::tables::{mobius, least_prime_factor, phi_tiny_spec, tiny_prime_spec, PhiTinyCache};

verus! {

/// The contribution of `n`: `mu(n) * phi(x / n, c)` when `mu(n) != 0` and the
/// least prime factor of `n` exceeds `pc`; 0 otherwise.
pub open spec fn s1_term(x: int, n: int, c: int, pc: int) -> int {
    if mobius(n) != 0 && least_prime_factor(n) > pc {
        mobius(n) * phi_tiny_spec(x / n, c)
    } else {
        0
    }
}

/// The ordinary leaves `n` in `1..=m`.
pub open spec fn s1_sum(x: int, m: int, c: int, pc: int) -> int
    decreases m,
{
    if m <= 0 {
        0
    } else {
        s1_sum(x, m - 1, c, pc) + s1_term(x, m, c, pc)
    }
}

/// The `c`-th prime, or 0 for `c = 0`.
pub open spec fn cth_prime(c: int) -> int {
    if c == 0 {
        0
    } else {
        tiny_prime_spec(c)
    }
}

/// S1 from the tables of `mu` and of least prime factors up to `y` and the
/// small-phi table for the first `c` primes; `pc` is the `c`-th prime (0 for
/// no prime).
pub fn compute_s1(x: u64, y: usize, pc: u64, mu: &Vec<i8>, lpf: &Vec<i32>, phi_cache: &PhiTinyCache) -> (s1: i128)
    requires
        x <= i64::MAX,
        phi_cache.wf(),
        pc == cth_prime(phi_cache.c@),
        mu.len() == y + 1,
        lpf.len() == y + 1,
        y < usize::MAX,
        forall|n: int| 0 <= n <= y ==> #[trigger] mu@[n] == mobius(n),
        forall|n: int| 0 <= n <= y ==> #[trigger] lpf@[n] == least_prime_factor(n),
    ensures
        s1 == s1_sum(x as int, y as int, phi_cache.c@, pc as int),
{
    let mut s1: i128 = 0;
    let mut n: usize = 1;
    while n <= y
        invariant
            x <= i64::MAX,
            phi_cache.wf(),
            pc == cth_prime(phi_cache.c@),
            mu.len() == y + 1,
            lpf.len() == y + 1,
            y < usize::MAX,
            forall|m: int| 0 <= m <= y ==> #[trigger] mu@[m] == mobius(m),
            forall|m: int| 0 <= m <= y ==> #[trigger] lpf@[m] == least_prime_factor(m),
            1 <= n <= y + 1,
            s1 == s1_sum(x as int, n - 1, phi_cache.c@, pc as int),
            -(n as int) * 0x8000_0000_0000_0000 <= s1 <= (n as int) * 0x8000_0000_0000_0000,
        decreases y + 1 - n,
    {
        let m = mu[n];
        let l = lpf[n];
        if m != 0 && l > pc as i32 {
            let v = phi_cache.phi(x / n as u64);
            proof {
                assert(-1 <= m <= 1) by {
                    crate::tables::lemma_mobius_range_pub(n as int);
                }
                crate::tables::lemma_phi_tiny_le((x / n as u64) as int, phi_cache.c@);
                assert(0 <= v <= x);
            }
            let t: i128 = if m > 0 {
                v as i128
            } else {
                -(v as i128)
            };
            proof {
                assert(t == mobius(n as int) * phi_tiny_spec((x / n as u64) as int, phi_cache.c@)) by {
                    assert(m == 1 || m == -1);
                }
            }
            s1 = s1 + t;
        }
        n += 1;
    }
    s1
}

/// S1 over `1..=m` is at most `m * x` in size.
pub proof fn lemma_s1_bound(x: int, m: int, c: int, pc: int)
    requires
        x >= 0,
        m >= 0,
    ensures
        -(m * x) <= s1_sum(x, m, c, pc) <= m * x,
    decreases m,
{
    if m > 0 {
        lemma_s1_bound(x, m - 1, c, pc);
        crate::tables::lemma_mobius_range_pub(m);
        vstd::arithmetic::div_mod::lemma_div_is_ordered_by_denominator(x, 1, m);
        vstd::arithmetic::div_mod::lemma_div_pos_is_pos(x, m);
        crate::tables::lemma_phi_tiny_le(x / m, c);
        let f = phi_tiny_spec(x / m, c);
        let mu = mobius(m);
        assert(-x <= mu * f <= x) by (nonlinear_arith)
            requires
                -1 <= mu <= 1,
                0 <= f <= x,
        ;
        assert(m * x == (m - 1) * x + x) by (nonlinear_arith);
    } else {
        assert(m * x == 0) by (nonlinear_arith)
            requires
                m == 0,
        ;
    }
}

} // verus!
