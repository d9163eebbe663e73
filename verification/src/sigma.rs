//! The Sigma terms of Gourdon's decomposition: closed forms in
//! `a = pi(y)`, `b = pi(cbrt(x))`, `c = pi(sqrt(x / y))`, `d = pi(x*)` and
//! `pi(sqrt(x))`, and three sums over the primes `x* < p <= cbrt(x)`.

use vstd::prelude::*;
use vstd::arithmetic::div_mod::*;
use crate::number_theory::{is_prime, prime_count, lemma_prime_count_le};
use crate::odd_sieve::CompactPi;
use crate::big_pi::BigPiTable;
use crate::roots::{isqrt, icbrt, lemma_sqrt_unique};
use crate::lmo::{is_sqrt, cube_root, lemma_cube_root};
use crate::leaf_identity::sum_to;
use crate::squarefree_tree::lemma_sum_tail_zero;
use crate::small_sieve::{sieve_past, sieve_primes_from, sieve_bound, lemma_no_prime_gap};

verus! {

/// pi(n), with `n` read no further than `lim`.
pub open spec fn pi_capped(n: int, lim: int) -> int {
    prime_count((if n <= lim { n } else { lim }) as nat) as int
}

/// The integer square root.
pub open spec fn floor_sqrt(v: int) -> int {
    choose|s: int| is_sqrt(v, s)
}

/// Sigma4 before the factor `a`: `pi(x / (p y))` for the primes
/// `p <= sqrt(x / y)`.
pub open spec fn sigma4_terms(x: int, y: int, sxy: int, lim: int) -> spec_fn(int) -> int {
    |n: int|
        if is_prime(n as nat) && n <= sxy {
            pi_capped(x / (n * y), lim)
        } else {
            0
        }
}

/// Sigma5: `pi(x / p^2)` for the primes `p > sqrt(x / y)`.
pub open spec fn sigma5_terms(x: int, sxy: int, lim: int) -> spec_fn(int) -> int {
    |n: int|
        if is_prime(n as nat) && n > sxy {
            pi_capped(x / (n * n), lim)
        } else {
            0
        }
}

/// Sigma6 before the sign: `pi(sqrt(x / p))^2` for every prime `p`.
pub open spec fn sigma6_terms(x: int, lim: int) -> spec_fn(int) -> int {
    |n: int|
        if is_prime(n as nat) {
            pi_capped(floor_sqrt(x / n), lim) * pi_capped(floor_sqrt(x / n), lim)
        } else {
            0
        }
}

/// Sigma0 to Sigma3, in `a = pi(y)`, `b = pi(cbrt(x))`, `c = pi(sqrt(x / y))`,
/// `d = pi(x*)` and `psx = pi(sqrt(x))`.
pub open spec fn sigma_closed(a: int, b: int, c: int, d: int, psx: int) -> int {
    let sigma0 = a - 1 + psx * (psx - 1) / 2 - a * (a - 1) / 2;
    let sigma1 = (a - b) * (a - b - 1) / 2;
    let sigma2 = a * (b - c - c * (c - 3) / 2 + d * (d - 3) / 2);
    let sigma3 = b * (b - 1) * (2 * b - 1) / 6 - b - (d * (d - 1) * (2 * d - 1) / 6 - d);
    sigma0 + sigma1 + sigma2 + sigma3
}

/// Sigma0 to Sigma6 added up, pi read from a table up to `lim` and
/// `pi(sqrt(x))` in full.
pub open spec fn sigma_spec(x: int, y: int, x_star: int, lim: int) -> int {
    let a = prime_count(y as nat) as int;
    let x13 = cube_root(x);
    let b = pi_capped(x13, lim);
    let sxy = floor_sqrt(x / y);
    let c = pi_capped(sxy, lim);
    let d = pi_capped(x_star, lim);
    let psx = prime_count(floor_sqrt(x) as nat) as int;
    let sigma4 = a * sum_to(sigma4_terms(x, y, sxy, lim), x_star + 1, x13 + 1);
    let sigma5 = sum_to(sigma5_terms(x, sxy, lim), x_star + 1, x13 + 1);
    let sigma6 = -sum_to(sigma6_terms(x, lim), x_star + 1, x13 + 1);
    sigma_closed(a, b, c, d, psx) + sigma4 + sigma5 + sigma6
}

proof fn lemma_floor_sqrt(v: int, s: int)
    requires
        is_sqrt(v, s),
    ensures
        floor_sqrt(v) == s,
{
    let f = floor_sqrt(v);
    assert(is_sqrt(v, f));
    lemma_sqrt_unique(v, f, s);
}

/// `n (n - 3) / 2` is `n (n - 1) / 2 - n`.
proof fn lemma_choose_shift(n: int)
    ensures
        n * (n - 3) / 2 == n * (n - 1) / 2 - n,
{
    let k = n * (n - 1);
    assert(n * (n - 3) == k - 2 * n) by (nonlinear_arith)
        requires
            k == n * (n - 1),
    ;
    lemma_fundamental_div_mod(k, 2);
    lemma_fundamental_div_mod_converse(k - 2 * n, 2, k / 2 - n, k % 2);
}

/// pi read from the compact table, capped at its limit.
fn pi_at(pi: &CompactPi, n: u64) -> (r: i128)
    requires
        pi.wf(),
    ensures
        r == pi_capped(n as int, pi.limit as int),
        0 <= r <= pi.limit,
{
    let m: usize = if n < pi.limit as u64 {
        n as usize
    } else {
        pi.limit
    };
    proof {
        lemma_prime_count_le(m as nat);
        lemma_prime_count_le(pi.limit as nat);
    }
    pi.get(m) as i128
}

/// Sigma0 + Sigma1 + Sigma2 + Sigma3.
fn sigma_closed_form(a: i128, b: i128, c: i128, d: i128, pi_sx: i128) -> (r: i128)
    requires
        0 <= a <= 0x1_0000_0000,
        0 <= b <= 0x1_0000_0000,
        0 <= c <= 0x1_0000_0000,
        0 <= d <= 0x1_0000_0000,
        0 <= pi_sx <= 0x1_0000_0000,
    ensures
        r == sigma_closed(a as int, b as int, c as int, d as int, pi_sx as int),
        -0x10_0000_0000_0000_0000_0000_0000 <= r <= 0x10_0000_0000_0000_0000_0000_0000,
{
    proof {
        lemma_choose_shift(c as int);
        lemma_choose_shift(d as int);
        assert(0 <= pi_sx * (pi_sx - 1) <= 0x1_0000_0000 * 0x1_0000_0000) by (nonlinear_arith)
            requires
                0 <= pi_sx <= 0x1_0000_0000,
        ;
        assert(0 <= a * (a - 1) <= 0x1_0000_0000 * 0x1_0000_0000) by (nonlinear_arith)
            requires
                0 <= a <= 0x1_0000_0000,
        ;
        assert(0 <= (a - b) * (a - b - 1) <= 0x2_0000_0000 * 0x2_0000_0000) by (nonlinear_arith)
            requires
                0 <= a <= 0x1_0000_0000,
                0 <= b <= 0x1_0000_0000,
        ;
        assert(0 <= c * (c - 1) <= 0x1_0000_0000 * 0x1_0000_0000) by (nonlinear_arith)
            requires
                0 <= c <= 0x1_0000_0000,
        ;
        assert(0 <= d * (d - 1) <= 0x1_0000_0000 * 0x1_0000_0000) by (nonlinear_arith)
            requires
                0 <= d <= 0x1_0000_0000,
        ;
        assert(0 <= b * (b - 1) <= 0x1_0000_0000 * 0x1_0000_0000) by (nonlinear_arith)
            requires
                0 <= b <= 0x1_0000_0000,
        ;
        assert(0 <= b * (b - 1) * (2 * b - 1) <= 0x1_0000_0000 * 0x1_0000_0000 * 0x2_0000_0000) by (nonlinear_arith)
            requires
                0 <= b <= 0x1_0000_0000,
        ;
        assert(0 <= d * (d - 1) * (2 * d - 1) <= 0x1_0000_0000 * 0x1_0000_0000 * 0x2_0000_0000) by (nonlinear_arith)
            requires
                0 <= d <= 0x1_0000_0000,
        ;
    }
    let sigma0 = a - 1 + pi_sx * (pi_sx - 1) / 2 - a * (a - 1) / 2;
    let sigma1 = (a - b) * (a - b - 1) / 2;
    let c2 = c * (c - 1) / 2 - c;
    let d2 = d * (d - 1) / 2 - d;
    let inner = b - c - c2 + d2;
    proof {
        assert(-0x1_0000_0000 * 0x1_0000_0000 <= inner <= 0x1_0000_0000 * 0x1_0000_0000);
        assert(-0x1_0000_0000 * 0x1_0000_0000 * 0x1_0000_0000 <= a * inner <= 0x1_0000_0000 * 0x1_0000_0000
            * 0x1_0000_0000) by (nonlinear_arith)
            requires
                0 <= a <= 0x1_0000_0000,
                -0x1_0000_0000 * 0x1_0000_0000 <= inner <= 0x1_0000_0000 * 0x1_0000_0000,
        ;
    }
    let sigma2 = a * inner;
    let sigma3 = b * (b - 1) * (2 * b - 1) / 6 - b - (d * (d - 1) * (2 * d - 1) / 6 - d);
    sigma0 + sigma1 + sigma2 + sigma3
}

/// Sigma0 + ... + Sigma6 for `x`, `y` and `x*`, with pi up to the compact
/// table's limit and `pi(sqrt(x))` from the big table.
pub fn compute_sigma(
    x: u64,
    y: usize,
    x_star: usize,
    _primes: &Vec<u32>,
    pi: &CompactPi,
    big_pi: &BigPiTable,
) -> (r: i128)
    requires
        1 <= y <= pi.limit,
        pi.wf(),
        big_pi.wf(),
        x < (big_pi.limit@ + 1) * (big_pi.limit@ + 1),
    ensures
        r == sigma_spec(x as int, y as int, x_star as int, pi.limit as int),
{
    let ghost lim = pi.limit as int;
    let a = pi_at(pi, y as u64);
    proof {
        lemma_prime_count_le(y as nat);
    }
    let x13 = icbrt(x);
    proof {
        lemma_cube_root(x as int, x13 as int);
        assert(x13 < 0x40_0000) by (nonlinear_arith)
            requires
                x13 * x13 * x13 <= x,
                x <= 0xffff_ffff_ffff_ffff,
        ;
    }
    let b = pi_at(pi, x13);
    let sqrt_xy = isqrt(x / y as u64);
    proof {
        lemma_floor_sqrt((x / y as u64) as int, sqrt_xy as int);
    }
    let c = pi_at(pi, sqrt_xy);
    let d = pi_at(pi, x_star as u64);
    let sqrt_x = isqrt(x);
    proof {
        lemma_floor_sqrt(x as int, sqrt_x as int);
        assert(sqrt_x <= big_pi.limit@) by (nonlinear_arith)
            requires
                sqrt_x * sqrt_x <= x,
                x < (big_pi.limit@ + 1) * (big_pi.limit@ + 1),
                big_pi.limit@ >= 0,
        ;
        assert(sqrt_x < 0x1_0000_0000) by (nonlinear_arith)
            requires
                sqrt_x * sqrt_x <= x,
                x <= 0xffff_ffff_ffff_ffff,
        ;
        lemma_prime_count_le(sqrt_x as nat);
    }
    let pi_sx = big_pi.pi(sqrt_x as usize) as i128;
    let closed = sigma_closed_form(a, b, c, d, pi_sx);
    let (s4, s5, s6) = sigma_prime_sums(x, y, x_star, x13, sqrt_xy, pi);
    proof {
        assert(0 <= a * s4 <= 0x1_0000_0000 * (0x40_0000 * 0x1_0000_0000)) by (nonlinear_arith)
            requires
                0 <= a <= 0x1_0000_0000,
                0 <= s4 <= 0x40_0000 * 0x1_0000_0000,
        ;
    }
    closed + a * s4 + s5 - s6
}

/// The three sums over the primes `x* < p <= x13`: Sigma4 before the factor
/// `a`, Sigma5, and Sigma6 before the sign.
fn sigma_prime_sums(x: u64, y: usize, x_star: usize, x13: u64, sqrt_xy: u64, pi: &CompactPi) -> (r: (
    i128,
    i128,
    i128,
))
    requires
        1 <= y <= pi.limit,
        pi.wf(),
        x13 < 0x40_0000,
    ensures
        r.0 == sum_to(sigma4_terms(x as int, y as int, sqrt_xy as int, pi.limit as int), x_star + 1, x13 + 1),
        r.1 == sum_to(sigma5_terms(x as int, sqrt_xy as int, pi.limit as int), x_star + 1, x13 + 1),
        r.2 == sum_to(sigma6_terms(x as int, pi.limit as int), x_star + 1, x13 + 1),
        0 <= r.0 <= 0x40_0000 * 0x1_0000_0000,
        0 <= r.1 <= 0x40_0000 * 0x1_0000_0000,
        0 <= r.2 <= 0x40_0000 * 0x1_0000_0000_0000_0000,
{
    let ghost lim = pi.limit as int;
    let ghost f4 = sigma4_terms(x as int, y as int, sqrt_xy as int, lim);
    let ghost f5 = sigma5_terms(x as int, sqrt_xy as int, lim);
    let ghost f6 = sigma6_terms(x as int, lim);
    let mut s4: i128 = 0;
    let mut s5: i128 = 0;
    let mut s6: i128 = 0;
    if (x_star as u64) < x13 {
        let top = x13 as usize;
        let sv = sieve_past(top);
        let cands = sieve_primes_from(&sv, x_star + 1);
        let ghost bound = sieve_bound(sv) as int;
        let ghost from = x_star + 1;
        let mut j: usize = 0;
        let ghost mut lo: int = x_star as int;
        while j < cands.len() && cands[j] <= top
            invariant
                1 <= y <= pi.limit,
                pi.wf(),
                lim == pi.limit,
                top == x13,
                x13 < 0x40_0000,
                x_star < x13,
                bound >= top,
                from == x_star + 1,
                f4 == sigma4_terms(x as int, y as int, sqrt_xy as int, lim),
                f5 == sigma5_terms(x as int, sqrt_xy as int, lim),
                f6 == sigma6_terms(x as int, lim),
                forall|a: int, b: int| 0 <= a < b < cands.len() ==> cands@[a] < cands@[b],
                forall|a: int|
                    0 <= a < cands.len() ==> is_prime(#[trigger] cands@[a] as nat) && from <= cands@[a] <= bound,
                forall|q: usize| from <= q <= bound && is_prime(q as nat) ==> #[trigger] cands@.contains(q),
                j <= cands.len(),
                j == 0 ==> lo == x_star,
                j > 0 ==> lo == cands@[j - 1],
                x_star <= lo <= top,
                j <= lo - x_star,
                s4 == sum_to(f4, x_star + 1, lo + 1),
                s5 == sum_to(f5, x_star + 1, lo + 1),
                s6 == sum_to(f6, x_star + 1, lo + 1),
                0 <= s4 <= j * 0x1_0000_0000,
                0 <= s5 <= j * 0x1_0000_0000,
                0 <= s6 <= j * 0x1_0000_0000_0000_0000,
            decreases cands.len() - j,
        {
            let p = cands[j];
            let p64 = p as u64;
            proof {
                lemma_no_prime_gap(cands@, bound, from as int, j as int, lo, p - 1);
                assert forall|i: int| lo + 1 <= i < p implies #[trigger] f4(i) == 0 && f5(i) == 0 && f6(i) == 0 by {
                    assert(!is_prime(i as nat));
                }
                lemma_sum_tail_zero(f4, x_star + 1, lo + 1, p as int);
                lemma_sum_tail_zero(f5, x_star + 1, lo + 1, p as int);
                lemma_sum_tail_zero(f6, x_star + 1, lo + 1, p as int);
                assert(is_prime(p as nat));
                assert(2 <= p < 0x40_0000);
                assert(p * y <= 0x40_0000 * 0xffff_ffff) by (nonlinear_arith)
                    requires
                        p < 0x40_0000,
                        y <= 0xffff_ffff,
                ;
                assert(p * p < 0x40_0000 * 0x40_0000 && p * p >= 4 && p * y >= 2) by (nonlinear_arith)
                    requires
                        2 <= p < 0x40_0000,
                        y >= 1,
                ;
            }
            if p64 <= sqrt_xy {
                let v = pi_at(pi, x / (p64 * y as u64));
                s4 = s4 + v;
            } else {
                let v = pi_at(pi, x / (p64 * p64));
                s5 = s5 + v;
            }
            let sqrt_xp = isqrt(x / p64);
            proof {
                lemma_floor_sqrt((x / p64) as int, sqrt_xp as int);
            }
            let w = pi_at(pi, sqrt_xp);
            proof {
                assert(0 <= w * w <= 0x1_0000_0000 * 0x1_0000_0000) by (nonlinear_arith)
                    requires
                        0 <= w <= 0x1_0000_0000,
                ;
            }
            proof {
                assert(j <= 0x40_0000);
                assert(s6 + w * w <= (j + 1) * 0x1_0000_0000_0000_0000);
            }
            s6 = s6 + w * w;
            proof {
                lo = p as int;
            }
            j = j + 1;
        }
        proof {
            lemma_no_prime_gap(cands@, bound, from as int, j as int, lo, top as int);
            assert forall|i: int| lo + 1 <= i < top + 1 implies #[trigger] f4(i) == 0 && f5(i) == 0 && f6(i) == 0 by {
                assert(!is_prime(i as nat));
            }
            lemma_sum_tail_zero(f4, x_star + 1, lo + 1, top + 1);
            lemma_sum_tail_zero(f5, x_star + 1, lo + 1, top + 1);
            lemma_sum_tail_zero(f6, x_star + 1, lo + 1, top + 1);
            assert(s6 <= 0x40_0000 * 0x1_0000_0000_0000_0000) by (nonlinear_arith)
                requires
                    s6 <= j * 0x1_0000_0000_0000_0000,
                    j <= 0x40_0000,
            ;
            assert(s4 <= 0x40_0000 * 0x1_0000_0000 && s5 <= 0x40_0000 * 0x1_0000_0000) by (nonlinear_arith)
                requires
                    s4 <= j * 0x1_0000_0000,
                    s5 <= j * 0x1_0000_0000,
                    j <= 0x40_0000,
            ;
        }
    }
    (s4, s5, s6)
}

} // verus!
