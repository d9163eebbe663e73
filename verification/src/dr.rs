//! The prime count of the Deleglise-Rivat method: the ordinary leaves, the
//! special leaves split into easy and hard ones, and P2.

use vstd::prelude::*;
use vstd::arithmetic::div_mod::*;
use crate::roots::isqrt;
use crate::small_sieve::{sieve_past, sieve_prime_pi};
use crate::tables::{generate_lpf, generate_mu, generate_pi, PhiTinyCache, NO_FACTOR};
use crate::leaves::compute_s1;
use crate::p2::compute_p2;
use crate::number_theory::prime_count;
use crate::special_leaves::{lemma_prime_table, lemma_rows_bound};
use crate::lmo::{prime_table_from_sieve, lemma_s2_bound, LMO_MAX};
use crate::easy_leaves::{compute_s2_easy, easy_min_b, lemma_s2_split, L3_BYTES};
use crate::hard_leaves::compute_s2_hard;

verus! {

/// The `y` the method can run with for `x`: past the cube root of `x`, at
/// most its square root, and from 46 up, with room for the tables.
pub open spec fn dr_y_ok(x: u64, y: usize) -> bool {
    &&& 46 <= y < NO_FACTOR
    &&& (y as int) * (y as int) <= x
    &&& (x as int) < (y as int + 1) * (y as int + 1) * (y as int + 1)
}

/// pi(x) as S1 + S2_easy + S2_hard + pi(y) - 1 - P2, the first 6 primes
/// pre-sieved; `primal` answers up to 10 000. `seg_size` is the window of
/// the easy leaves when their pi table does not fit in the cache.
pub fn count_primes_dr(x: u64, y: usize, seg_size: usize) -> (r: u64)
    requires
        usize::BITS == 64,
        x <= LMO_MAX,
        x > 10_000 ==> dr_y_ok(x, y),
        x > 10_000 ==> 1 <= seg_size <= 0x1_0000_0000,
    ensures
        r == prime_count(x as nat),
{
    if x < 2 {
        proof {
            crate::number_theory::lemma_prime_count_small();
        }
        return 0;
    }
    if x <= 10_000 {
        let s = sieve_past(x as usize);
        return sieve_prime_pi(&s, x as usize) as u64;
    }
    let z = (x / y as u64) as usize;
    let prime_sieve = sieve_past(y);
    let primes = prime_table_from_sieve(&prime_sieve, y);
    let pi_y = primes.len() - 1;
    proof {
        lemma_prime_table(primes@, y as int);
        crate::special_leaves::lemma_small_primes();
        crate::number_theory::lemma_prime_count_monotone(17, y as nat);
        crate::special_leaves::lemma_tiny_primes_in_table(primes@, y as int, 6);
    }
    let c: usize = if pi_y < 6 {
        pi_y
    } else {
        6
    };
    let phi_cache = PhiTinyCache::new(c);
    let lpf = generate_lpf(y);
    let mu = generate_mu(y);
    proof {
        crate::number_theory::lemma_prime_count_le(y as nat);
    }
    let pi = generate_pi(y, &prime_sieve);
    // S1: the ordinary leaves
    let pc = primes[c] as u64;
    proof {
        crate::tables::lemma_tiny_product_values();
    }
    let s1 = compute_s1(x, y, pc, &mu, &lpf, &phi_cache);
    // S2 = S2_easy + S2_hard
    proof {
        lemma_div_is_ordered_by_denominator(x as int, 46, y as int);
    }
    let s2_easy = compute_s2_easy(x, y, z, c, &primes, &pi, seg_size);
    let s2_hard = compute_s2_hard(x, y, z, c, &primes, &lpf, &mu, &pi);
    // P2
    proof {
        lemma_div_is_ordered_by_denominator(x as int, 46, y as int + 1);
    }
    let p2 = compute_p2(x, y, pi_y);
    proof {
        let ps = primes@;
        let xi = x as int;
        let yi = y as int;
        lemma_s2_split(xi, yi, z as int, ps, 6);
        let sx = crate::lmo::isqrt_witness(x);
        crate::p2::lemma_p2_bound(xi, yi, sx);
        crate::leaves::lemma_s1_bound(xi, yi, 6, 13);
        lemma_rows_bound(xi, yi, ps, 6, pi_y - 1, 0, xi + 1);
        lemma_s2_bound(xi, yi, pi_y - 1 - 6);
        assert(sx * xi <= 0x1_0000_0000 * 0x8000_0000_0000_0000) by (nonlinear_arith)
            requires
                sx * sx <= xi,
                sx >= 0,
                xi < 0x8000_0000_0000_0000,
        ;
        assert(yi * xi <= 0x8000_0000 * 0x8000_0000_0000_0000) by (nonlinear_arith)
            requires
                0 <= yi < 0x8000_0000,
                0 <= xi < 0x8000_0000_0000_0000,
        ;
        assert(yi <= xi) by (nonlinear_arith)
            requires
                yi * yi <= xi,
                yi >= 1,
        ;
        crate::leaf_identity::lemma_lmo_identity(xi, yi, ps);
        crate::number_theory::lemma_prime_count_le(x as nat);
    }
    let result = s1 + (s2_easy + s2_hard) + pi_y as i128 - 1 - p2;
    result as u64
}

} // verus!
