//! P2(x, y): the products `p * q <= x` of two primes `y < p <= q`, the term
//! that the Lagarias-Miller-Odlyzko and Deleglise-Rivat counters subtract.

use vstd::prelude::*;
use vstd::arithmetic::div_mod::*;
use crate::number_theory::{is_prime, prime_count, lemma_prime_count_le, lemma_prime_count_monotone};
use crate::pi_sieve::PiSieve;
use crate::roots::isqrt;
use crate::small_sieve::{sieve_past, sieve_primes_from, sieve_bound, lemma_no_prime_gap};

verus! {

/// The P2 terms of the primes `p` in `(y, s]` with `p * p <= x`: each is
/// `pi(x / p) - pi(p) + 1`, the number of primes `q` in `[p, x / p]`.
pub open spec fn p2_terms(x: int, y: int, s: int) -> int
    decreases s,
{
    if s <= y || s < 2 {
        0
    } else {
        p2_terms(x, y, s - 1) + if is_prime(s as nat) && s * s <= x {
            prime_count((x / s) as nat) - prime_count(s as nat) + 1
        } else {
            0
        }
    }
}

/// P2(x, y): the number of products `p * q <= x` of primes `y < p <= q`,
/// counted by the smaller factor.
pub open spec fn p2_spec(x: int, y: int) -> int {
    p2_terms(x, y, x)
}

/// `pi(x / p)` summed over the primes `p` in `(y, s]`.
pub open spec fn p2_pi_sum(x: int, y: int, s: int) -> int
    decreases s,
{
    if s <= y || s < 2 {
        0
    } else {
        p2_pi_sum(x, y, s - 1) + if is_prime(s as nat) {
            prime_count((x / s) as nat) as int
        } else {
            0
        }
    }
}

/// `pi(p) - 1` summed over the primes `p` in `(y, s]`.
pub open spec fn p2_rank_sum(y: int, s: int) -> int
    decreases s,
{
    if s <= y || s < 2 {
        0
    } else {
        p2_rank_sum(y, s - 1) + if is_prime(s as nat) {
            prime_count(s as nat) - 1
        } else {
            0
        }
    }
}

/// The number of pairs among `n` things.
pub open spec fn choose2(n: int) -> int {
    n * (n - 1) / 2
}

proof fn lemma_choose2_step(k: int)
    requires
        k >= 0,
    ensures
        choose2(k + 1) == choose2(k) + k,
{
    lemma_fundamental_div_mod(k * (k - 1), 2);
    lemma_fundamental_div_mod((k + 1) * k, 2);
    assert((k + 1) * k == k * (k - 1) + 2 * k) by (nonlinear_arith);
    lemma_div_multiples_vanish_fancy(k, k * (k - 1), 2);
}

proof fn lemma_div_multiples_vanish_fancy(k: int, a: int, d: int)
    requires
        d > 0,
    ensures
        (a + d * k) / d == a / d + k,
{
    lemma_fundamental_div_mod(a, d);
    assert(a + d * k == d * (a / d + k) + a % d) by (nonlinear_arith)
        requires
            a == d * (a / d) + a % d,
    ;
    lemma_fundamental_div_mod_converse(a + d * k, d, a / d + k, a % d);
}

/// The ranks of the primes in `(y, s]` sum to `C(pi(s), 2) - C(pi(y), 2)`.
pub proof fn lemma_rank_sum(y: int, s: int)
    requires
        0 <= y <= s,
    ensures
        p2_rank_sum(y, s) == choose2(prime_count(s as nat) as int) - choose2(prime_count(y as nat) as int),
    decreases s,
{
    if s > y {
        lemma_rank_sum(y, s - 1);
        if s >= 2 && is_prime(s as nat) {
            lemma_choose2_step(prime_count((s - 1) as nat) as int);
        }
        if s < 2 {
            assert(s == 1 && y == 0);
            assert(!is_prime(1nat));
        }
    }
}

/// Below the square root of `x` every prime contributes its full term.
proof fn lemma_terms_split(x: int, y: int, s: int)
    requires
        0 <= y,
        s >= 0,
        s * s <= x,
    ensures
        p2_terms(x, y, s) == p2_pi_sum(x, y, s) - p2_rank_sum(y, s),
    decreases s,
{
    if s > y && s >= 2 {
        assert((s - 1) * (s - 1) <= x) by (nonlinear_arith)
            requires
                s * s <= x,
                s >= 1,
        ;
        lemma_terms_split(x, y, s - 1);
    }
}

/// Past the square root of `x` no term is added.
proof fn lemma_terms_stable(x: int, y: int, s: int, t: int)
    requires
        0 <= s <= t,
        x < (s + 1) * (s + 1),
    ensures
        p2_terms(x, y, t) == p2_terms(x, y, s),
    decreases t,
{
    if t > s {
        lemma_terms_stable(x, y, s, t - 1);
        assert(t * t > x) by (nonlinear_arith)
            requires
                t >= s + 1,
                x < (s + 1) * (s + 1),
                s >= 0,
        ;
    }
}

/// The sum of `pi(x / p)` does not move over a stretch without primes.
proof fn lemma_pi_sum_gap(x: int, y: int, a: int, b: int)
    requires
        y <= a <= b,
        forall|q: int| a < q <= b ==> !#[trigger] is_prime(q as nat),
    ensures
        p2_pi_sum(x, y, b) == p2_pi_sum(x, y, a),
    decreases b - a,
{
    if b > a {
        lemma_pi_sum_gap(x, y, a, b - 1);
        assert(!is_prime(b as nat));
    }
}

/// P2(x, y) from a table of pi: with `s = isqrt(x)`, the sum of `pi(x / p)`
/// over the primes `p` in `(y, s]`, less `C(pi(s), 2) - C(pi(y), 2)`; 0 when
/// `y >= s`. `pi_y` is pi(y).
pub fn compute_p2(x: u64, y: usize, pi_y: usize) -> (r: i128)
    requires
        pi_y == prime_count(y as nat),
        (x as int) / (y as int + 1) <= usize::MAX / 2,
    ensures
        r == p2_spec(x as int, y as int),
{
    let sqrt_x = isqrt(x);
    proof {
        assert(sqrt_x <= x) by (nonlinear_arith)
            requires
                sqrt_x * sqrt_x <= x,
        ;
        lemma_terms_stable(x as int, y as int, sqrt_x as int, x as int);
    }
    if y as u64 >= sqrt_x {
        return 0;
    }
    let max_val = x / (y as u64 + 1);
    proof {
        // sqrt_x <= x / (y + 1), since y + 1 <= sqrt_x
        lemma_div_is_ordered_by_denominator(x as int, y as int + 1, sqrt_x as int);
        lemma_fundamental_div_mod(x as int, sqrt_x as int);
        assert(sqrt_x <= (x as int) / (sqrt_x as int)) by (nonlinear_arith)
            requires
                sqrt_x * sqrt_x <= x,
                x == sqrt_x * ((x as int) / (sqrt_x as int)) + (x as int) % (sqrt_x as int),
                (x as int) % (sqrt_x as int) < sqrt_x,
                sqrt_x >= 1,
        ;
        assert(sqrt_x < 0x1_0000_0000) by (nonlinear_arith)
            requires
                sqrt_x * sqrt_x <= x,
                x <= 0xffff_ffff_ffff_ffff,
        ;
    }
    let sieve_limit: u64 = if max_val > sqrt_x {
        max_val
    } else {
        sqrt_x
    };
    let p2_sieve = PiSieve::new(sieve_limit as usize);
    let s = sqrt_x as usize;
    let pi_sqrt_x = p2_sieve.prime_pi(s);
    let small = sieve_past(s);
    let primes = sieve_primes_from(&small, y + 1);
    let ghost bound = sieve_bound(small) as int;
    let mut sum: i128 = 0;
    let mut i: usize = 0;
    let mut done = false;
    let ghost mut lo: int = y as int;
    while i < primes.len() && !done
        invariant
            (x as int) / (y as int + 1) == max_val,
            max_val <= sieve_limit,
            p2_sieve.wf(),
            p2_sieve.limit@ == sieve_limit,
            s == sqrt_x,
            y < s,
            s < 0x1_0000_0000,
            s <= bound,
            (x as int) / (y as int + 1) <= usize::MAX / 2,
            forall|a: int, b: int| 0 <= a < b < primes.len() ==> primes@[a] < primes@[b],
            forall|a: int|
                0 <= a < primes.len() ==> is_prime(#[trigger] primes@[a] as nat) && y + 1 <= primes@[a],
            forall|q: usize| y + 1 <= q <= bound && is_prime(q as nat) ==> #[trigger] primes@.contains(q),
            0 <= i <= primes.len(),
            i == 0 ==> lo == y,
            i > 0 ==> lo == primes@[i - 1] && primes@[i - 1] >= i,
            y <= lo <= s,
            sum == p2_pi_sum(x as int, y as int, lo),
            0 <= sum <= i * 0x1_0000_0000_0000_0000,
            done ==> i < primes.len() && primes@[i as int] > s,
        decreases primes.len() - i + (if done { 0int } else { 1int }),
    {
        let p = primes[i];
        if p > s {
            done = true;
        } else {
            proof {
                lemma_no_prime_gap(primes@, bound, y + 1, i as int, lo, p - 1);
                lemma_pi_sum_gap(x as int, y as int, lo, p - 1);
                lemma_div_is_ordered_by_denominator(x as int, y as int + 1, p as int);
                if i > 0 {
                    assert(primes@[i - 1] < primes@[i as int]);
                }
            }
            let q = x / p as u64;
            let c = p2_sieve.prime_pi(q as usize);
            proof {
                lemma_prime_count_le(q as nat);
            }
            proof {
                assert(p2_pi_sum(x as int, y as int, p as int) == p2_pi_sum(x as int, y as int, p - 1)
                    + prime_count(((x as int) / (p as int)) as nat));
            }
            sum = sum + c as i128;
            i += 1;
            proof {
                lo = p as int;
            }
        }
    }
    proof {
        lemma_no_prime_gap(primes@, bound, y + 1, i as int, lo, s as int);
        lemma_pi_sum_gap(x as int, y as int, lo, s as int);
        lemma_terms_split(x as int, y as int, s as int);
        lemma_rank_sum(y as int, s as int);
        lemma_prime_count_le(s as nat);
        lemma_prime_count_le(y as nat);
        lemma_prime_count_monotone(y as nat, s as nat);
    }
    let a = pi_sqrt_x as i128;
    let b = pi_y as i128;
    proof {
        assert(0 <= a * (a - 1) <= 0x1_0000_0000 * 0x1_0000_0000) by (nonlinear_arith)
            requires
                0 <= a <= 0x1_0000_0000,
        ;
        assert(0 <= b * (b - 1) <= 0x1_0000_0000 * 0x1_0000_0000) by (nonlinear_arith)
            requires
                0 <= b <= 0x1_0000_0000,
        ;
    }
    sum - a * (a - 1) / 2 + b * (b - 1) / 2
}

/// P2 is at most `s * x` for the square root `s` of `x`.
pub proof fn lemma_p2_bound(x: int, y: int, s: int)
    requires
        x >= 0,
        s >= 0,
        s * s <= x < (s + 1) * (s + 1),
    ensures
        0 <= p2_spec(x, y) <= s * x,
{
    assert(s <= x) by (nonlinear_arith)
        requires
            s * s <= x,
            s >= 0,
    ;
    lemma_terms_stable(x, y, s, x);
    lemma_terms_bound(x, y, s);
}

proof fn lemma_terms_bound(x: int, y: int, t: int)
    requires
        x >= 0,
        t >= 0,
    ensures
        0 <= p2_terms(x, y, t) <= t * x,
    decreases t,
{
    if t > y && t >= 2 {
        lemma_terms_bound(x, y, t - 1);
        if is_prime(t as nat) && t * t <= x {
            lemma_fundamental_div_mod(x, t);
            assert(t <= x / t) by (nonlinear_arith)
                requires
                    t * t <= x,
                    x == t * (x / t) + x % t,
                    0 <= x % t < t,
                    t >= 2,
            ;
            lemma_prime_count_monotone(t as nat, (x / t) as nat);
            lemma_prime_count_le((x / t) as nat);
            lemma_div_is_ordered_by_denominator(x, 1, t);
        }
        assert(t * x == (t - 1) * x + x) by (nonlinear_arith);
    } else {
        assert(t * x >= 0) by (nonlinear_arith)
            requires
                t >= 0,
                x >= 0,
        ;
        if t >= 1 {
        }
    }
}

} // verus!
