//! Counting the unmarked wheel positions of a sieve segment, and why that
//! count is a difference of prime counts.

use vstd::prelude::*;
use vstd::arithmetic::div_mod::*;
use crate::number_theory::{is_prime, prime_count, lemma_divisor_not_prime};
use crate::wheel::{
    bit_set, wheel_offset, is_wheel_residue, wheel_offset_at, lemma_non_wheel_residue_divisible,
    lemma_wheel_offset_facts,
};

verus! {

/// The number of wheel residues `k < m` with `wheel_offset(k) <= c` for which
/// `base + wheel_offset(k)` is prime.
pub open spec fn wheel_prime_sum(base: int, c: int, m: int) -> nat
    decreases m,
{
    if m <= 0 {
        0
    } else {
        wheel_prime_sum(base, c, m - 1) + if wheel_offset(m - 1) <= c && is_prime(
            (base + wheel_offset(m - 1)) as nat,
        ) {
            1nat
        } else {
            0nat
        }
    }
}

/// `c` is one of the first `m` wheel residues.
pub open spec fn in_first(c: int, m: int) -> bool {
    exists|k: int| 0 <= k < m && #[trigger] wheel_offset(k) == c
}

proof fn lemma_wheel_prime_sum_step(base: int, c: int, m: int)
    requires
        0 <= m <= 8,
        base >= 0,
    ensures
        wheel_prime_sum(base, c, m) == wheel_prime_sum(base, c - 1, m) + if in_first(c, m) && is_prime(
            (base + c) as nat,
        ) {
            1nat
        } else {
            0nat
        },
    decreases m,
{
    if m > 0 {
        lemma_wheel_prime_sum_step(base, c, m - 1);
        lemma_wheel_offset_facts(m - 1);
        if in_first(c, m) {
            let k = choose|k: int| 0 <= k < m && #[trigger] wheel_offset(k) == c;
            if k < m - 1 {
                assert(in_first(c, m - 1));
                lemma_wheel_offset_facts(m - 1);
            } else {
                if in_first(c, m - 1) {
                    let k2 = choose|k: int| 0 <= k < m - 1 && #[trigger] wheel_offset(k) == c;
                    lemma_wheel_offset_facts(m - 1);
                    assert(wheel_offset(k2) < wheel_offset(m - 1));
                }
            }
        } else {
            if in_first(c, m - 1) {
                let k = choose|k: int| 0 <= k < m - 1 && #[trigger] wheel_offset(k) == c;
                assert(in_first(c, m));
            }
            assert(wheel_offset(m - 1) != c);
        }
    }
}

proof fn lemma_in_first_8(c: int)
    ensures
        in_first(c, 8) <==> is_wheel_residue(c),
{
    if is_wheel_residue(c) {
        if c == 1 {
            assert(wheel_offset(0) == c);
        } else if c == 7 {
            assert(wheel_offset(1) == c);
        } else if c == 11 {
            assert(wheel_offset(2) == c);
        } else if c == 13 {
            assert(wheel_offset(3) == c);
        } else if c == 17 {
            assert(wheel_offset(4) == c);
        } else if c == 19 {
            assert(wheel_offset(5) == c);
        } else if c == 23 {
            assert(wheel_offset(6) == c);
        } else {
            assert(wheel_offset(7) == c);
        }
    }
    if in_first(c, 8) {
        let k = choose|k: int| 0 <= k < 8 && #[trigger] wheel_offset(k) == c;
        lemma_wheel_offset_facts(k);
    }
}

/// The primes in a block of 30 from a multiple of 30 (at least 30) all lie on
/// wheel residues: `pi(base + c) - pi(base - 1)` is the wheel prime sum.
pub proof fn lemma_block_primes(base: int, c: int)
    requires
        base >= 30,
        base % 30 == 0,
        -1 <= c <= 29,
    ensures
        prime_count((base + c) as nat) == prime_count((base - 1) as nat) + wheel_prime_sum(
            base,
            c,
            8,
        ),
    decreases c + 1,
{
    if c == -1 {
        lemma_wheel_prime_sum_zero(base, -1, 8);
    } else {
        lemma_block_primes(base, c - 1);
        lemma_wheel_prime_sum_step(base, c, 8);
        lemma_in_first_8(c);
        let n = base + c;
        assert(prime_count(n as nat) == prime_count((n - 1) as nat) + if is_prime(n as nat) {
            1nat
        } else {
            0nat
        });
        if !is_wheel_residue(c) {
            assert(n % 30 == c) by {
                lemma_mod_multiples_vanish(base / 30, c, 30);
                lemma_fundamental_div_mod(base, 30);
                lemma_small_mod(c as nat, 30);
            }
            lemma_non_wheel_residue_divisible(n);
            if n % 2 == 0 {
                lemma_divisor_not_prime(n as nat, 2);
            } else if n % 3 == 0 {
                lemma_divisor_not_prime(n as nat, 3);
            } else {
                lemma_divisor_not_prime(n as nat, 5);
            }
        }
    }
}

proof fn lemma_wheel_prime_sum_zero(base: int, c: int, m: int)
    requires
        c < 1,
        m <= 8,
    ensures
        wheel_prime_sum(base, c, m) == 0,
    decreases m,
{
    if m > 0 {
        lemma_wheel_prime_sum_zero(base, c, m - 1);
        if m - 1 >= 0 {
            lemma_wheel_offset_facts(m - 1);
        }
    }
}

proof fn lemma_wheel_prime_sum_saturate(base: int, c: int, m: int)
    requires
        c >= 29,
        0 <= m <= 8,
    ensures
        wheel_prime_sum(base, c, m) == wheel_prime_sum(base, 29, m),
    decreases m,
{
    if m > 0 {
        lemma_wheel_prime_sum_saturate(base, c, m - 1);
        lemma_wheel_offset_facts(m - 1);
    }
}

/// The number of clear bits `k < m` of a byte whose numbers `base +
/// wheel_offset(k)` do not exceed `limit`.
pub open spec fn byte_unmarked(b: u8, base: int, limit: int, m: int) -> nat
    decreases m,
{
    if m <= 0 {
        0
    } else {
        byte_unmarked(b, base, limit, m - 1) + if !bit_set(b, m - 1) && base + wheel_offset(m - 1)
            <= limit {
            1nat
        } else {
            0nat
        }
    }
}

/// The unmarked numbers up to `limit` in the first `n` bytes of a segment.
pub open spec fn unmarked_count(sv: Seq<u8>, s: int, limit: int, n: int) -> nat
    decreases n,
{
    if n <= 0 {
        0
    } else {
        unmarked_count(sv, s, limit, n - 1) + byte_unmarked(sv[n - 1], s + 30 * (n - 1), limit, 8)
    }
}

/// Counts the clear bits of `b` whose numbers do not exceed `limit`.
pub fn count_unmarked_in_byte(b: u8, base: u64, limit: u64) -> (c: u64)
    requires
        base + 29 < 0x1_0000_0000_0000_0000,
    ensures
        c == byte_unmarked(b, base as int, limit as int, 8),
        c <= 8,
{
    let mut c: u64 = 0;
    let mut k: usize = 0;
    while k < 8
        invariant
            k <= 8,
            base + 29 < 0x1_0000_0000_0000_0000,
            c == byte_unmarked(b, base as int, limit as int, k as int),
            c <= k,
        decreases 8 - k,
    {
        let bit = crate::wheel::wheel_bit(k);
        proof {
            lemma_wheel_offset_facts(k as int);
            let kk = k as u8;
            assert((b & bit != 0u8) <==> ((b >> kk) & 1u8 == 1u8)) by (bit_vector)
                requires
                    bit == 1u8 << kk,
                    kk < 8,
            ;
        }
        let n = base + wheel_offset_at(k) as u64;
        if b & bit == 0 && n <= limit {
            c += 1;
        }
        k += 1;
    }
    c
}

/// Counts the unmarked numbers up to `limit` in `sieve[0..len]`.
pub fn count_primes_in_sieve(sieve: &Vec<u8>, len: usize, seg_start: u64, limit: u64) -> (count: u64)
    requires
        len <= sieve.len(),
        seg_start + 30 * len < 0x1_0000_0000_0000_0000,
    ensures
        count == unmarked_count(sieve@, seg_start as int, limit as int, len as int),
        count <= 8 * len,
{
    let mut count: u64 = 0;
    let mut j: usize = 0;
    while j < len
        invariant
            j <= len <= sieve.len(),
            seg_start + 30 * len < 0x1_0000_0000_0000_0000,
            count == unmarked_count(sieve@, seg_start as int, limit as int, j as int),
            count <= 8 * j,
        decreases len - j,
    {
        let base = seg_start + 30 * (j as u64);
        let c = count_unmarked_in_byte(sieve[j], base, limit);
        count += c;
        j += 1;
    }
    count
}

/// A byte whose clear bits are exactly the primes among its numbers counts
/// the primes of its block.
pub proof fn lemma_byte_unmarked_primes(b: u8, base: int, limit: int, m: int)
    requires
        0 <= m <= 8,
        forall|k: int|
            0 <= k < 8 && base + wheel_offset(k) <= limit ==> (bit_set(b, k) <==> !is_prime(
                (base + #[trigger] wheel_offset(k)) as nat,
            )),
    ensures
        byte_unmarked(b, base, limit, m) == wheel_prime_sum(base, limit - base, m),
    decreases m,
{
    if m > 0 {
        lemma_byte_unmarked_primes(b, base, limit, m - 1);
    }
}

/// Summing over whole blocks: when every byte's clear bits are exactly the
/// primes among its numbers up to `limit`, the unmarked count of the first
/// `n` bytes is `pi(min(s + 30 n - 1, limit)) - pi(s - 1)`.
pub proof fn lemma_unmarked_count_primes(sv: Seq<u8>, s: int, limit: int, n: int)
    requires
        s >= 30,
        s % 30 == 0,
        0 <= n <= sv.len(),
        s - 1 <= limit,
        n == 0 || s + 30 * (n - 1) <= limit,
        forall|j: int, k: int|
            0 <= j < n && 0 <= k < 8 && s + 30 * j + wheel_offset(k) <= limit ==> (#[trigger] bit_set(
                sv[j],
                k,
            ) <==> !is_prime((s + 30 * j + wheel_offset(k)) as nat)),
    ensures
        unmarked_count(sv, s, limit, n) + prime_count((s - 1) as nat) == prime_count(
            (if s + 30 * n - 1 <= limit {
                s + 30 * n - 1
            } else {
                limit
            }) as nat,
        ),
    decreases n,
{
    if n > 0 {
        lemma_unmarked_count_primes(sv, s, limit, n - 1);
        let base = s + 30 * (n - 1);
        assert(base % 30 == 0) by {
            lemma_mod_multiples_vanish(n - 1, s, 30);
        }
        assert forall|k: int|
            0 <= k < 8 && base + wheel_offset(k) <= limit implies (bit_set(sv[n - 1], k) <==> !is_prime(
                (base + #[trigger] wheel_offset(k)) as nat,
            )) by {
            assert(bit_set(sv[n - 1], k) <==> !is_prime((s + 30 * (n - 1) + wheel_offset(k)) as nat));
        }
        lemma_byte_unmarked_primes(sv[n - 1], base, limit, 8);
        assert(unmarked_count(sv, s, limit, n) == unmarked_count(sv, s, limit, n - 1)
            + byte_unmarked(sv[n - 1], base, limit, 8));
        assert(base - 1 <= limit);
        assert(unmarked_count(sv, s, limit, n - 1) + prime_count((s - 1) as nat) == prime_count(
            (base - 1) as nat,
        ));
        if limit - base >= 29 {
            lemma_wheel_prime_sum_saturate(base, limit - base, 8);
            lemma_block_primes(base, 29);
            assert(s + 30 * n - 1 == base + 29);
        } else {
            lemma_block_primes(base, limit - base);
            assert(base + (limit - base) == limit);
        }
    }
}

} // verus!
