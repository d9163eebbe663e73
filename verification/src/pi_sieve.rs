//! A sieve of the odd numbers up to a bound, one bit per odd number, with
//! per-word prefix counts: pi(n) in constant time.

use vstd::prelude::*;
use crate::bits::{
    bit_of, ones_below, popcount, count_ones, low_mask, low_mask_exec, lemma_popcount_masked,
    lemma_ones_below_le,
};
use crate::number_theory::{is_prime, prime_count, lemma_no_small_factor_prime, lemma_prime_count_small};
use crate::roots::isqrt;
use crate::small_sieve::{sieve_past, sieve_primes_from, sieve_bound};

verus! {

/// Bit `i` of a bitmap stored in 64-bit words.
pub open spec fn flat_bit(words: Seq<u64>, i: int) -> bool {
    bit_of(words[i / 64], i % 64)
}

/// The set bits of a word-stored bitmap at positions below `j`.
pub open spec fn flat_ones(words: Seq<u64>, j: int) -> nat
    decreases j,
{
    if j <= 0 {
        0
    } else {
        flat_ones(words, j - 1) + if flat_bit(words, j - 1) {
            1nat
        } else {
            0nat
        }
    }
}

/// Inside word `w`, the count grows by the bits of that word.
pub proof fn lemma_flat_ones_word(words: Seq<u64>, w: int, k: int)
    requires
        0 <= w < words.len(),
        0 <= k <= 64,
    ensures
        flat_ones(words, 64 * w + k) == flat_ones(words, 64 * w) + ones_below(words[w], k),
    decreases k,
{
    if k > 0 {
        lemma_flat_ones_word(words, w, k - 1);
        let i = 64 * w + k - 1;
        assert(i / 64 == w && i % 64 == k - 1) by {
            vstd::arithmetic::div_mod::lemma_fundamental_div_mod_converse(i, 64, w, k - 1);
        }
    }
}

/// The odd number that bit `i` stands for.
pub open spec fn odd_of(i: int) -> int {
    2 * i + 1
}

/// The bitmap of the odd numbers up to `limit`, with prefix counts.
pub struct PiSieve {
    pub bitmap: Vec<u64>,
    pub prefix: Vec<u64>,
    pub limit: Ghost<int>,
}

impl PiSieve {
    /// Bit `i` holds whether `2 i + 1` is prime, for every `2 i + 1 <= limit`,
    /// and `prefix[w]` counts the set bits of the words below `w`.
    pub open spec fn wf(&self) -> bool {
        &&& self.limit@ >= 0
        &&& self.bitmap@.len() >= 1
        &&& self.prefix@.len() == self.bitmap@.len() + 1
        &&& forall|i: int| 0 <= i && odd_of(i) <= self.limit@ ==> i < 64 * self.bitmap@.len()
        &&& forall|i: int|
            0 <= i && odd_of(i) <= self.limit@ ==> (#[trigger] flat_bit(self.bitmap@, i) <==> is_prime(
                odd_of(i) as nat,
            ))
        &&& forall|w: int| 0 <= w <= self.bitmap@.len() ==> #[trigger] self.prefix@[w] == flat_ones(self.bitmap@, 64 * w)
    }

    /// Sieves the odd numbers up to `limit` by the odd primes up to its
    /// square root.
    pub fn new(limit: usize) -> (s: Self)
        requires
            limit <= usize::MAX / 2,
        ensures
            s.wf(),
            s.limit@ == limit,
            forall|i: int|
                0 <= i < 64 * s.bitmap@.len() && odd_of(i) > s.limit@ + 1 ==> !#[trigger] flat_bit(s.bitmap@, i),
    {
        if limit < 3 {
            let mut bitmap: Vec<u64> = Vec::new();
            bitmap.push(0);
            let mut prefix: Vec<u64> = Vec::new();
            prefix.push(0);
            prefix.push(0);
            let s = PiSieve { bitmap, prefix, limit: Ghost(limit as int) };
            proof {
                assert(s.bitmap@[0] == 0u64);
                assert(!is_prime(1nat));
                assert((0u64 >> 0u64) & 1u64 != 1u64) by (bit_vector);
                assert forall|i: int| 0 <= i && odd_of(i) <= limit implies (#[trigger] flat_bit(s.bitmap@, i)
                    <==> is_prime(odd_of(i) as nat)) by {
                    assert(i == 0);
                    assert(0u64 >> 0u64 == 0u64) by (bit_vector);
                }
                assert forall|i: int| 0 <= i < 64 * s.bitmap@.len() && odd_of(i) > s.limit@ + 1 implies
                    !#[trigger] flat_bit(s.bitmap@, i) by {
                    vstd::arithmetic::div_mod::lemma_fundamental_div_mod(i, 64);
                    let c = (i % 64) as u64;
                    assert((0u64 >> c) & 1u64 == 0u64) by (bit_vector);
                }
                assert(s.prefix@[1] == flat_ones(s.bitmap@, 64)) by {
                    lemma_flat_ones_word(s.bitmap@, 0, 64);
                    assert forall|k: int| 0 <= k <= 64 implies ones_below(0u64, k) == 0 by {
                        lemma_zero_ones(k);
                    }
                }
            }
            return s;
        }
        let half: usize = limit / 2 + 1;
        let nwords: usize = (half + 63) / 64;
        let mut bitmap: Vec<u64> = Vec::new();
        let mut i: usize = 0;
        while i < nwords
            invariant
                i <= nwords,
                bitmap.len() == i,
                forall|k: int| 0 <= k < i ==> #[trigger] bitmap@[k] == 0xffff_ffff_ffff_ffffu64,
            decreases nwords - i,
        {
            bitmap.push(0xffff_ffff_ffff_ffff);
            i += 1;
        }
        let last_bits = half % 64;
        if last_bits > 0 {
            let w = bitmap[nwords - 1];
            bitmap.set(nwords - 1, w & low_mask_exec(last_bits as u32));
        }
        let r = isqrt(limit as u64);
        proof {
            assert(1 <= r <= limit) by (nonlinear_arith)
                requires
                    limit < (r + 1) * (r + 1),
                    r * r <= limit,
                    limit >= 3,
            ;
        }
        let sqrt_limit = r as usize;
        let small = sieve_past(sqrt_limit);
        let cross_primes = if 3 <= crate::small_sieve::sieve_upper_bound(&small) {
            sieve_primes_from(&small, 3)
        } else {
            Vec::new()
        };
        // bit 0 stands for 1, which is not prime
        let ghost filled = bitmap@;
        proof {
            assert forall|k: int| 0 <= k && odd_of(k) <= limit implies #[trigger] flat_bit(filled, k) by {
                lemma_bit_in_range(k, limit as int, half as int, nwords as int);
                vstd::arithmetic::div_mod::lemma_fundamental_div_mod(k, 64);
                let c = (k % 64) as u64;
                assert((0xffff_ffff_ffff_ffffu64 >> c) & 1u64 == 1u64) by (bit_vector)
                    requires
                        c < 64,
                ;
                if last_bits > 0 && k / 64 == nwords - 1 {
                    crate::bits::lemma_mask_bit(0xffff_ffff_ffff_ffffu64, last_bits as u64, c);
                }
            }
        }
        proof {
            assert forall|k: int| half <= k < 64 * nwords implies !#[trigger] flat_bit(filled, k) by {
                vstd::arithmetic::div_mod::lemma_fundamental_div_mod(k, 64);
                vstd::arithmetic::div_mod::lemma_fundamental_div_mod((half + 63) as int, 64);
                vstd::arithmetic::div_mod::lemma_fundamental_div_mod(half as int, 64);
                let c = (k % 64) as u64;
                if last_bits > 0 {
                    assert(k / 64 == nwords - 1);
                    crate::bits::lemma_mask_bit(0xffff_ffff_ffff_ffffu64, last_bits as u64, c);
                }
            }
        }
        let w0 = bitmap[0];
        bitmap.set(0, w0 & !1u64);
        proof {
            assert forall|k: int| half <= k < 64 * nwords implies !#[trigger] flat_bit(bitmap@, k) by {
                assert(1u64 == 1u64 << 0u64) by (bit_vector);
                lemma_clear_bit(filled, bitmap@, 0, 0, k);
            }
            assert forall|k: int| 0 <= k && odd_of(k) <= limit implies #[trigger] flat_bit(bitmap@, k) == (k != 0) by {
                lemma_bit_in_range(k, limit as int, half as int, nwords as int);
                assert(1u64 == 1u64 << 0u64) by (bit_vector);
                lemma_clear_bit(filled, bitmap@, 0, 0, k);
            }
        }
        let mut t: usize = 0;
        while t < cross_primes.len()
            invariant
                3 <= limit <= usize::MAX / 2,
                half == limit / 2 + 1,
                nwords == (half + 63) / 64,
                bitmap.len() == nwords,
                forall|k: int| half <= k < 64 * nwords ==> !#[trigger] flat_bit(bitmap@, k),
                sqrt_limit * sqrt_limit <= limit,
                t <= cross_primes.len(),
                forall|a: int|
                    0 <= a < cross_primes.len() ==> is_prime(#[trigger] cross_primes@[a] as nat) && 3 <= cross_primes@[a]
                        <= sieve_bound(small),
                forall|q: usize| 3 <= q <= sieve_bound(small) && is_prime(q as nat) ==> #[trigger] cross_primes@.contains(q),
                1 <= sqrt_limit <= sieve_bound(small),
                limit < (sqrt_limit + 1) * (sqrt_limit + 1),
                forall|k: int|
                    0 <= k && odd_of(k) <= limit ==> #[trigger] flat_bit(bitmap@, k) == (k != 0 && !crossed(
                        odd_of(k),
                        cross_primes@,
                        t as int,
                        sqrt_limit as int,
                    )),
            decreases cross_primes.len() - t,
        {
            let p = cross_primes[t];
            if p <= sqrt_limit {
                proof {
                    assert(p * p <= limit && p * p >= 9 && p <= limit) by (nonlinear_arith)
                        requires
                            3 <= p <= sqrt_limit,
                            sqrt_limit * sqrt_limit <= limit,
                    ;
                }
                let ghost before = bitmap@;
                let mut idx: usize = (p * p - 1) / 2;
                proof {
                    assert((idx - (p * p - 1) / 2) % (p as int) == 0) by {
                        vstd::arithmetic::div_mod::lemma_small_mod(0, p as nat);
                    }
                }
                while idx < 64 * nwords
                    invariant
                        3 <= limit <= usize::MAX / 2,
                        half == limit / 2 + 1,
                        nwords == (half + 63) / 64,
                        bitmap.len() == nwords,
                        forall|k: int| half <= k < 64 * nwords ==> !#[trigger] flat_bit(bitmap@, k),
                        3 <= p <= sqrt_limit,
                        p * p <= limit,
                        p <= limit,
                        limit <= usize::MAX / 2,
                        idx >= (p * p - 1) / 2,
                        (idx - (p * p - 1) / 2) % (p as int) == 0,
                        forall|k: int|
                            0 <= k && odd_of(k) <= limit ==> #[trigger] flat_bit(bitmap@, k) == (flat_bit(before, k)
                                && !(k < idx && k >= (p * p - 1) / 2 && (k - (p * p - 1) / 2) % (p as int) == 0)),
                    decreases 64 * nwords + p - idx,
                {
                    let ghost mid = bitmap@;
                    let wi = idx / 64;
                    let b = idx % 64;
                    let cur = bitmap[wi];
                    bitmap.set(wi, cur & !(1u64 << b));
                    proof {
                        assert forall|k: int| 0 <= k && odd_of(k) <= limit implies #[trigger] flat_bit(bitmap@, k) == (
                        flat_bit(before, k) && !(k < idx + p && k >= (p * p - 1) / 2 && (k - (p * p - 1) / 2) % (
                        p as int) == 0)) by {
                            lemma_bit_in_range(k, limit as int, half as int, nwords as int);
                            lemma_clear_bit(mid, bitmap@, wi as int, b as int, k);
                            lemma_stride_step(k, idx as int, (p * p - 1) / 2, p as int);
                        }
                        assert forall|k: int| half <= k < 64 * nwords implies !#[trigger] flat_bit(bitmap@, k) by {
                            lemma_clear_bit(mid, bitmap@, wi as int, b as int, k);
                        }
                        vstd::arithmetic::div_mod::lemma_mod_add_multiples_vanish(idx - (p * p - 1) / 2, p as int);
                    }
                    idx = idx + p;
                }
                proof {
                    assert forall|k: int| 0 <= k && odd_of(k) <= limit implies #[trigger] flat_bit(bitmap@, k) == (k
                        != 0 && !crossed(odd_of(k), cross_primes@, t + 1, sqrt_limit as int)) by {
                        lemma_stride_iff_multiple(k, p as int);
                        assert(k < 64 * nwords) by {
                            lemma_bit_in_range(k, limit as int, half as int, nwords as int);
                        }
                    }
                }
            } else {
                proof {
                    assert forall|k: int| 0 <= k && odd_of(k) <= limit implies #[trigger] flat_bit(bitmap@, k) == (k
                        != 0 && !crossed(odd_of(k), cross_primes@, t + 1, sqrt_limit as int)) by {}
                }
            }
            t += 1;
        }
        // prefix counts
        let mut prefix: Vec<u64> = Vec::new();
        prefix.push(0);
        proof {
            assert(nwords < 0x0200_0000_0000_0000);
        }
        let mut w: usize = 0;
        let mut acc: u64 = 0;
        while w < nwords
            invariant
                w <= nwords,
                bitmap.len() == nwords,
                nwords < 0x0200_0000_0000_0000,
                prefix.len() == w + 1,
                acc == flat_ones(bitmap@, 64 * w),
                acc <= 64 * w,
                forall|v: int| 0 <= v <= w ==> #[trigger] prefix@[v] == flat_ones(bitmap@, 64 * v),
            decreases nwords - w,
        {
            let c = count_ones(bitmap[w]);
            proof {
                lemma_flat_ones_word(bitmap@, w as int, 64);
                lemma_ones_below_le(bitmap@[w as int], 64);
            }
            acc = acc + c as u64;
            prefix.push(acc);
            w += 1;
        }
        let s = PiSieve { bitmap, prefix, limit: Ghost(limit as int) };
        proof {
            assert forall|k: int| 0 <= k && odd_of(k) <= limit implies (#[trigger] flat_bit(s.bitmap@, k) <==> is_prime(
                odd_of(k) as nat)) by {
                lemma_uncrossed_is_prime(k, cross_primes@, sieve_bound(small) as int, sqrt_limit as int, limit as int);
            }
            assert forall|k: int| 0 <= k && odd_of(k) <= limit implies k < 64 * s.bitmap@.len() by {
                lemma_bit_in_range(k, limit as int, half as int, nwords as int);
            }
            assert forall|i: int| 0 <= i < 64 * s.bitmap@.len() && odd_of(i) > s.limit@ + 1 implies
                !#[trigger] flat_bit(s.bitmap@, i) by {
                assert(i >= half);
            }
        }
        s
    }

    /// pi(n) for `n` up to the sieve's bound: 1 for the prime 2, plus the
    /// set bits up to the largest odd number `<= n`.
    pub fn prime_pi(&self, n: usize) -> (r: usize)
        requires
            self.wf(),
            n <= self.limit@ || n < 3,
        ensures
            r == prime_count(n as nat),
    {
        proof {
            lemma_prime_count_small();
        }
        if n < 2 {
            return 0;
        }
        if n < 3 {
            return 1;
        }
        let largest_odd = if n % 2 == 1 {
            n
        } else {
            n - 1
        };
        let bit_idx = (largest_odd - 1) / 2;
        let word = bit_idx / 64;
        let bit = bit_idx % 64;
        proof {
            assert(odd_of(bit_idx as int) == largest_odd);
            assert(bit_idx < 64 * self.bitmap@.len());
        }
        let mask = low_mask_exec((bit + 1) as u32);
        let c = count_ones(self.bitmap[word] & mask);
        proof {
            lemma_popcount_masked(self.bitmap@[word as int], bit + 1);
            lemma_flat_ones_word(self.bitmap@, word as int, bit + 1);
            assert(64 * word + bit + 1 == bit_idx + 1);
            lemma_flat_ones_odd_primes(self.bitmap@, bit_idx as int, self.limit@);
            if n % 2 == 0 {
                assert(!is_prime(n as nat)) by {
                    assert((n as nat) % 2 == 0);
                }
            }
            crate::number_theory::lemma_prime_count_le(n as nat);
        }
        1 + self.prefix[word] as usize + c as usize
    }
}

proof fn lemma_zero_ones(k: int)
    ensures
        ones_below(0u64, k) == 0,
    decreases k,
{
    if k > 0 {
        lemma_zero_ones(k - 1);
        let i = (k - 1) as u64;
        assert((0u64 >> i) & 1u64 == 0u64) by (bit_vector);
    }
}

/// Every bit for an odd number up to `limit` lies in the bitmap.
proof fn lemma_bit_in_range(k: int, limit: int, half: int, nwords: int)
    requires
        k >= 0,
        odd_of(k) <= limit,
        half == limit / 2 + 1,
        nwords == (half + 63) / 64,
    ensures
        k < half,
        k < 64 * nwords,
{
}

/// Clearing bit `b` of word `wi` clears flat bit `64 wi + b` and keeps the
/// others.
pub proof fn lemma_clear_bit(old: Seq<u64>, new: Seq<u64>, wi: int, b: int, k: int)
    requires
        0 <= wi < old.len(),
        0 <= b < 64,
        new == old.update(wi, old[wi] & !(1u64 << (b as u64))),
        0 <= k < 64 * old.len(),
    ensures
        flat_bit(new, k) == (flat_bit(old, k) && k != 64 * wi + b),
{
    let kw = k / 64;
    let kb = k % 64;
    vstd::arithmetic::div_mod::lemma_fundamental_div_mod(k, 64);
    if kw == wi {
        let w = old[wi];
        let bu = b as u64;
        let cu = kb as u64;
        assert((((w & !(1u64 << bu)) >> cu) & 1u64 == 1u64) == (cu != bu && (w >> cu) & 1u64 == 1u64))
            by (bit_vector)
            requires
                bu < 64,
                cu < 64,
        ;
    } else {
        assert(k != 64 * wi + b);
    }
}

/// One more step of the stride `start, start + p, ...` past `idx`.
pub proof fn lemma_stride_step(k: int, idx: int, start: int, p: int)
    requires
        p >= 1,
        idx >= start,
        (idx - start) % p == 0,
    ensures
        (k < idx + p && k >= start && (k - start) % p == 0) == ((k < idx && k >= start && (k - start) % p
            == 0) || k == idx),
{
    if k > idx && k < idx + p && k >= start && (k - start) % p == 0 {
        crate::tables::lemma_multiples_apart(k - start, idx - start, p);
    }
}

/// The stride of an odd prime `p` from `(p * p - 1) / 2` marks the bits of
/// the odd multiples of `p` from `p * p` on.
proof fn lemma_stride_iff_multiple(k: int, p: int)
    requires
        k >= 0,
        p >= 3,
        is_prime(p as nat),
    ensures
        (k >= (p * p - 1) / 2 && (k - (p * p - 1) / 2) % p == 0) == (p * p <= odd_of(k) && odd_of(k) % p
            == 0),
{
    // p is odd, so p * p is odd
    assert(p % 2 == 1) by {
        if p % 2 == 0 {
            assert((p as nat) % 2 == 0);
        }
    }
    vstd::arithmetic::div_mod::lemma_fundamental_div_mod(p, 2);
    let h = p / 2;
    assert(p * p == 2 * (2 * h * h + 2 * h) + 1) by (nonlinear_arith)
        requires
            p == 2 * h + 1,
    ;
    let s = 2 * h * h + 2 * h;
    assert((p * p - 1) / 2 == s);
    // 2k + 1 - p * p == 2 (k - s)
    let m = k - s;
    assert(odd_of(k) - p * p == 2 * m);
    if m >= 0 && m % p == 0 {
        vstd::arithmetic::div_mod::lemma_fundamental_div_mod(m, p);
        assert(odd_of(k) == p * p + 2 * m);
        assert(odd_of(k) == p * (p + 2 * (m / p))) by (nonlinear_arith)
            requires
                odd_of(k) == p * p + 2 * m,
                m == p * (m / p),
        ;
        vstd::arithmetic::div_mod::lemma_mod_multiples_basic(p + 2 * (m / p), p);
        vstd::arithmetic::mul::lemma_mul_is_commutative(p, p + 2 * (m / p));
    }
    if p * p <= odd_of(k) && odd_of(k) % p == 0 {
        // p divides 2 m, and p is an odd prime
        vstd::arithmetic::div_mod::lemma_fundamental_div_mod(odd_of(k), p);
        let q = odd_of(k) / p;
        assert(2 * m == p * (q - p)) by (nonlinear_arith)
            requires
                odd_of(k) == p * q,
                odd_of(k) - p * p == 2 * m,
        ;
        vstd::arithmetic::mul::lemma_mul_is_commutative(p, q - p);
        assert(m >= 0);
        assert(q - p >= 0) by (nonlinear_arith)
            requires
                2 * m == p * (q - p),
                m >= 0,
                p >= 3,
        ;
        vstd::arithmetic::div_mod::lemma_mod_multiples_basic(q - p, p);
        crate::number_theory::lemma_euclid(p, 2, m);
        if m % p != 0 {
            assert((2 as int) % p == 0);
            vstd::arithmetic::div_mod::lemma_small_mod(2, p as nat);
        }
    }
}

/// `n` has a marking prime among the first `t` entries of `primes`: one no
/// larger than `sq` whose square is at most `n` and which divides `n`.
pub open spec fn crossed(n: int, primes: Seq<usize>, t: int, sq: int) -> bool {
    exists|a: int|
        0 <= a < t && primes[a] <= sq && primes[a] * primes[a] <= n && #[trigger] (n % (primes[a] as int)) == 0
}

/// After sieving by every odd prime up to `sqrt(limit)`, an odd number up to
/// `limit` other than 1 is unmarked exactly when it is prime.
pub proof fn lemma_uncrossed_is_prime(k: int, primes: Seq<usize>, bound: int, sq: int, limit: int)
    requires
        k >= 0,
        odd_of(k) <= limit,
        1 <= sq <= bound,
        bound <= usize::MAX,
        sq * sq <= limit < (sq + 1) * (sq + 1),
        forall|a: int| 0 <= a < primes.len() ==> is_prime(#[trigger] primes[a] as nat) && 3 <= primes[a],
        forall|q: usize| 3 <= q <= bound && is_prime(q as nat) ==> #[trigger] primes.contains(q),
    ensures
        (k != 0 && !crossed(odd_of(k), primes, primes.len() as int, sq)) <==> is_prime(odd_of(k) as nat),
{
    let n = odd_of(k);
    if is_prime(n as nat) {
        assert(k != 0);
        if crossed(n, primes, primes.len() as int, sq) {
            let a = choose|a: int|
                0 <= a < primes.len() && primes[a] <= sq && primes[a] * primes[a] <= n && #[trigger] (n % (
                primes[a] as int)) == 0;
            let q = primes[a] as int;
            assert(q < n) by (nonlinear_arith)
                requires
                    q * q <= n,
                    q >= 3,
            ;
            assert((n as nat) % (q as nat) != 0);
        }
    } else if k != 0 {
        let q = crate::number_theory::lemma_composite_has_small_prime_factor(n as nat);
        // q is odd, since n is odd
        if q == 2 {
            assert((n as nat) % 2 == 1);
        }
        assert(q <= sq) by (nonlinear_arith)
            requires
                q * q <= n,
                n <= limit,
                limit < (sq + 1) * (sq + 1),
                sq >= 0,
        ;
        let qu = q as usize;
        assert(qu as nat == q);
        assert(3 <= qu <= bound && is_prime(qu as nat));
        assert(primes.contains(qu));
        let a = choose|a: int| 0 <= a < primes.len() && primes[a] == qu;
        assert(n % (primes[a] as int) == 0);
        assert(crossed(n, primes, primes.len() as int, sq));
    }
}

/// The set bits up to bit `j >= 1` count the odd primes up to `2 j + 1`:
/// all primes there but 2.
pub proof fn lemma_flat_ones_odd_primes(words: Seq<u64>, j: int, limit: int)
    requires
        j >= 1,
        odd_of(j) <= limit,
        forall|i: int| 0 <= i && odd_of(i) <= limit ==> (#[trigger] flat_bit(words, i) <==> is_prime(odd_of(i) as nat)),
    ensures
        flat_ones(words, j + 1) == prime_count(odd_of(j) as nat) - 1,
    decreases j,
{
    lemma_prime_count_small();
    assert(flat_bit(words, 0) <==> is_prime(1));
    assert(!is_prime(1nat));
    if j == 1 {
        assert(is_prime(3)) by {
            assert forall|d: nat| 2 <= d < 3 implies #[trigger] (3nat % d) != 0 by {
                assert(d == 2);
            }
        }
        assert(flat_bit(words, 1) <==> is_prime(3));
        assert(flat_ones(words, 1) == flat_ones(words, 0) + if flat_bit(words, 0) {
            1nat
        } else {
            0nat
        });
        assert(flat_ones(words, 2) == flat_ones(words, 1) + if flat_bit(words, 1) {
            1nat
        } else {
            0nat
        });
    } else {
        lemma_flat_ones_odd_primes(words, j - 1, limit);
        assert(flat_bit(words, j) <==> is_prime(odd_of(j) as nat));
        assert(!is_prime((2 * j) as nat)) by {
            assert(((2 * j) as nat) % 2 == 0);
        }
        assert(prime_count(odd_of(j) as nat) == prime_count((2 * j) as nat) + if is_prime(odd_of(j) as nat) {
            1nat
        } else {
            0nat
        });
        assert(prime_count((2 * j) as nat) == prime_count((2 * j - 1) as nat));
    }
}

} // verus!
