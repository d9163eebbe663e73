//! The bit-packed sieve segment of the special-leaf computations, with
//! counts of its set bits up to a position, and the pre-sieve template of
//! the first primes that initialises it.

use vstd::prelude::*;
use vstd::arithmetic::div_mod::*;
use crate::bits::{
    bit_of, ones_below, popcount, count_ones, low_mask, low_mask_exec, lemma_popcount_masked,
    lemma_ones_below_le, lemma_popcount_band, ones_between,
};
use crate::pi_sieve::{flat_bit, flat_ones, lemma_flat_ones_word};
use crate::tables::{coprime_to_tiny, tiny_prime_spec, tiny_product, lemma_tiny_product_values,
    lemma_tiny_product_divisible};

verus! {

/// `flat_ones` at word boundaries is the sum of the words' population counts.
pub open spec fn words_ones(words: Seq<u64>, w: int) -> nat
    decreases w,
{
    if w <= 0 {
        0
    } else {
        words_ones(words, w - 1) + popcount(words[w - 1])
    }
}

proof fn lemma_words_ones(words: Seq<u64>, w: int)
    requires
        0 <= w <= words.len(),
    ensures
        flat_ones(words, 64 * w) == words_ones(words, w),
        words_ones(words, w) <= 64 * w,
    decreases w,
{
    if w > 0 {
        lemma_words_ones(words, w - 1);
        lemma_flat_ones_word(words, w - 1, 64);
        lemma_ones_below_le(words[w - 1], 64);
    }
}

proof fn lemma_flat_ones_mono(words: Seq<u64>, a: int, b: int)
    requires
        0 <= a <= b,
    ensures
        flat_ones(words, a) <= flat_ones(words, b) <= flat_ones(words, a) + (b - a),
    decreases b - a,
{
    if b > a {
        lemma_flat_ones_mono(words, a, b - 1);
    }
}

/// A segment of bits: `len` of them in use, `total` of those set.
pub struct BitSieve {
    pub bits: Vec<u64>,
    pub len: usize,
    pub total: i64,
}

impl BitSieve {
    /// `total` counts the set bits among the first `len`.
    pub open spec fn wf(&self) -> bool {
        &&& self.len <= 64 * self.bits@.len()
        &&& 64 * self.bits@.len() < 0x1_0000_0000_0000
        &&& self.total == flat_ones(self.bits@, self.len as int)
    }

    /// An empty segment with room for `max_len` bits.
    pub fn new(max_len: usize) -> (s: Self)
        requires
            max_len < 0x1_0000_0000_0000 - 64,
            max_len <= usize::MAX - 64,
        ensures
            s.wf(),
            s.len == 0,
            64 * s.bits@.len() >= max_len,
    {
        let nwords = (max_len + 63) / 64;
        let mut bits: Vec<u64> = Vec::new();
        while bits.len() < nwords
            invariant
                bits.len() <= nwords,
                forall|k: int| 0 <= k < bits.len() ==> #[trigger] bits@[k] == 0u64,
            decreases nwords - bits.len(),
        {
            bits.push(0);
        }
        BitSieve { bits, len: 0, total: 0 }
    }

    /// The set bits in positions `0..=pos`.
    pub fn count(&self, pos: usize) -> (r: i64)
        requires
            self.wf(),
            pos < self.len,
        ensures
            r == flat_ones(self.bits@, pos + 1),
    {
        let full = pos / 64;
        let bit = pos % 64;
        let mut cnt: u64 = 0;
        let mut i: usize = 0;
        while i < full
            invariant
                self.wf(),
                full == pos / 64,
                pos < self.len,
                i <= full,
                cnt == words_ones(self.bits@, i as int),
                cnt <= 64 * i,
            decreases full - i,
        {
            proof {
                lemma_words_ones(self.bits@, (i + 1) as int);
            }
            cnt += count_ones(self.bits[i]) as u64;
            i += 1;
        }
        let mask = low_mask_exec((bit + 1) as u32);
        let c = count_ones(self.bits[full] & mask);
        proof {
            lemma_words_ones(self.bits@, full as int);
            lemma_popcount_masked(self.bits@[full as int], bit + 1);
            lemma_flat_ones_word(self.bits@, full as int, bit + 1);
            lemma_fundamental_div_mod(pos as int, 64);
            lemma_ones_below_le(self.bits@[full as int], bit + 1);
        }
        (cnt + c as u64) as i64
    }

    /// The set bits in positions `prev_pos + 1 ..= pos`.
    pub fn count_delta(&self, prev_pos: usize, pos: usize) -> (r: i64)
        requires
            self.wf(),
            prev_pos <= pos < self.len,
        ensures
            r == flat_ones(self.bits@, pos + 1) - flat_ones(self.bits@, prev_pos + 1),
    {
        let w0 = prev_pos / 64;
        let b0 = prev_pos % 64;
        let w1 = pos / 64;
        let b1 = pos % 64;
        proof {
            lemma_fundamental_div_mod(prev_pos as int, 64);
            lemma_fundamental_div_mod(pos as int, 64);
            lemma_flat_ones_mono(self.bits@, prev_pos + 1, pos + 1);
        }
        if w0 == w1 {
            let word = self.bits[w0];
            let hi_mask = low_mask_exec((b1 + 1) as u32);
            let lo_mask = low_mask_exec((b0 + 1) as u32);
            let c = count_ones(word & (hi_mask ^ lo_mask));
            proof {
                lemma_popcount_band(word, b0 + 1, b1 + 1);
                lemma_flat_ones_word(self.bits@, w0 as int, b0 + 1);
                lemma_flat_ones_word(self.bits@, w0 as int, b1 + 1);
            }
            return c as i64;
        }
        // the bits of word w0 above b0
        let first_mask = low_mask_exec(64) ^ low_mask_exec((b0 + 1) as u32);
        let mut cnt: u64 = count_ones(self.bits[w0] & first_mask) as u64;
        proof {
            lemma_popcount_band(self.bits@[w0 as int], b0 + 1, 64);
            lemma_flat_ones_word(self.bits@, w0 as int, b0 + 1);
            lemma_flat_ones_word(self.bits@, w0 as int, 64);
            assert(cnt == flat_ones(self.bits@, 64 * (w0 + 1)) - flat_ones(self.bits@, prev_pos + 1));
            lemma_flat_ones_mono(self.bits@, prev_pos + 1, 64 * (w0 + 1));
        }
        let mut i: usize = w0 + 1;
        while i < w1
            invariant
                self.wf(),
                w0 < w1,
                w1 == pos / 64,
                pos < self.len,
                prev_pos < 64 * (w0 + 1),
                w0 + 1 <= i <= w1,
                cnt == flat_ones(self.bits@, 64 * i) - flat_ones(self.bits@, prev_pos + 1),
                cnt <= 64 * i,
            decreases w1 - i,
        {
            proof {
                lemma_flat_ones_word(self.bits@, i as int, 64);
                lemma_ones_below_le(self.bits@[i as int], 64);
                lemma_flat_ones_mono(self.bits@, prev_pos + 1, 64 * i);
            }
            cnt += count_ones(self.bits[i]) as u64;
            i += 1;
        }
        let mask = low_mask_exec((b1 + 1) as u32);
        let c = count_ones(self.bits[w1] & mask);
        proof {
            lemma_popcount_masked(self.bits@[w1 as int], b1 + 1);
            lemma_flat_ones_word(self.bits@, w1 as int, b1 + 1);
            lemma_ones_below_le(self.bits@[w1 as int], b1 + 1);
        }
        (cnt + c as u64) as i64
    }

    /// The set bits among the segment's positions in use.
    pub fn count_total(&self) -> (r: i64)
        requires
            self.wf(),
        ensures
            r == flat_ones(self.bits@, self.len as int),
    {
        self.total
    }
}


/// Coprimality to the first `c` primes depends only on the residue modulo
/// their product.
pub proof fn lemma_coprime_tiny_mod(k: int, c: int)
    requires
        0 <= c <= 7,
        k >= 0,
    ensures
        coprime_to_tiny(k, c) == coprime_to_tiny(k % tiny_product(c), c),
{
    lemma_tiny_product_values();
    let pc = tiny_product(c);
    assert forall|i: int| 1 <= i <= c implies (k % #[trigger] tiny_prime_spec(i) == 0) == ((k % pc) % tiny_prime_spec(i) == 0) by {
        lemma_tiny_product_divisible(c, i);
        let t = tiny_prime_spec(i);
        lemma_fundamental_div_mod(pc, t);
        lemma_fundamental_div_mod(k, pc);
        let q = k / pc;
        let m = pc / t;
        assert(k == (q * m) * t + k % pc) by (nonlinear_arith)
            requires
                k == pc * q + k % pc,
                pc == t * m + pc % t,
                pc % t == 0,
        ;
        lemma_mod_multiples_vanish(q * m, k % pc, t);
    }
}

/// Two flat bitmaps that agree below `n` have the same count there.
proof fn lemma_flat_ones_prefix(a: Seq<u64>, b: Seq<u64>, n: int)
    requires
        forall|i: int| 0 <= i < n ==> #[trigger] flat_bit(a, i) == flat_bit(b, i),
    ensures
        flat_ones(a, n) == flat_ones(b, n),
    decreases n,
{
    if n > 0 {
        lemma_flat_ones_prefix(a, b, n - 1);
        assert(flat_bit(a, n - 1) == flat_bit(b, n - 1));
    }
}

/// Two periods of the pattern of the numbers coprime to the first `c`
/// primes, one bit per number from 0: the pre-sieve of a segment.
pub struct PreSieveTemplate {
    pub bits: Vec<u64>,
    pub period: usize,
    pub c: Ghost<int>,
}

impl PreSieveTemplate {
    /// Bit `i < 2 * period` is set exactly when `i` is coprime to the first
    /// `c` primes; `period` is their product.
    pub open spec fn wf(&self) -> bool {
        &&& 0 <= self.c@ <= 7
        &&& self.period == tiny_product(self.c@)
        &&& self.bits@.len() == (2 * self.period + 63) / 64
        &&& forall|i: int|
            0 <= i < 2 * self.period ==> (#[trigger] flat_bit(self.bits@, i) <==> coprime_to_tiny(i % (self.period as int), self.c@))
    }

    /// The template for the first `c` primes, `primes[1..=c]`.
    pub fn new(primes: &Vec<u32>, c: usize) -> (t: Self)
        requires
            c <= 7,
            c < primes.len(),
            forall|b: int| 1 <= b <= c ==> #[trigger] primes@[b] == tiny_prime_spec(b),
        ensures
            t.wf(),
            t.c@ == c,
    {
        proof {
            lemma_tiny_product_values();
        }
        let mut period: usize = 1;
        let mut b: usize = 1;
        while b <= c
            invariant
                c <= 7,
                c < primes.len(),
                forall|b2: int| 1 <= b2 <= c ==> #[trigger] primes@[b2] == tiny_prime_spec(b2),
                1 <= b <= c + 1,
                period == tiny_product(b - 1),
                period <= 510510,
            decreases c + 1 - b,
        {
            proof {
                lemma_tiny_product_values();
                assert(tiny_product(b as int) == tiny_product(b - 1) * tiny_prime_spec(b as int));
            }
            period = period * primes[b] as usize;
            b += 1;
        }
        // one period of the pattern
        let mut tpl: Vec<bool> = Vec::new();
        while tpl.len() < period
            invariant
                tpl.len() <= period,
                forall|k: int| 0 <= k < tpl.len() ==> #[trigger] tpl@[k],
            decreases period - tpl.len(),
        {
            tpl.push(true);
        }
        let mut b: usize = 1;
        while b <= c
            invariant
                c <= 7,
                c < primes.len(),
                forall|b2: int| 1 <= b2 <= c ==> #[trigger] primes@[b2] == tiny_prime_spec(b2),
                1 <= b <= c + 1,
                period == tiny_product(c as int),
                period <= 510510,
                tpl.len() == period,
                forall|k: int| 0 <= k < period ==> #[trigger] tpl@[k] == coprime_to_tiny(k, b - 1),
            decreases c + 1 - b,
        {
            let p = primes[b] as usize;
            let ghost before = tpl@;
            proof {
                assert(p >= 2);
            }
            let mut k: usize = 0;
            while k < period
                invariant
                    2 <= p <= 17,
                    p == tiny_prime_spec(b as int),
                    period <= 510510,
                    tpl.len() == period,
                    k % p == 0,
                    forall|j: int|
                        0 <= j < period ==> #[trigger] tpl@[j] == (before[j] && !(j < k && j % (p as int) == 0)),
                decreases period + p - k,
            {
                tpl.set(k, false);
                proof {
                    lemma_mod_add_multiples_vanish(k as int, p as int);
                    assert forall|j: int| 0 <= j < period implies #[trigger] tpl@[j] == (before[j] && !(j < k + p && j
                        % (p as int) == 0)) by {
                        if j % (p as int) == 0 && k < j && j < k + p {
                            crate::tables::lemma_multiples_apart(j, k as int, p as int);
                        }
                    }
                }
                k += p;
            }
            proof {
                assert forall|j: int| 0 <= j < period implies #[trigger] tpl@[j] == coprime_to_tiny(j, b as int) by {
                    assert(before[j] == coprime_to_tiny(j, b - 1));
                    if coprime_to_tiny(j, b - 1) && j % (p as int) != 0 {
                        assert forall|i: int| 1 <= i <= b implies #[trigger] (j % tiny_prime_spec(i)) != 0 by {
                            if i < b {
                                assert(j % tiny_prime_spec(i) != 0);
                            }
                        }
                    }
                }
            }
            b += 1;
        }
        // two periods, packed
        let double_period = period * 2;
        let nwords = (double_period + 63) / 64;
        let mut bits: Vec<u64> = Vec::new();
        while bits.len() < nwords
            invariant
                bits.len() <= nwords,
                forall|k: int| 0 <= k < bits.len() ==> #[trigger] bits@[k] == 0u64,
            decreases nwords - bits.len(),
        {
            bits.push(0);
        }
        proof {
            assert forall|j: int| 0 <= j < 64 * nwords implies !#[trigger] flat_bit(bits@, j) by {
                lemma_fundamental_div_mod(j, 64);
                let cc = (j % 64) as u64;
                assert((0u64 >> cc) & 1u64 != 1u64) by (bit_vector);
            }
        }
        let mut i: usize = 0;
        while i < double_period
            invariant
                period == tiny_product(c as int),
                1 <= period <= 510510,
                double_period == 2 * period,
                nwords == (double_period + 63) / 64,
                bits.len() == nwords,
                tpl.len() == period,
                forall|k: int| 0 <= k < period ==> #[trigger] tpl@[k] == coprime_to_tiny(k, c as int),
                i <= double_period,
                forall|j: int|
                    0 <= j < 64 * nwords ==> (#[trigger] flat_bit(bits@, j) <==> (j < i && coprime_to_tiny(
                        j % (period as int),
                        c as int,
                    ))),
            decreases double_period - i,
        {
            let ghost old_bits = bits@;
            if tpl[i % period] {
                let wi = i / 64;
                let bi = i % 64;
                let cur = bits[wi];
                bits.set(wi, cur | (1u64 << bi));
                proof {
                    assert forall|j: int| 0 <= j < 64 * nwords implies (#[trigger] flat_bit(bits@, j) <==> (j < i + 1
                        && coprime_to_tiny(j % (period as int), c as int))) by {
                        lemma_set_bit(old_bits, bits@, wi as int, bi as int, j);
                        lemma_fundamental_div_mod(i as int, 64);
                    }
                }
            } else {
                proof {
                    assert forall|j: int| 0 <= j < 64 * nwords implies (#[trigger] flat_bit(bits@, j) <==> (j < i + 1
                        && coprime_to_tiny(j % (period as int), c as int))) by {
                        if j == i {
                            assert(!coprime_to_tiny(j % (period as int), c as int));
                        }
                    }
                }
            }
            i += 1;
        }
        PreSieveTemplate { bits, period, c: Ghost(c as int) }
    }

    /// The 64 template bits from position `start < period` on.
    pub fn get_word(&self, start: usize) -> (w: u64)
        requires
            self.wf(),
            start < self.period,
            self.period >= 64,
        ensures
            forall|j: int| 0 <= j < 64 ==> #[trigger] bit_of(w, j) == flat_bit(self.bits@, start + j),
    {
        let wi = start / 64;
        let off = start % 64;
        proof {
            lemma_fundamental_div_mod(start as int, 64);
        }
        if off == 0 {
            let w = self.bits[wi];
            proof {
                assert forall|j: int| 0 <= j < 64 implies #[trigger] bit_of(w, j) == flat_bit(self.bits@, start + j) by {
                    lemma_fundamental_div_mod_converse(start + j, 64, wi as int, j);
                }
            }
            w
        } else {
            proof {
                assert(wi + 1 < self.bits@.len()) by {
                    lemma_fundamental_div_mod(2 * self.period + 63, 64);
                }
            }
            let a = self.bits[wi];
            let b = self.bits[wi + 1];
            let lo = a >> off;
            let hi = b << (64 - off);
            let w = lo | hi;
            proof {
                assert forall|j: int| 0 <= j < 64 implies #[trigger] bit_of(w, j) == flat_bit(self.bits@, start + j) by {
                    let ju = j as u64;
                    let ou = off as u64;
                    assert((((a >> ou) | (b << ((64 - ou) as u64))) >> ju) & 1u64 == (if ou + ju < 64 {
                        (a >> ((ou + ju) as u64)) & 1u64
                    } else {
                        (b >> ((ou + ju - 64) as u64)) & 1u64
                    })) by (bit_vector)
                        requires
                            1 <= ou < 64,
                            ju < 64,
                    ;
                    if off + j < 64 {
                        lemma_fundamental_div_mod_converse(start + j, 64, wi as int, off + j);
                    } else {
                        lemma_fundamental_div_mod_converse(start + j, 64, wi + 1, off + j - 64);
                    }
                }
            }
            w
        }
    }

    /// Resets `sieve` to the `len` numbers from `low`: bit `i` is set exactly
    /// when `low + i` is coprime to the first `c` primes and is not 0.
    #[verifier::spinoff_prover]
    #[verifier::rlimit(50)]
    pub fn init_sieve(&self, sieve: &mut BitSieve, low: usize, len: usize)
        requires
            self.wf(),
            self.period >= 64,
            old(sieve).wf(),
            len <= 64 * old(sieve).bits@.len(),
            len + 63 <= usize::MAX,
            low + len < 0x4000_0000_0000_0000,
        ensures
            final(sieve).wf(),
            final(sieve).len == len,
            final(sieve).bits@.len() == old(sieve).bits@.len(),
            forall|i: int|
                0 <= i < len ==> (#[trigger] flat_bit(final(sieve).bits@, i) <==> (low + i != 0 && coprime_to_tiny(
                    low + i,
                    self.c@,
                ))),
    {
        let ghost c = self.c@;
        let ghost period = self.period as int;
        proof {
            lemma_tiny_product_values();
        }
        let ghost orig_len = sieve.bits@.len();
        let nwords = (len + 63) / 64;
        let mut tpl_pos = low % self.period;
        let mut total: i64 = 0;
        let mut w: usize = 0;
        while w < nwords
            invariant
                self.wf(),
                self.period >= 64,
                self.period <= 510510,
                sieve.bits@.len() == orig_len,
                c == self.c@,
                period == self.period,
                64 * sieve.bits@.len() < 0x1_0000_0000_0000,
                len <= 64 * sieve.bits@.len(),
                low + len < 0x4000_0000_0000_0000,
                nwords == (len + 63) / 64,
                nwords <= sieve.bits@.len(),
                w <= nwords,
                tpl_pos < self.period,
                tpl_pos == (low + 64 * w) % period,
                total == flat_ones(sieve.bits@, 64 * w),
                total <= 64 * w,
                forall|i: int| 0 <= i < 64 * w ==> (#[trigger] flat_bit(sieve.bits@, i) <==> coprime_to_tiny(low + i, c)),
            decreases nwords - w,
        {
            let word = self.get_word(tpl_pos);
            let ghost old_bits = sieve.bits@;
            sieve.bits.set(w, word);
            proof {
                lemma_fill_word(self.bits@, period, c, old_bits, sieve.bits@, w as int, word, tpl_pos as int, low as int);
                lemma_ones_below_le(word, 64);
            }
            total += count_ones(word) as i64;
            let next = tpl_pos + 64;
            tpl_pos = if next >= self.period {
                next - self.period
            } else {
                next
            };
            proof {
                lemma_fundamental_div_mod(low + 64 * w, period);
                let q = (low + 64 * w) / period;
                assert(period * (q + 1) == period * q + period) by (nonlinear_arith);
                if next >= self.period {
                    assert(low + 64 * (w + 1) == period * (q + 1) + (next - period));
                    lemma_fundamental_div_mod_converse(low + 64 * (w + 1), period, q + 1, next - period);
                } else {
                    assert(low + 64 * (w + 1) == period * q + next);
                    lemma_fundamental_div_mod_converse(low + 64 * (w + 1), period, q, next as int);
                }
            }
            w += 1;
        }
        // clear the bits past len in the last word
        let excess = nwords * 64 - len;
        if excess > 0 {
            let last = sieve.bits[nwords - 1];
            let masked = last & low_mask_exec((64 - excess) as u32);
            let ghost old_bits = sieve.bits@;
            let c_last = count_ones(last);
            let c_masked = count_ones(masked);
            sieve.bits.set(nwords - 1, masked);
            proof {
                let base = 64 * (nwords - 1);
                lemma_popcount_masked(last, 64 - excess);
                lemma_flat_ones_word(old_bits, nwords - 1, 64);
                lemma_flat_ones_word(sieve.bits@, nwords - 1, 64 - excess);
                assert forall|i: int| 0 <= i < base implies #[trigger] flat_bit(sieve.bits@, i) == flat_bit(old_bits, i) by {
                    lemma_fundamental_div_mod(i, 64);
                    assert(i / 64 < nwords - 1);
                }
                lemma_flat_ones_prefix(sieve.bits@, old_bits, base);
                assert forall|k: int| 0 <= k < 64 - excess implies #[trigger] bit_of(masked, k) == bit_of(last, k) by {
                    crate::bits::lemma_mask_bit(last, (64 - excess) as u64, k as u64);
                }
                lemma_ones_below_same(masked, last, 64 - excess);
                assert forall|i: int| 0 <= i < len implies (#[trigger] flat_bit(sieve.bits@, i) <==> coprime_to_tiny(
                    low + i,
                    c,
                )) by {
                    lemma_fundamental_div_mod(i, 64);
                    if i >= base {
                        let j = i - base;
                        assert(i / 64 == nwords - 1 && i % 64 == j) by {
                            lemma_fundamental_div_mod_converse(i, 64, nwords - 1, j);
                        }
                        assert(bit_of(masked, j) == bit_of(last, j));
                        assert(flat_bit(old_bits, i) == bit_of(last, j));
                    } else {
                        assert(flat_bit(old_bits, i) <==> coprime_to_tiny(low + i, c));
                    }
                }
                lemma_ones_below_le(last, 64);
                lemma_ones_below_le(masked, 64);
            }
            total = total - (c_last as i64 - c_masked as i64);
        }
        proof {
            assert(total == flat_ones(sieve.bits@, len as int));
        }
        // 0 is not among the numbers counted
        if low == 0 && len > 0 {
            let first = sieve.bits[0];
            let was_set = (first & 1) as i64;
            let ghost old_bits = sieve.bits@;
            sieve.bits.set(0, first & !1u64);
            proof {
                assert((first & 1u64) == (if bit_of(first, 0) { 1u64 } else { 0u64 })) by (bit_vector);
                assert(1u64 == 1u64 << 0u64) by (bit_vector);
                assert forall|i: int| 0 <= i < 64 * old_bits.len() implies #[trigger] flat_bit(sieve.bits@, i) == (flat_bit(old_bits, i)
                    && i != 0) by {
                    crate::pi_sieve::lemma_clear_bit(old_bits, sieve.bits@, 0, 0, i);
                }
                lemma_flat_ones_clear_first(old_bits, sieve.bits@, len as int);
            }
            total = total - was_set;
        }
        sieve.len = len;
        sieve.total = total;
        proof {
            assert forall|i: int| 0 <= i < len implies (#[trigger] flat_bit(sieve.bits@, i) <==> (low + i != 0
                && coprime_to_tiny(low + i, c))) by {
                if low == 0 && i == 0 {
                    assert(!flat_bit(sieve.bits@, 0));
                }
            }
        }
    }
}

/// Writing the template word for block `w` extends the pattern by 64 bits.
proof fn lemma_fill_word(
    tbits: Seq<u64>,
    period: int,
    c: int,
    old_bits: Seq<u64>,
    new_bits: Seq<u64>,
    w: int,
    word: u64,
    tpl_pos: int,
    low: int,
)
    requires
        0 <= c <= 7,
        period == tiny_product(c),
        period >= 64,
        forall|i: int| 0 <= i < 2 * period ==> (#[trigger] flat_bit(tbits, i) <==> coprime_to_tiny(i % period, c)),
        forall|j: int| 0 <= j < 64 ==> #[trigger] bit_of(word, j) == flat_bit(tbits, tpl_pos + j),
        0 <= tpl_pos < period,
        low >= 0,
        0 <= w < old_bits.len(),
        tpl_pos == (low + 64 * w) % period,
        new_bits == old_bits.update(w, word),
        forall|i: int| 0 <= i < 64 * w ==> (#[trigger] flat_bit(old_bits, i) <==> coprime_to_tiny(low + i, c)),
    ensures
        forall|i: int| 0 <= i < 64 * (w + 1) ==> (#[trigger] flat_bit(new_bits, i) <==> coprime_to_tiny(low + i, c)),
        flat_ones(new_bits, 64 * (w + 1)) == flat_ones(old_bits, 64 * w) + popcount(word),
{
    assert forall|i: int| 0 <= i < 64 * (w + 1) implies (#[trigger] flat_bit(new_bits, i) <==> coprime_to_tiny(
        low + i,
        c,
    )) by {
        lemma_fundamental_div_mod(i, 64);
        if i >= 64 * w {
            let j = i - 64 * w;
            assert(i / 64 == w && i % 64 == j) by {
                lemma_fundamental_div_mod_converse(i, 64, w, j);
            }
            assert(bit_of(word, j) == flat_bit(tbits, tpl_pos + j));
            assert(flat_bit(tbits, tpl_pos + j) <==> coprime_to_tiny((tpl_pos + j) % period, c));
            lemma_coprime_tiny_mod(tpl_pos + j, c);
            lemma_coprime_tiny_mod(low + i, c);
            lemma_fundamental_div_mod(low + 64 * w, period);
            assert(low + i == period * ((low + 64 * w) / period) + (tpl_pos + j));
            lemma_mod_multiples_vanish((low + 64 * w) / period, tpl_pos + j, period);
        } else {
            assert(flat_bit(old_bits, i) <==> coprime_to_tiny(low + i, c));
            assert(i / 64 < w);
        }
    }
    assert forall|i: int| 0 <= i < 64 * w implies #[trigger] flat_bit(new_bits, i) == flat_bit(old_bits, i) by {
        lemma_fundamental_div_mod(i, 64);
        assert(i / 64 < w);
    }
    lemma_flat_ones_prefix(new_bits, old_bits, 64 * w);
    lemma_flat_ones_word(new_bits, w, 64);
}

/// Two words that agree below `n` have the same count there.
proof fn lemma_ones_below_same(a: u64, b: u64, n: int)
    requires
        0 <= n <= 64,
        forall|k: int| 0 <= k < n ==> #[trigger] bit_of(a, k) == bit_of(b, k),
    ensures
        ones_below(a, n) == ones_below(b, n),
    decreases n,
{
    if n > 0 {
        lemma_ones_below_same(a, b, n - 1);
        assert(bit_of(a, n - 1) == bit_of(b, n - 1));
    }
}

/// Clearing flat bit 0 lowers the count of a prefix by that bit.
proof fn lemma_flat_ones_clear_first(old: Seq<u64>, new: Seq<u64>, n: int)
    requires
        n >= 1,
        n <= 64 * old.len(),
        forall|i: int| 0 <= i < 64 * old.len() ==> #[trigger] flat_bit(new, i) == (flat_bit(old, i) && i != 0),
    ensures
        flat_ones(new, n) == flat_ones(old, n) - (if flat_bit(old, 0) { 1int } else { 0int }),
    decreases n,
{
    if n > 1 {
        lemma_flat_ones_clear_first(old, new, n - 1);
        assert(flat_bit(new, n - 1) == flat_bit(old, n - 1));
        assert(flat_ones(new, n) == flat_ones(new, n - 1) + if flat_bit(new, n - 1) { 1nat } else { 0nat });
        assert(flat_ones(old, n) == flat_ones(old, n - 1) + if flat_bit(old, n - 1) { 1nat } else { 0nat });
    } else {
        assert(flat_bit(new, 0) == false);
        assert(flat_ones(new, 0) == 0 && flat_ones(old, 0) == 0);
        assert(flat_ones(new, 1) == flat_ones(new, 0) + if flat_bit(new, 0) { 1nat } else { 0nat });
        assert(flat_ones(old, 1) == flat_ones(old, 0) + if flat_bit(old, 0) { 1nat } else { 0nat });
    }
}

/// Setting bit `b` of word `wi` sets flat bit `64 wi + b` and keeps the
/// others.
proof fn lemma_set_bit(old: Seq<u64>, new: Seq<u64>, wi: int, b: int, k: int)
    requires
        0 <= wi < old.len(),
        0 <= b < 64,
        new == old.update(wi, old[wi] | (1u64 << (b as u64))),
        0 <= k < 64 * old.len(),
    ensures
        flat_bit(new, k) == (flat_bit(old, k) || k == 64 * wi + b),
{
    let kw = k / 64;
    let kb = k % 64;
    lemma_fundamental_div_mod(k, 64);
    if kw == wi {
        let w = old[wi];
        let bu = b as u64;
        let cu = kb as u64;
        assert((((w | (1u64 << bu)) >> cu) & 1u64 == 1u64) == (cu == bu || (w >> cu) & 1u64 == 1u64))
            by (bit_vector)
            requires
                bu < 64,
                cu < 64,
        ;
    } else {
        assert(k != 64 * wi + b);
    }
}

} // verus!
