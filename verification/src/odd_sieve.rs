//! An odd-only sieve of Eratosthenes whose bit `i` stands for `2 i + 3`,
//! the compact two-level pi table read off it, and its list of primes.

use vstd::prelude::*;
use vstd::arithmetic::div_mod::*;
use crate::bits::{bit_of, low_mask, low_mask_exec, lemma_mask_bit};
use crate::number_theory::{is_prime, prime_count, lemma_prime_count_small};
use crate::pi_sieve::{flat_bit, lemma_clear_bit};
use crate::roots::isqrt;

verus! {

/// The odd number that bit `i` of the sieve stands for.
pub open spec fn odd3(i: int) -> int {
    2 * i + 3
}

/// `n` has an odd prime factor below `p` whose square is at most `n`.
pub open spec fn odd_marked(n: int, p: int) -> bool {
    exists|q: int| 3 <= q < p && is_prime(q as nat) && q * q <= n && #[trigger] (n % q) == 0
}

/// The sieve is correct: bit `i` holds whether `2 i + 3` is prime for
/// `2 i + 3 <= limit`, and the bits beyond are clear.
pub open spec fn odd_sieve_ok(words: Seq<u64>, limit: int) -> bool {
    &&& forall|i: int| 0 <= i && odd3(i) <= limit ==> i < 64 * words.len()
    &&& forall|i: int|
        0 <= i < 64 * words.len() ==> (#[trigger] flat_bit(words, i) <==> (odd3(i) <= limit && is_prime(
            odd3(i) as nat,
        )))
}

/// The stride `p * p, p * p + 2 p, ...` meets exactly the odd multiples of
/// the odd prime `p` from `p * p` on.
proof fn lemma_odd_stride(n: int, p: int)
    requires
        n >= 0,
        n % 2 == 1,
        p >= 3,
        p % 2 == 1,
        is_prime(p as nat),
    ensures
        (n >= p * p && (n - p * p) % (2 * p) == 0) == (n >= p * p && n % p == 0),
{
    if n >= p * p {
        let d = n - p * p;
        lemma_fundamental_div_mod(p, 2);
        lemma_fundamental_div_mod(n, 2);
        let h = p / 2;
        assert(p * p == 2 * (2 * h * h + 2 * h) + 1) by (nonlinear_arith)
            requires
                p == 2 * h + 1,
        ;
        // d is even
        assert(d == 2 * (n / 2 - (2 * h * h + 2 * h)));
        let e = n / 2 - (2 * h * h + 2 * h);
        if d % (2 * p) == 0 {
            lemma_fundamental_div_mod(d, 2 * p);
            let t = d / (2 * p);
            assert(n == p * (p + 2 * t)) by (nonlinear_arith)
                requires
                    d == (2 * p) * t + d % (2 * p),
                    d % (2 * p) == 0,
                    n == p * p + d,
            ;
            lemma_mod_multiples_basic(p + 2 * t, p);
            vstd::arithmetic::mul::lemma_mul_is_commutative(p, p + 2 * t);
        }
        if n % p == 0 {
            lemma_fundamental_div_mod(n, p);
            let q = n / p;
            assert(2 * e == p * (q - p)) by (nonlinear_arith)
                requires
                    n == p * q + n % p,
                    n % p == 0,
                    d == n - p * p,
                    d == 2 * e,
            ;
            assert(e >= 0);
            assert(q - p >= 0) by (nonlinear_arith)
                requires
                    2 * e == p * (q - p),
                    e >= 0,
                    p >= 3,
            ;
            vstd::arithmetic::mul::lemma_mul_is_commutative(p, q - p);
            lemma_mod_multiples_basic(q - p, p);
            crate::number_theory::lemma_euclid(p, 2, e);
            if e % p != 0 {
                assert((2 as int) % p == 0);
                lemma_small_mod(2, p as nat);
            }
            lemma_fundamental_div_mod(e, p);
            assert(d == (2 * p) * (e / p)) by (nonlinear_arith)
                requires
                    d == 2 * e,
                    e == p * (e / p) + e % p,
                    e % p == 0,
            ;
            lemma_mod_multiples_basic(e / p, 2 * p);
            vstd::arithmetic::mul::lemma_mul_is_commutative(2 * p, e / p);
        }
    }
}

/// An odd number from 3 up without a marking prime below a bound `p` with
/// `p * p > n` is prime, and a prime is never marked.
proof fn lemma_odd_marked_prime(n: int, p: int)
    requires
        n >= 3,
        n % 2 == 1,
        n < p * p,
        p >= 3,
    ensures
        !odd_marked(n, p) <==> is_prime(n as nat),
{
    if is_prime(n as nat) {
        if odd_marked(n, p) {
            let q = choose|q: int| 3 <= q < p && is_prime(q as nat) && q * q <= n && #[trigger] (n % q) == 0;
            assert(q < n) by (nonlinear_arith)
                requires
                    q * q <= n,
                    q >= 3,
            ;
            assert((n as nat) % (q as nat) != 0);
        }
    } else {
        let q = crate::number_theory::lemma_composite_has_small_prime_factor(n as nat);
        if q == 2 {
            assert((n as nat) % 2 == 1);
        }
        assert(q < p) by (nonlinear_arith)
            requires
                q * q <= n,
                n < p * p,
                p >= 0,
        ;
        assert(n % (q as int) == 0);
        assert(odd_marked(n, p));
    }
}

/// The odd-only sieve of Eratosthenes up to `limit`: bit `i` is set exactly
/// when `2 i + 3 <= limit` is prime.
#[verifier::spinoff_prover]
#[verifier::rlimit(40)]
pub fn fast_bit_sieve(limit: usize) -> (bits: Vec<u64>)
    requires
        limit <= usize::MAX / 2,
    ensures
        limit < 3 ==> bits.len() == 0,
        limit >= 3 ==> bits.len() == ((limit - 3) / 2 + 1 + 63) / 64,
        odd_sieve_ok(bits@, limit as int),
{
    if limit < 3 {
        return Vec::new();
    }
    let nbits = (limit - 3) / 2 + 1;
    let nwords = (nbits + 63) / 64;
    let mut bits: Vec<u64> = Vec::new();
    let mut w: usize = 0;
    while w < nwords
        invariant
            w <= nwords,
            bits.len() == w,
            forall|k: int| 0 <= k < w ==> #[trigger] bits@[k] == 0xffff_ffff_ffff_ffffu64,
        decreases nwords - w,
    {
        bits.push(0xffff_ffff_ffff_ffff);
        w += 1;
    }
    let trailing = nbits % 64;
    if trailing != 0 {
        let last = bits[nwords - 1];
        bits.set(nwords - 1, last & low_mask_exec(trailing as u32));
    }
    proof {
        assert forall|i: int| 0 <= i < 64 * nwords implies #[trigger] flat_bit(bits@, i) == (i < nbits) by {
            lemma_fundamental_div_mod(i, 64);
            let c = (i % 64) as u64;
            assert((0xffff_ffff_ffff_ffffu64 >> c) & 1u64 == 1u64) by (bit_vector)
                requires
                    c < 64,
            ;
            lemma_fundamental_div_mod(nbits as int, 64);
            if trailing != 0 && i / 64 == nwords - 1 {
                lemma_mask_bit(0xffff_ffff_ffff_ffffu64, trailing as u64, c);
            }
        }
    }
    let r = isqrt(limit as u64);
    proof {
        assert(r <= limit) by (nonlinear_arith)
            requires
                r * r <= limit,
                limit >= 3,
        ;
    }
    let sqrt_limit = r as usize;
    let mut p: usize = 3;
    while p <= sqrt_limit
        invariant
            3 <= limit <= usize::MAX / 2,
            nbits == (limit - 3) / 2 + 1,
            nwords == (nbits + 63) / 64,
            bits.len() == nwords,
            sqrt_limit * sqrt_limit <= limit < (sqrt_limit + 1) * (sqrt_limit + 1),
            3 <= p <= sqrt_limit + 2,
            p % 2 == 1,
            forall|i: int| 0 <= i < 64 * nwords ==> #[trigger] flat_bit(bits@, i) == (i < nbits && !odd_marked(odd3(i), p as int)),
        decreases sqrt_limit + 2 - p,
    {
        proof {
            assert(p * p <= limit && p <= limit) by (nonlinear_arith)
                requires
                    3 <= p <= sqrt_limit,
                    sqrt_limit * sqrt_limit <= limit,
            ;
        }
        let pidx = (p - 3) / 2;
        proof {
            assert(odd3(pidx as int) == p);
            assert(pidx < nbits);
            assert(!odd_marked(p as int, p as int) <==> is_prime(p as nat)) by {
                assert(p < p * p) by (nonlinear_arith)
                    requires
                        p >= 3,
                ;
                lemma_odd_marked_below(p as int);
            }
        }
        if bits[pidx / 64] & (1u64 << (pidx % 64)) != 0 {
            proof {
                let b = (pidx % 64) as u64;
                let w = bits@[(pidx / 64) as int];
                assert((w & (1u64 << b) != 0u64) == ((w >> b) & 1u64 == 1u64)) by (bit_vector)
                    requires
                        b < 64,
                ;
                assert(flat_bit(bits@, pidx as int) == (pidx < nbits && !odd_marked(odd3(pidx as int), p as int)));
                assert(is_prime(p as nat));
                lemma_odd_square(p as int);
                assert(2 * p <= limit) by (nonlinear_arith)
                    requires
                        p * p <= limit,
                        p >= 3,
                ;
            }
            let ghost before = bits@;
            let pp = p * p;
            let step = 2 * p;
            proof {
                assert(pp >= 9) by (nonlinear_arith)
                    requires
                        pp == p * p,
                        p >= 3,
                ;
            }
            let mut m: usize = pp;
            proof {
                lemma_small_mod(0, step as nat);
            }
            while m <= limit
                invariant
                    3 <= limit <= usize::MAX / 2,
                    nbits == (limit - 3) / 2 + 1,
                    nwords == (nbits + 63) / 64,
                    bits.len() == nwords,
                    step <= limit,
                    step >= 6,
                    step % 2 == 0,
                    pp >= 9,
                    pp <= m,
                    m % 2 == 1,
                    (m - pp) % (step as int) == 0,
                    forall|i: int|
                        0 <= i < 64 * nwords ==> #[trigger] flat_bit(bits@, i) == (flat_bit(before, i) && !stride_hit(
                            odd3(i),
                            pp as int,
                            step as int,
                            m as int,
                        )),
                decreases limit + step - m,
            {
                let mid = (m - 3) / 2;
                let ghost old_bits = bits@;
                let wi = mid / 64;
                let bi = mid % 64;
                let cur = bits[wi];
                proof {
                    lemma_fundamental_div_mod(m as int, 2);
                    assert(odd3(mid as int) == m);
                    assert(mid < nbits);
                    lemma_fundamental_div_mod(mid as int, 64);
                }
                bits.set(wi, cur & !(1u64 << bi));
                proof {
                    lemma_stride_clear(old_bits, bits@, before, wi as int, bi as int, mid as int, pp as int, step as int, m as int, nwords as int);
                    lemma_mod_add_multiples_vanish(m - pp, step as int);
                    lemma_mod_add_multiples_vanish(m as int, 2);
                    assert(step == 2 * (step / 2)) by {
                        lemma_fundamental_div_mod(step as int, 2);
                    }
                    assert((m + step) % 2 == m % 2) by {
                        lemma_mod_multiples_vanish((step / 2) as int, m as int, 2);
                    }
                }
                m = m + step;
            }
            proof {
                assert forall|i: int| 0 <= i < 64 * nwords implies #[trigger] flat_bit(bits@, i) == (i < nbits
                    && !odd_marked(odd3(i), p + 2)) by {
                    if i < nbits {
                        lemma_odd3_odd(i);
                        lemma_odd_stride(odd3(i), p as int);
                        lemma_odd_marked_step(odd3(i), p as int);
                        assert(odd3(i) <= limit);
                    }
                }
            }
        } else {
            proof {
                let b = (pidx % 64) as u64;
                let w = bits@[(pidx / 64) as int];
                assert((w & (1u64 << b) != 0u64) == ((w >> b) & 1u64 == 1u64)) by (bit_vector)
                    requires
                        b < 64,
                ;
                assert(flat_bit(bits@, pidx as int) == (pidx < nbits && !odd_marked(odd3(pidx as int), p as int)));
                assert(!is_prime(p as nat));
                assert forall|i: int| 0 <= i < 64 * nwords implies #[trigger] flat_bit(bits@, i) == (i < nbits
                    && !odd_marked(odd3(i), p + 2)) by {
                    if i < nbits {
                        lemma_odd_marked_step(odd3(i), p as int);
                    }
                }
            }
        }
        p += 2;
    }
    proof {
        assert forall|i: int| 0 <= i < 64 * bits@.len() implies (#[trigger] flat_bit(bits@, i) <==> (odd3(i) <= limit
            && is_prime(odd3(i) as nat))) by {
            if i < nbits {
                assert(p * p > odd3(i)) by (nonlinear_arith)
                    requires
                        p >= sqrt_limit + 1,
                        limit < (sqrt_limit + 1) * (sqrt_limit + 1),
                        odd3(i) <= limit,
                        sqrt_limit >= 0,
                ;
                lemma_odd3_odd(i);
                lemma_odd_marked_prime(odd3(i), p as int);
            }
        }
    }
    bits
}

/// The stride from `pp` by `step` has met `n` below `m`.
pub open spec fn stride_hit(n: int, pp: int, step: int, m: int) -> bool {
    pp <= n < m && (n - pp) % step == 0
}

/// Clearing the bit of `m` extends the stride's hits to below `m + step`.
proof fn lemma_stride_clear(
    old: Seq<u64>,
    new: Seq<u64>,
    before: Seq<u64>,
    wi: int,
    bi: int,
    mid: int,
    pp: int,
    step: int,
    m: int,
    nwords: int,
)
    requires
        old.len() == nwords,
        0 <= wi < nwords,
        0 <= bi < 64,
        mid == 64 * wi + bi,
        odd3(mid) == m,
        step > 0,
        pp <= m,
        (m - pp) % step == 0,
        new == old.update(wi, old[wi] & !(1u64 << (bi as u64))),
        forall|i: int|
            0 <= i < 64 * nwords ==> #[trigger] flat_bit(old, i) == (flat_bit(before, i) && !stride_hit(odd3(i), pp, step, m)),
    ensures
        forall|i: int|
            0 <= i < 64 * nwords ==> #[trigger] flat_bit(new, i) == (flat_bit(before, i) && !stride_hit(
                odd3(i),
                pp,
                step,
                m + step,
            )),
{
    assert forall|i: int| 0 <= i < 64 * nwords implies #[trigger] flat_bit(new, i) == (flat_bit(before, i) && !stride_hit(
        odd3(i),
        pp,
        step,
        m + step,
    )) by {
        lemma_clear_bit(old, new, wi, bi, i);
        assert(flat_bit(old, i) == (flat_bit(before, i) && !stride_hit(odd3(i), pp, step, m)));
        let n = odd3(i);
        if pp <= n && n > m && n < m + step && (n - pp) % step == 0 {
            crate::tables::lemma_multiples_apart(n - pp, m - pp, step);
        }
        assert(i == mid <==> n == m);
    }
}

/// The square of an odd number is odd.
proof fn lemma_odd_square(p: int)
    requires
        p >= 0,
        p % 2 == 1,
    ensures
        (p * p) % 2 == 1,
{
    lemma_fundamental_div_mod(p, 2);
    let h = p / 2;
    assert(p * p == 2 * (2 * h * h + 2 * h) + 1) by (nonlinear_arith)
        requires
            p == 2 * h + 1,
    ;
    lemma_mod_multiples_vanish(2 * h * h + 2 * h, 1, 2);
}

proof fn lemma_odd3_odd(i: int)
    requires
        i >= 0,
    ensures
        odd3(i) % 2 == 1,
{
    lemma_mod_multiples_vanish(i + 1, 1, 2);
    assert(odd3(i) == 2 * (i + 1) + 1);
}

/// An odd `p` is prime exactly when no odd prime below it marks it.
proof fn lemma_odd_marked_below(p: int)
    requires
        p >= 3,
        p % 2 == 1,
    ensures
        !odd_marked(p, p) <==> is_prime(p as nat),
{
    if is_prime(p as nat) {
        if odd_marked(p, p) {
            let q = choose|q: int| 3 <= q < p && is_prime(q as nat) && q * q <= p && #[trigger] (p % q) == 0;
            assert((p as nat) % (q as nat) != 0);
        }
    } else {
        let q = crate::number_theory::lemma_composite_has_small_prime_factor(p as nat);
        if q == 2 {
            assert((p as nat) % 2 == 1);
        }
        assert(q < p) by (nonlinear_arith)
            requires
                q * q <= p,
                q >= 2,
        ;
        assert(p % (q as int) == 0);
        assert(odd_marked(p, p));
    }
}

/// Moving the bound from `p` to `p + 2` adds `p` as a marking prime when it
/// is prime (`p + 1` is even).
proof fn lemma_odd_marked_step(n: int, p: int)
    requires
        p >= 3,
        p % 2 == 1,
    ensures
        odd_marked(n, p + 2) == (odd_marked(n, p) || (is_prime(p as nat) && p * p <= n && n % p == 0)),
{
    if odd_marked(n, p + 2) {
        let q = choose|q: int| 3 <= q < p + 2 && is_prime(q as nat) && q * q <= n && #[trigger] (n % q) == 0;
        if q == p + 1 {
            lemma_fundamental_div_mod(p, 2);
            assert(((p + 1) as nat) % 2 == 0) by {
                lemma_mod_multiples_vanish((p / 2 + 1) as int, 0, 2);
            }
        }
    }
}


/// pi grows by at most one per number.
proof fn lemma_prime_count_diff(a: nat, b: nat)
    requires
        a <= b,
    ensures
        prime_count(a) <= prime_count(b) <= prime_count(a) + (b - a),
    decreases b - a,
{
    if a < b {
        lemma_prime_count_diff(a, (b - 1) as nat);
    }
}

/// The sieve answers for every odd number from 3 up to `limit`.
pub open spec fn odd_covers(words: Seq<u64>, limit: int) -> bool {
    &&& forall|i: int| 0 <= i && #[trigger] odd3(i) <= limit ==> i < 64 * words.len()
    &&& forall|i: int|
        0 <= i && odd3(i) <= limit ==> (#[trigger] flat_bit(words, i) <==> is_prime(odd3(i) as nat))
}

proof fn lemma_covers_at(words: Seq<u64>, limit: int, i: int)
    requires
        odd_covers(words, limit),
        0 <= i,
        odd3(i) <= limit,
    ensures
        i < 64 * words.len(),
        flat_bit(words, i) <==> is_prime(odd3(i) as nat),
{
}

/// A correct sieve up to `limit` covers `limit`.
pub proof fn lemma_sieve_covers(words: Seq<u64>, limit: int)
    requires
        odd_sieve_ok(words, limit),
    ensures
        odd_covers(words, limit),
{
}

/// The stride of the coarse level of the compact pi table.
pub const PI_STRIDE: usize = 256;

/// pi up to a bound in two levels: `coarse[i] = pi(256 i)` and
/// `fine[n] = pi(n) - coarse[n / 256]`, one byte per number.
pub struct CompactPi {
    pub coarse: Vec<u32>,
    pub fine: Vec<u8>,
    pub limit: usize,
}

impl CompactPi {
    /// The two levels add up to pi for every number up to the limit.
    pub open spec fn wf(&self) -> bool {
        &&& self.limit < usize::MAX
        &&& self.limit <= u32::MAX
        &&& self.coarse@.len() == self.limit / 256 + 2
        &&& self.fine@.len() == self.limit + 1
        &&& forall|n: int|
            0 <= n <= self.limit ==> self.coarse@[n / 256] + #[trigger] self.fine@[n] == prime_count(n as nat)
    }

    /// pi(n) for `n` up to the table's limit.
    pub fn get(&self, n: usize) -> (r: u32)
        requires
            self.wf(),
            n <= self.limit,
        ensures
            r == prime_count(n as nat),
    {
        proof {
            assert(self.coarse@[(n / 256) as int] + self.fine@[n as int] == prime_count(n as nat));
            crate::number_theory::lemma_prime_count_le(n as nat);
            assert(n / 256 <= self.limit / 256) by {
                lemma_div_is_ordered(n as int, self.limit as int, 256);
            }
        }
        self.coarse[n / PI_STRIDE] + self.fine[n] as u32
    }

    /// The number of entries: the limit plus one.
    pub fn len(&self) -> (r: usize)
        requires
            self.limit < usize::MAX,
        ensures
            r == self.limit + 1,
    {
        self.limit + 1
    }
}

/// The compact pi table up to `limit`, read off an odd-only sieve that covers
/// it.
pub fn generate_compact_pi(limit: usize, sieve_bits: &Vec<u64>) -> (t: CompactPi)
    requires
        limit <= u32::MAX,
        limit < usize::MAX,
        odd_covers(sieve_bits@, limit as int),
    ensures
        t.wf(),
        t.limit == limit,
        forall|i: int| 0 <= i && 256 * i <= limit ==> #[trigger] t.coarse@[i] == prime_count((256 * i) as nat),
{
    let coarse_len = limit / PI_STRIDE + 2;
    let mut coarse: Vec<u32> = Vec::new();
    while coarse.len() < coarse_len
        invariant
            coarse.len() <= coarse_len,
            forall|k: int| 0 <= k < coarse.len() ==> #[trigger] coarse@[k] == 0,
        decreases coarse_len - coarse.len(),
    {
        coarse.push(0);
    }
    let mut fine: Vec<u8> = Vec::new();
    proof {
        lemma_prime_count_small();
    }
    if limit < 2 {
        while fine.len() <= limit
            invariant
                fine.len() <= limit + 1,
                limit < 2,
                forall|k: int| 0 <= k < fine.len() ==> #[trigger] fine@[k] == 0,
            decreases limit + 1 - fine.len(),
        {
            fine.push(0);
        }
        let t = CompactPi { coarse, fine, limit };
        proof {
            assert forall|n: int| 0 <= n <= limit implies t.coarse@[n / 256] + #[trigger] t.fine@[n] == prime_count(n as nat) by {
                assert(n / 256 == 0);
            }
            assert forall|i: int| 0 <= i && 256 * i <= limit implies #[trigger] t.coarse@[i] == prime_count(
                (256 * i) as nat) by {
                assert(i == 0);
            }
        }
        return t;
    }
    let mut count: u32 = 0;
    let mut n: usize = 0;
    while n <= limit
        invariant
            2 <= limit <= u32::MAX,
            limit < usize::MAX,
            odd_covers(sieve_bits@, limit as int),
            coarse.len() == coarse_len,
            coarse_len == limit / 256 + 2,
            n <= limit + 1,
            fine.len() == n,
            n == 0 ==> count == 0,
            n >= 1 ==> count == prime_count((n - 1) as nat),
            forall|k: int| 0 <= k < n && k % 256 == 0 ==> #[trigger] coarse@[k / 256] == prime_count(k as nat),
            forall|m: int| 0 <= m < n ==> coarse@[m / 256] + #[trigger] fine@[m] == prime_count(m as nat),
        decreases limit + 1 - n,
    {
        proof {
            crate::number_theory::lemma_prime_count_le(n as nat);
            crate::number_theory::lemma_prime_count_le(limit as nat);
            crate::number_theory::lemma_prime_count_monotone(n as nat, limit as nat);
        }
        if n == 2 {
            count += 1;
        } else if n >= 3 && n % 2 == 1 {
            let idx = (n - 3) / 2;
            proof {
                assert(odd3(idx as int) == n);
                assert(odd3(idx as int) <= limit);
                lemma_covers_at(sieve_bits@, limit as int, idx as int);
                assert(idx < 64 * sieve_bits@.len() && (flat_bit(sieve_bits@, idx as int) <==> is_prime(n as nat)));
                lemma_fundamental_div_mod(idx as int, 64);
                let w = sieve_bits@[(idx / 64) as int];
                let b = (idx % 64) as u64;
                assert(((w >> b) & 1u64) as u32 == (if (w >> b) & 1u64 == 1u64 { 1u32 } else { 0u32 })) by (bit_vector);
                assert(flat_bit(sieve_bits@, idx as int) <==> is_prime(n as nat));
            }
            count += ((sieve_bits[idx / 64] >> (idx % 64)) & 1) as u32;
        } else {
            proof {
                if n >= 4 {
                    assert((n as nat) % 2 == 0);
                    assert(!is_prime(n as nat));
                }
            }
        }
        let ci = n / PI_STRIDE;
        proof {
            assert(count == prime_count(n as nat));
            lemma_div_is_ordered(n as int, limit as int, 256);
        }
        if n % PI_STRIDE == 0 && ci < coarse_len {
            coarse.set(ci, count);
        }
        proof {
            // the coarse entry of n's block is pi at the block's start
            let k = 256 * ci;
            lemma_fundamental_div_mod(n as int, 256);
            assert(k % 256 == 0 && k / 256 == ci) by {
                lemma_mod_multiples_basic(ci as int, 256);
                lemma_div_multiples_vanish(ci as int, 256);
            }
            assert(coarse@[ci as int] == prime_count(k as nat));
            lemma_prime_count_diff(k as nat, n as nat);
        }
        fine.push((count - coarse[ci]) as u8);
        n += 1;
    }
    proof {
        assert forall|i: int| 0 <= i && 256 * i <= limit implies #[trigger] coarse@[i] == prime_count(
            (256 * i) as nat) by {
            let k = 256 * i;
            lemma_mod_multiples_basic(i, 256);
            lemma_div_multiples_vanish(i, 256);
            assert(k % 256 == 0 && k / 256 == i);
            assert(coarse@[k / 256] == prime_count(k as nat));
        }
    }
    CompactPi { coarse, fine, limit }
}


/// The numbers `2 i + 3` of the set bits `i < f` that do not exceed `max`,
/// in increasing order.
pub open spec fn bit_numbers(words: Seq<u64>, f: int, max: int) -> Seq<int>
    decreases f,
{
    if f <= 0 {
        Seq::empty()
    } else {
        bit_numbers(words, f - 1, max) + if flat_bit(words, f - 1) && odd3(f - 1) <= max {
            seq![odd3(f - 1)]
        } else {
            Seq::<int>::empty()
        }
    }
}

/// Past a bit whose number exceeds `max`, nothing is added.
proof fn lemma_bit_numbers_beyond(words: Seq<u64>, f1: int, f2: int, max: int)
    requires
        0 <= f1 <= f2,
        odd3(f1) > max,
    ensures
        bit_numbers(words, f2, max) == bit_numbers(words, f1, max),
    decreases f2 - f1,
{
    if f2 > f1 {
        lemma_bit_numbers_beyond(words, f1, f2 - 1, max);
        assert(bit_numbers(words, f2, max) =~= bit_numbers(words, f2 - 1, max));
    }
}

/// Over clear bits nothing is added.
proof fn lemma_bit_numbers_clear(words: Seq<u64>, f1: int, f2: int, max: int)
    requires
        0 <= f1 <= f2,
        forall|f: int| f1 <= f < f2 ==> !#[trigger] flat_bit(words, f),
    ensures
        bit_numbers(words, f2, max) == bit_numbers(words, f1, max),
    decreases f2 - f1,
{
    if f2 > f1 {
        lemma_bit_numbers_clear(words, f1, f2 - 1, max);
        assert(!flat_bit(words, f2 - 1));
        assert(bit_numbers(words, f2, max) =~= bit_numbers(words, f2 - 1, max));
    }
}

/// With a correct sieve up to `limit`, the numbers of the set bits are the
/// odd primes up to `min(max, limit)`, in increasing order.
pub proof fn lemma_bit_numbers_primes(words: Seq<u64>, f: int, max: int, limit: int)
    requires
        odd_sieve_ok(words, limit),
        0 <= f <= 64 * words.len(),
    ensures
        forall|a: int, b: int| 0 <= a < b < bit_numbers(words, f, max).len() ==> bit_numbers(words, f, max)[a]
            < bit_numbers(words, f, max)[b],
        forall|a: int|
            0 <= a < bit_numbers(words, f, max).len() ==> {
                let q = #[trigger] bit_numbers(words, f, max)[a];
                &&& is_prime(q as nat)
                &&& 3 <= q <= max
                &&& q <= limit
                &&& q < odd3(f)
            },
        forall|q: int|
            3 <= q < odd3(f) && q <= max && q <= limit && is_prime(q as nat) ==> #[trigger] bit_numbers(
                words,
                f,
                max,
            ).contains(q),
    decreases f,
{
    if f > 0 {
        lemma_bit_numbers_primes(words, f - 1, max, limit);
        let prev = bit_numbers(words, f - 1, max);
        let cur = bit_numbers(words, f, max);
        assert forall|q: int|
            3 <= q < odd3(f) && q <= max && q <= limit && is_prime(q as nat) implies #[trigger] cur.contains(q) by {
            if q < odd3(f - 1) {
                assert(prev.contains(q));
                let a = choose|a: int| 0 <= a < prev.len() && prev[a] == q;
                assert(cur[a] == prev[a]);
                assert(cur[a] == q);
            } else if q == odd3(f - 1) {
                assert(flat_bit(words, f - 1));
                assert(cur[prev.len() as int] == q);
            } else {
                // q is the even number 2 f + 2
                assert(q == 2 * f + 2);
                assert((q as nat) % 2 == 0) by {
                    vstd::arithmetic::div_mod::lemma_mod_multiples_vanish(f + 1, 0, 2);
                }
            }
        }
        assert forall|a: int|
            0 <= a < cur.len() implies {
            let q = #[trigger] cur[a];
            &&& is_prime(q as nat)
            &&& 3 <= q <= max
            &&& q <= limit
            &&& q < odd3(f)
        } by {
            if a < prev.len() {
                assert(cur[a] == prev[a]);
            }
        }
    }
}

/// `word & (word - 1)` clears the lowest set bit `t` of `word` and keeps the
/// others.
proof fn lemma_clear_lowest(word: u64, t: u64, j: u64)
    requires
        t < 64,
        j < 64,
        (word >> t) & 1u64 == 1u64,
        forall|i: u64| 0 <= i < t ==> #[trigger] ((word >> i) & 1u64) == 0u64,
    ensures
        ((word & ((word - 1u64) as u64)) >> j) & 1u64 == (if j == t { 0u64 } else { (word >> j) & 1u64 }),
{
    // the bits below t are clear: word is a multiple of 2^t
    assert(word & (((1u64 << t) - 1u64) as u64) == 0u64) by {
        lemma_low_bits_clear(word, t);
    }
    assert(((word & ((word - 1u64) as u64)) >> j) & 1u64 == (if j == t { 0u64 } else { (word >> j) & 1u64 })) by (bit_vector)
        requires
            t < 64,
            j < 64,
            (word >> t) & 1u64 == 1u64,
            word & (((1u64 << t) - 1u64) as u64) == 0u64,
    ;
}

/// Bits below `t` all clear means `word` has no bits under the mask of `t`.
proof fn lemma_low_bits_clear(word: u64, t: u64)
    requires
        t < 64,
        forall|i: u64| 0 <= i < t ==> #[trigger] ((word >> i) & 1u64) == 0u64,
    ensures
        word & (((1u64 << t) - 1u64) as u64) == 0u64,
    decreases t,
{
    if t == 0 {
        assert(t == 0 ==> word & (((1u64 << t) - 1u64) as u64) == 0u64) by (bit_vector);
    } else {
        lemma_low_bits_clear(word, (t - 1) as u64);
        let s = (t - 1) as u64;
        assert((word >> s) & 1u64 == 0u64);
        assert(word & (((1u64 << s) - 1u64) as u64) == 0u64 && (word >> s) & 1u64 == 0u64 ==> word & (((1u64 << t) - 1u64) as u64) == 0u64)
            by (bit_vector)
            requires
                t < 64,
                s == t - 1,
        ;
    }
}

/// The list of primes read off an odd-only sieve: 0 (a placeholder for the
/// 1-based numbering), 2, then the numbers of the set bits up to
/// `max_prime`, in increasing order.
pub fn collect_primes_from_bits(sieve_bits: &Vec<u64>, max_prime: usize) -> (primes: Vec<u32>)
    requires
        max_prime <= u32::MAX,
        128 * sieve_bits.len() + 3 <= usize::MAX,
    ensures
        primes@.len() == 2 + bit_numbers(sieve_bits@, 64 * sieve_bits@.len() as int, max_prime as int).len(),
        primes@[0] == 0,
        primes@[1] == 2,
        forall|k: int|
            0 <= k < bit_numbers(sieve_bits@, 64 * sieve_bits@.len() as int, max_prime as int).len() ==> #[trigger] primes@[k
                + 2] == bit_numbers(sieve_bits@, 64 * sieve_bits@.len() as int, max_prime as int)[k],
{
    let ghost words = sieve_bits@;
    let ghost total: int = 64 * sieve_bits@.len() as int;
    let mut primes: Vec<u32> = Vec::new();
    primes.push(0);
    primes.push(2);
    let mut w: usize = 0;
    while w < sieve_bits.len()
        invariant
            words == sieve_bits@,
            total == 64 * sieve_bits@.len(),
            max_prime <= u32::MAX,
            128 * sieve_bits.len() + 3 <= usize::MAX,
            w <= sieve_bits.len(),
            primes@.len() == 2 + bit_numbers(words, 64 * w, max_prime as int).len(),
            primes@[0] == 0,
            primes@[1] == 2,
            forall|k: int|
                0 <= k < bit_numbers(words, 64 * w, max_prime as int).len() ==> #[trigger] primes@[k + 2]
                    == bit_numbers(words, 64 * w, max_prime as int)[k],
        decreases sieve_bits.len() - w,
    {
        let orig = sieve_bits[w];
        let mut word = orig;
        let ghost mut k: int = 0;
        while word != 0
            invariant
                words == sieve_bits@,
                total == 64 * sieve_bits@.len(),
                max_prime <= u32::MAX,
                128 * sieve_bits.len() + 3 <= usize::MAX,
                w < sieve_bits.len(),
                orig == words[w as int],
                0 <= k <= 64,
                forall|j: u64| j < 64 ==> #[trigger] ((word >> j) & 1u64) == (if j >= k { (orig >> j) & 1u64 } else { 0u64 }),
                primes@.len() == 2 + bit_numbers(words, 64 * w + k, max_prime as int).len(),
                primes@[0] == 0,
                primes@[1] == 2,
                forall|t: int|
                    0 <= t < bit_numbers(words, 64 * w + k, max_prime as int).len() ==> #[trigger] primes@[t + 2]
                        == bit_numbers(words, 64 * w + k, max_prime as int)[t],
            decreases 64 - k,
        {
            proof {
                vstd::std_specs::bits::axiom_u64_trailing_zeros(word);
            }
            let bit = word.trailing_zeros() as usize;
            let ghost t = bit as int;
            proof {
                assert(t >= k) by {
                    if t < k {
                        assert(((word >> (t as u64)) & 1u64) == 0u64);
                    }
                }
                // the bits of orig in [k, t) are clear
                assert forall|f: int| 64 * w + k <= f < 64 * w + t implies !#[trigger] flat_bit(words, f) by {
                    let j = (f - 64 * w) as u64;
                    assert(f / 64 == w && f % 64 == j) by {
                        vstd::arithmetic::div_mod::lemma_fundamental_div_mod_converse(f, 64, w as int, j as int);
                    }
                    assert(((word >> j) & 1u64) == 0u64);
                }
                lemma_bit_numbers_clear(words, 64 * w + k, 64 * w + t, max_prime as int);
                assert(flat_bit(words, 64 * w + t)) by {
                    vstd::arithmetic::div_mod::lemma_fundamental_div_mod_converse(64 * w + t, 64, w as int, t);
                    assert(((word >> (t as u64)) & 1u64) == 1u64);
                }
            }
            let p = 2 * (w * 64 + bit) + 3;
            proof {
                assert(p == odd3(64 * w + t));
            }
            if p > max_prime {
                proof {
                    lemma_bit_numbers_beyond(words, 64 * w + t, total, max_prime as int);
                }
                return primes;
            }
            primes.push(p as u32);
            proof {
                let bn = bit_numbers(words, 64 * w + t + 1, max_prime as int);
                assert(bn =~= bit_numbers(words, 64 * w + t, max_prime as int).push(p as int));
            }
            let ghost before_word = word;
            word = word & (word - 1);
            proof {
                assert forall|j: u64| j < 64 implies #[trigger] ((word >> j) & 1u64) == (if j >= t + 1 { (orig >> j) & 1u64 } else { 0u64 }) by {
                    assert forall|i: u64| 0 <= i < (t as u64) implies #[trigger] ((before_word >> i) & 1u64) == 0u64 by {}
                    lemma_clear_lowest(before_word, t as u64, j);
                    assert(((before_word >> j) & 1u64) == (if j >= k { (orig >> j) & 1u64 } else { 0u64 }));
                }
                k = t + 1;
            }
        }
        proof {
            // the remaining bits of orig are clear
            assert forall|f: int| 64 * w + k <= f < 64 * w + 64 implies !#[trigger] flat_bit(words, f) by {
                let j = (f - 64 * w) as u64;
                assert(f / 64 == w && f % 64 == j) by {
                    vstd::arithmetic::div_mod::lemma_fundamental_div_mod_converse(f, 64, w as int, j as int);
                }
                assert(((word >> j) & 1u64) == 0u64) by {
                    assert(word == 0u64);
                    assert((0u64 >> j) & 1u64 == 0u64) by (bit_vector);
                }
            }
            lemma_bit_numbers_clear(words, 64 * w + k, 64 * w + 64, max_prime as int);
        }
        w += 1;
    }
    primes
}

} // verus!
