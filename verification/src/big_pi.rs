//! A table of the primes among the odd numbers up to a bound, one bit per
//! odd number, with the count of the set bits before each word: pi(n) in
//! constant time up to `sqrt(x)`. It is built segment by segment, the
//! multiples of 3, 5 and 7 cleared a word at a time through masks.

use vstd::prelude::*;
use vstd::arithmetic::div_mod::*;
use crate::bits::{bit_of, ones_below, popcount, count_ones, low_mask, lemma_popcount_masked, lemma_ones_below_le};
use crate::number_theory::{is_prime, prime_count, lemma_prime_count_small};
use crate::bits::low_mask_exec;
use crate::pi_sieve::{
    flat_bit, flat_ones, lemma_flat_ones_word, odd_of, crossed, lemma_uncrossed_is_prime,
    lemma_flat_ones_odd_primes,
};
use crate::roots::isqrt;
use crate::small_sieve::{sieve_past, sieve_primes_from, sieve_upper_bound, sieve_bound};

verus! {

/// Clearing bit `b` of `w` keeps its other bits.
proof fn lemma_clear_word_bit(w: u64, b: u64, q: u64)
    requires
        b < 64,
        q < 64,
    ensures
        bit_of(w & !(1u64 << b), q as int) == (bit_of(w, q as int) && q != b),
{
    assert((((w & !(1u64 << b)) >> q) & 1u64 == 1u64) == ((w >> q) & 1u64 == 1u64 && q != b)) by (bit_vector)
        requires
            b < 64,
            q < 64,
    ;
}

/// `q` lies on the stride `off, off + p, ...` exactly when `q % p == off`.
proof fn lemma_on_stride(q: int, off: int, p: int)
    requires
        q >= 0,
        0 <= off < p,
    ensures
        (q >= off && (q - off) % p == 0) == (q % p == off),
{
    lemma_fundamental_div_mod(q, p);
    if q >= off && (q - off) % p == 0 {
        lemma_fundamental_div_mod(q - off, p);
        let d = (q - off) / p;
        assert(q == d * p + off) by (nonlinear_arith)
            requires
                q - off == p * d + (q - off) % p,
                (q - off) % p == 0,
        ;
        lemma_fundamental_div_mod_converse(q, p, d, off);
    }
    if q % p == off {
        let d = q / p;
        assert(q - off == d * p + 0) by (nonlinear_arith)
            requires
                q == p * d + q % p,
                q % p == off,
        ;
        lemma_fundamental_div_mod_converse(q - off, p, d, 0);
    }
}

/// The presieve masks of `p`: `masks[off]` has every bit set but those at
/// the positions `off, off + p, ...` below 64.
pub fn build_presieve_masks(p: usize) -> (masks: Vec<u64>)
    requires
        1 <= p <= 64,
    ensures
        masks.len() == p,
        forall|off: int, q: int| 0 <= off < p && 0 <= q < 64 ==> (#[trigger] bit_of(masks@[off], q) <==> q % (p as int) != off),
{
    let mut masks: Vec<u64> = Vec::new();
    let mut off: usize = 0;
    while off < p
        invariant
            1 <= p <= 64,
            off <= p,
            masks.len() == off,
            forall|o: int, q: int| 0 <= o < off && 0 <= q < 64 ==> (#[trigger] bit_of(masks@[o], q) <==> q % (p as int) != o),
        decreases p - off,
    {
        let mut m: u64 = 0xffff_ffff_ffff_ffff;
        let mut pos: usize = off;
        proof {
            assert forall|q: int| 0 <= q < 64 implies #[trigger] bit_of(m, q) by {
                let qu = q as u64;
                assert((0xffff_ffff_ffff_ffffu64 >> qu) & 1u64 == 1u64) by (bit_vector)
                    requires
                        qu < 64,
                ;
            }
            assert((pos - off) % (p as int) == 0) by {
                lemma_small_mod(0, p as nat);
            }
        }
        while pos < 64
            invariant
                1 <= p <= 64,
                off < p,
                pos >= off,
                pos <= 64 + p,
                (pos - off) % (p as int) == 0,
                forall|q: int| 0 <= q < 64 ==> (#[trigger] bit_of(m, q) <==> !(q < pos && q >= off && (q - off) % (p as int) == 0)),
            decreases 64 + p - pos,
        {
            let ghost before = m;
            m = m & !(1u64 << pos);
            proof {
                assert forall|q: int| 0 <= q < 64 implies (#[trigger] bit_of(m, q) <==> !(q < pos + p && q >= off && (q
                    - off) % (p as int) == 0)) by {
                    lemma_clear_word_bit(before, pos as u64, q as u64);
                    crate::pi_sieve::lemma_stride_step(q, pos as int, off as int, p as int);
                }
                lemma_mod_add_multiples_vanish(pos - off, p as int);
            }
            pos = pos + p;
        }
        proof {
            assert forall|q: int| 0 <= q < 64 implies (#[trigger] bit_of(m, q) <==> q % (p as int) != off) by {
                lemma_on_stride(q, off as int, p as int);
            }
        }
        masks.push(m);
        off = off + 1;
    }
    masks
}


/// The odd numbers of one segment.
pub const SEG_ODD_COUNT: usize = 262144;

/// An odd number survives the masks of 3, 5 and 7: it is 3, 5 or 7, or
/// none of them divides it, and it is not 1.
pub open spec fn presieved(n: int) -> bool {
    n != 1 && (n == 3 || n == 5 || n == 7 || (n % 3 != 0 && n % 5 != 0 && n % 7 != 0))
}

/// `n` is crossed off by one of the first `t` primes of the list from 11
/// on: one whose square is at most `n` and which divides `n`.
pub open spec fn crossed_from_11(n: int, primes: Seq<usize>, t: int) -> bool {
    exists|a: int| 0 <= a < t && primes[a] >= 11 && primes[a] * primes[a] <= n && #[trigger] (n % (primes[a] as int)) == 0
}

/// The masks of `p` clear bit `q` exactly at the residue `off`.
pub open spec fn masks_ok(masks: Seq<u64>, p: int) -> bool {
    &&& masks.len() == p
    &&& forall|off: int, q: int| 0 <= off < p && 0 <= q < 64 ==> (#[trigger] bit_of(masks[off], q) <==> q % p != off)
}

/// `p` divides the odd number `2 i + 1` exactly when `i % p == r`, for
/// `(p, r)` among `(3, 1)`, `(5, 2)` and `(7, 3)`.
proof fn lemma_odd_residue(i: int, p: int, r: int)
    requires
        i >= 0,
        (p == 3 && r == 1) || (p == 5 && r == 2) || (p == 7 && r == 3),
    ensures
        ((2 * i + 1) % p == 0) == (i % p == r),
{
    lemma_fundamental_div_mod(i, p);
    let q = i / p;
    let s = i % p;
    assert(2 * i + 1 == p * (2 * q) + (2 * s + 1)) by (nonlinear_arith)
        requires
            i == p * q + s,
    ;
    lemma_mod_multiples_vanish(2 * q, 2 * s + 1, p);
    assert((p * (2 * q) + (2 * s + 1)) % p == (2 * s + 1) % p);
    assert(0 <= s < p);
    if p == 3 {
        assert(s == 0 || s == 1 || s == 2);
    } else if p == 5 {
        assert(s == 0 || s == 1 || s == 2 || s == 3 || s == 4);
    } else {
        assert(s == 0 || s == 1 || s == 2 || s == 3 || s == 4 || s == 5 || s == 6);
    }
}

/// Within a word whose first index `a` has `(a + o) % p == r`, the bit at
/// `pos` has residue `r` exactly when `pos % p == o`.
proof fn lemma_word_residue(a: int, o: int, pos: int, p: int, r: int)
    requires
        a >= 0,
        0 <= o < p,
        0 <= pos,
        (a + o) % p == r,
    ensures
        ((a + pos) % p == r) == (pos % p == o),
{
    lemma_fundamental_div_mod(a + o, p);
    lemma_fundamental_div_mod(pos, p);
    lemma_fundamental_div_mod(a + pos, p);
    let k1 = (a + o) / p;
    let k2 = pos / p;
    let k3 = (a + pos) / p;
    let s2 = pos % p;
    let s3 = (a + pos) % p;
    // a + pos = p * (k1 + k2) + (r + s2 - o)
    assert(a + pos == p * (k1 + k2) + (r + s2 - o)) by (nonlinear_arith)
        requires
            a + o == p * k1 + r,
            pos == p * k2 + s2,
    ;
    assert(0 <= r < p);
    if s2 == o {
        lemma_fundamental_div_mod_converse(a + pos, p, k1 + k2, r);
    }
    if s3 == r {
        // p * (k1 + k2) + (r + s2 - o) == p * k3 + r, so p divides s2 - o
        assert(s2 - o == p * (k3 - k1 - k2)) by (nonlinear_arith)
            requires
                a + pos == p * (k1 + k2) + (r + s2 - o),
                a + pos == p * k3 + s3,
                s3 == r,
        ;
        assert(-p < s2 - o < p);
        assert(k3 - k1 - k2 == 0) by (nonlinear_arith)
            requires
                s2 - o == p * (k3 - k1 - k2),
                -p < s2 - o < p,
                p >= 1,
        ;
    }
}

/// Bit `q` of a word masked by three masks is set when it is in each.
proof fn lemma_and4(w: u64, a: u64, b: u64, c: u64, q: u64)
    requires
        q < 64,
    ensures
        bit_of(w & (a & b & c), q as int) == (bit_of(w, q as int) && bit_of(a, q as int) && bit_of(b, q as int) && bit_of(
            c,
            q as int,
        )),
{
    assert((((w & (a & b & c)) >> q) & 1u64 == 1u64) == ((w >> q) & 1u64 == 1u64 && (a >> q) & 1u64 == 1u64 && (b
        >> q) & 1u64 == 1u64 && (c >> q) & 1u64 == 1u64)) by (bit_vector)
        requires
            q < 64,
    ;
}

/// The offset of the next word: 64 more numbers shift each residue.
proof fn lemma_next_offset(a: int, o: int, p: int, r: int, step: int)
    requires
        a >= 0,
        0 <= o < p,
        (a + o) % p == r,
        0 <= step < p,
        (64 + step) % p == 0,
    ensures
        (a + 64 + (o + step) % p) % p == r,
{
    lemma_fundamental_div_mod(o + step, p);
    let d = (o + step) / p;
    assert(d == 0 || d == 1) by (nonlinear_arith)
        requires
            o + step == p * d + (o + step) % p,
            0 <= (o + step) % p < p,
            0 <= o + step <= 2 * p - 2,
    ;
    lemma_fundamental_div_mod(64 + step, p);
    let e = (64 + step) / p;
    assert(a + 64 + (o + step) % p == (a + o) + p * (e - d)) by (nonlinear_arith)
        requires
            o + step == p * d + (o + step) % p,
            64 + step == p * e,
    ;
    lemma_mod_multiples_vanish(e - d, a + o, p);
}


/// Index `t` below `len` lies in one of the first `(len + 63) / 64` words.
proof fn lemma_word_of(t: int, len: int)
    requires
        0 <= t < len,
    ensures
        t / 64 < (len + 63) / 64,
{
    lemma_div_is_ordered(t + 64, len + 63, 64);
    lemma_fundamental_div_mod(t, 64);
    lemma_fundamental_div_mod_converse(t + 64, 64, t / 64 + 1, t % 64);
}

/// One word under the masks: its bit `pos`, standing for the odd number
/// `2 (a + pos) + 1`, stays set exactly when 3, 5 and 7 do not divide that
/// number.
proof fn lemma_mask_step(cur: u64, m3: u64, m5: u64, m7: u64, o3: int, o5: int, o7: int, a: int, pos: int)
    requires
        a >= 0,
        0 <= pos < 64,
        0 <= o3 < 3,
        0 <= o5 < 5,
        0 <= o7 < 7,
        (a + o3) % 3 == 1,
        (a + o5) % 5 == 2,
        (a + o7) % 7 == 3,
        bit_of(m3, pos) <==> pos % 3 != o3,
        bit_of(m5, pos) <==> pos % 5 != o5,
        bit_of(m7, pos) <==> pos % 7 != o7,
    ensures
        bit_of(cur & (m3 & m5 & m7), pos) <==> (bit_of(cur, pos) && odd_of(a + pos) % 3 != 0 && odd_of(a + pos) % 5 != 0
            && odd_of(a + pos) % 7 != 0),
{
    lemma_and4(cur, m3, m5, m7, pos as u64);
    lemma_word_residue(a, o3, pos, 3, 1);
    lemma_word_residue(a, o5, pos, 5, 2);
    lemma_word_residue(a, o7, pos, 7, 3);
    lemma_odd_residue(a + pos, 3, 1);
    lemma_odd_residue(a + pos, 5, 2);
    lemma_odd_residue(a + pos, 7, 3);
}

/// A segment after the masks: bit `t` holds whether `2 (start + t) + 1`
/// survives them.
fn presieve_segment(
    seg: usize,
    start_idx: usize,
    end_idx: usize,
    masks3: &Vec<u64>,
    masks5: &Vec<u64>,
    masks7: &Vec<u64>,
) -> (local: Vec<u64>)
    requires
        start_idx == seg * SEG_ODD_COUNT,
        start_idx < end_idx <= start_idx + SEG_ODD_COUNT,
        end_idx <= 0x1_0000_0000,
        masks_ok(masks3@, 3),
        masks_ok(masks5@, 5),
        masks_ok(masks7@, 7),
    ensures
        local.len() == (end_idx - start_idx + 63) / 64,
        forall|t: int|
            0 <= t < end_idx - start_idx ==> (#[trigger] flat_bit(local@, t) <==> presieved(odd_of(start_idx + t))),
{
    let seg_len = end_idx - start_idx;
    let seg_nw = (seg_len + 63) / 64;
    let mut local: Vec<u64> = Vec::new();
    while local.len() < seg_nw
        invariant
            local.len() <= seg_nw,
            forall|k: int| 0 <= k < local.len() ==> #[trigger] local@[k] == 0xffff_ffff_ffff_ffffu64,
        decreases seg_nw - local.len(),
    {
        local.push(0xffff_ffff_ffff_ffff);
    }
    proof {
        assert forall|t: int| 0 <= t < seg_len implies #[trigger] flat_bit(local@, t) by {
            lemma_fundamental_div_mod(t, 64);
            let c = (t % 64) as u64;
            assert((0xffff_ffff_ffff_ffffu64 >> c) & 1u64 == 1u64) by (bit_vector)
                requires
                    c < 64,
            ;
        }
    }
    let excess = seg_nw * 64 - seg_len;
    if excess > 0 {
        let ghost before = local@;
        let w = local[seg_nw - 1];
        local.set(seg_nw - 1, w & (0xffff_ffff_ffff_ffffu64 >> excess));
        proof {
            assert forall|t: int| 0 <= t < seg_len implies #[trigger] flat_bit(local@, t) by {
                lemma_fundamental_div_mod(t, 64);
                if t / 64 == seg_nw - 1 {
                    let c = (t % 64) as u64;
                    let e = excess as u64;
                    assert(c < 64 - e) by (nonlinear_arith)
                        requires
                            t == 64 * (t / 64) + t % 64,
                            t / 64 == seg_nw - 1,
                            t < seg_len,
                            excess == seg_nw * 64 - seg_len,
                            c == t % 64,
                            e == excess,
                    ;
                    assert((((0xffff_ffff_ffff_ffffu64 & (0xffff_ffff_ffff_ffffu64 >> e)) >> c) & 1u64 == 1u64))
                        by (bit_vector)
                        requires
                            c < 64 - e,
                            e < 64,
                    ;
                    assert(w == 0xffff_ffff_ffff_ffffu64);
                } else {
                    assert(local@[t / 64] == before[t / 64]);
                    assert(flat_bit(local@, t) == flat_bit(before, t));
                }
            }
        }
    }
    if seg == 0 {
        let ghost before = local@;
        let w = local[0];
        local.set(0, w & !1u64);
        proof {
            assert forall|t: int| 0 <= t < seg_len implies #[trigger] flat_bit(local@, t) == (t != 0) by {
                assert(1u64 == 1u64 << 0u64) by (bit_vector);
                crate::pi_sieve::lemma_clear_bit(before, local@, 0, 0, t);
            }
        }
    }
    // the multiples of 3, 5 and 7, one word at a time
    let mut o3: usize = (1 + 3 - start_idx % 3) % 3;
    let mut o5: usize = (2 + 5 - start_idx % 5) % 5;
    let mut o7: usize = (3 + 7 - start_idx % 7) % 7;
    proof {
        lemma_fundamental_div_mod(start_idx as int, 3);
        lemma_fundamental_div_mod(start_idx as int, 5);
        lemma_fundamental_div_mod(start_idx as int, 7);
        lemma_fundamental_div_mod((1 + 3 - start_idx % 3) as int, 3);
        lemma_fundamental_div_mod((2 + 5 - start_idx % 5) as int, 5);
        lemma_fundamental_div_mod((3 + 7 - start_idx % 7) as int, 7);
        assert((start_idx + o3) % 3 == 1) by {
            lemma_mod_multiples_vanish(start_idx / 3 + (1 + 3 - start_idx % 3) / 3, 1, 3);
        }
        assert((start_idx + o5) % 5 == 2) by {
            lemma_mod_multiples_vanish(start_idx / 5 + (2 + 5 - start_idx % 5) / 5, 2, 5);
        }
        assert((start_idx + o7) % 7 == 3) by {
            lemma_mod_multiples_vanish(start_idx / 7 + (3 + 7 - start_idx % 7) / 7, 3, 7);
        }
    }
    let mut w: usize = 0;
    while w < seg_nw
        invariant
            seg_len == end_idx - start_idx,
            seg_nw == (seg_len + 63) / 64,
            local.len() == seg_nw,
            start_idx == seg * SEG_ODD_COUNT,
            end_idx <= 0x1_0000_0000,
            seg_len <= SEG_ODD_COUNT,
            masks_ok(masks3@, 3),
            masks_ok(masks5@, 5),
            masks_ok(masks7@, 7),
            w <= seg_nw,
            o3 < 3,
            o5 < 5,
            o7 < 7,
            (start_idx + 64 * w + o3) % 3 == 1,
            (start_idx + 64 * w + o5) % 5 == 2,
            (start_idx + 64 * w + o7) % 7 == 3,
            forall|t: int|
                0 <= t < seg_len ==> (#[trigger] flat_bit(local@, t) <==> ((seg != 0 || t != 0) && (t / 64 < w ==> (odd_of(
                    start_idx + t,
                ) % 3 != 0 && odd_of(start_idx + t) % 5 != 0 && odd_of(start_idx + t) % 7 != 0)))),
        decreases seg_nw - w,
    {
        let ghost before = local@;
        let cur = local[w];
        let m = masks3[o3] & masks5[o5] & masks7[o7];
        local.set(w, cur & m);
        proof {
            assert forall|t: int| 0 <= t < seg_len implies (#[trigger] flat_bit(local@, t) <==> ((seg != 0 || t != 0) && (
            t / 64 < w + 1 ==> (odd_of(start_idx + t) % 3 != 0 && odd_of(start_idx + t) % 5 != 0 && odd_of(start_idx + t)
                % 7 != 0)))) by {
                lemma_fundamental_div_mod(t, 64);
                if t / 64 == w {
                    let pos = t % 64;
                    assert(start_idx + t == (start_idx + 64 * w) + pos);
                    assert(flat_bit(before, t) == bit_of(cur, pos));
                    lemma_mask_step(
                        cur,
                        masks3@[o3 as int],
                        masks5@[o5 as int],
                        masks7@[o7 as int],
                        o3 as int,
                        o5 as int,
                        o7 as int,
                        start_idx + 64 * w,
                        pos,
                    );
                } else {
                    assert(local@[t / 64] == before[t / 64]);
                    assert(flat_bit(local@, t) == flat_bit(before, t));
                }
            }
            lemma_next_offset(start_idx + 64 * w, o3 as int, 3, 1, 2);
            lemma_next_offset(start_idx + 64 * w, o5 as int, 5, 2, 1);
            lemma_next_offset(start_idx + 64 * w, o7 as int, 7, 3, 6);
        }
        o3 = (o3 + 2) % 3;
        o5 = (o5 + 1) % 5;
        o7 = (o7 + 6) % 7;
        w = w + 1;
    }
    // 3, 5 and 7 themselves are prime
    if seg == 0 {
        let ghost before = local@;
        let w0 = local[0];
        local.set(0, w0 | ((1u64 << 1) | (1u64 << 2) | (1u64 << 3)));
        proof {
            assert forall|t: int| 0 <= t < seg_len implies (#[trigger] flat_bit(local@, t) <==> presieved(
                odd_of(start_idx + t),
            )) by {
                lemma_fundamental_div_mod(t, 64);
                lemma_word_of(t, seg_len as int);
                if t < 64 {
                    let q = t as u64;
                    assert((((w0 | ((1u64 << 1) | (1u64 << 2) | (1u64 << 3))) >> q) & 1u64 == 1u64) == ((w0 >> q) & 1u64
                        == 1u64 || q == 1 || q == 2 || q == 3)) by (bit_vector)
                        requires
                            q < 64,
                    ;
                    assert(t / 64 == 0);
                    assert(t % 64 == t);
                    assert(flat_bit(before, t) == ((w0 >> q) & 1u64 == 1u64));
                    assert(flat_bit(local@, t) == (((w0 | ((1u64 << 1) | (1u64 << 2) | (1u64 << 3))) >> q) & 1u64
                        == 1u64));
                    assert(start_idx == 0);
                } else {
                    assert(local@[t / 64] == before[t / 64]);
                    assert(flat_bit(local@, t) == flat_bit(before, t));
                }
            }
        }
    } else {
        proof {
            assert forall|t: int| 0 <= t < seg_len implies (#[trigger] flat_bit(local@, t) <==> presieved(
                odd_of(start_idx + t),
            )) by {
                lemma_fundamental_div_mod(t, 64);
                lemma_word_of(t, seg_len as int);
                assert(t / 64 < seg_nw);
                assert(w == seg_nw);
                assert(flat_bit(local@, t) <==> (odd_of(start_idx + t) % 3 != 0 && odd_of(start_idx + t) % 5 != 0 && odd_of(
                    start_idx + t,
                ) % 7 != 0));
                assert(odd_of(start_idx + t) > 7);
                assert(start_idx >= SEG_ODD_COUNT) by (nonlinear_arith)
                    requires
                        start_idx == seg * SEG_ODD_COUNT,
                        seg >= 1,
                ;
            }
        }
    }
    local
}


/// An odd prime is odd.
proof fn lemma_odd_prime(p: int)
    requires
        p >= 3,
        is_prime(p as nat),
    ensures
        p % 2 == 1,
{
    if p % 2 == 0 {
        assert((p as nat) % 2 == 0);
    }
}

/// The first odd multiple of `p` from which a segment starting at the odd
/// number `low` is crossed: `p^2` when it is not below `low`, else the least
/// odd multiple of `p` not below `low`.
pub open spec fn first_cross(low: int, p: int) -> int {
    if p * p >= low {
        p * p
    } else {
        let m = ((low + p - 1) / p) * p;
        if m % 2 == 0 {
            m + p
        } else {
            m
        }
    }
}

/// `first_cross` is the least odd multiple of `p` that is at least `low` and
/// at least `p^2`.
proof fn lemma_first_cross(low: int, p: int, n: int)
    requires
        low >= 1,
        p >= 3,
        is_prime(p as nat),
        n >= low,
        n % 2 == 1,
    ensures
        first_cross(low, p) % 2 == 1,
        first_cross(low, p) % p == 0,
        first_cross(low, p) >= low,
        first_cross(low, p) >= p * p,
        (n % p == 0 && n >= p * p) == (n % p == 0 && n >= first_cross(low, p)),
{
    lemma_odd_prime(p);
    lemma_fundamental_div_mod(p, 2);
    let h = p / 2;
    assert(p * p == 2 * (2 * h * h + 2 * h) + 1) by (nonlinear_arith)
        requires
            p == 2 * h + 1,
    ;
    lemma_mod_multiples_vanish(2 * h * h + 2 * h, 1, 2);
    lemma_mod_multiples_basic(p, p);
    if p * p < low {
        lemma_fundamental_div_mod(low + p - 1, p);
        let q = (low + p - 1) / p;
        let m = q * p;
        assert(low <= m <= low + p - 1) by (nonlinear_arith)
            requires
                low + p - 1 == p * q + (low + p - 1) % p,
                0 <= (low + p - 1) % p < p,
                m == q * p,
        ;
        lemma_mod_multiples_basic(q, p);
        if n % p == 0 {
            lemma_fundamental_div_mod(n, p);
            let k = n / p;
            assert(n >= m) by (nonlinear_arith)
                requires
                    n == p * k,
                    m == q * p,
                    m - p < low,
                    n >= low,
                    p >= 1,
            ;
            if m % 2 == 0 {
                assert(n != m);
                assert(n >= m + p) by (nonlinear_arith)
                    requires
                        n == p * k,
                        m == q * p,
                        n > m,
                        p >= 1,
                ;
            }
        }
        if m % 2 == 0 {
            assert((m + p) % 2 == 1) by {
                lemma_fundamental_div_mod(m, 2);
                lemma_mod_multiples_vanish(m / 2 + h, 1, 2);
                assert(m + p == 2 * (m / 2 + h) + 1);
            }
            assert((q + 1) * p == m + p) by (nonlinear_arith)
                requires
                    m == q * p,
            ;
            lemma_mod_multiples_basic(q + 1, p);
        }
        assert(m >= p * p) by (nonlinear_arith)
            requires
                m >= low,
                low > p * p,
        ;
    }
}

/// The stride from the local index of `first` meets exactly the odd
/// multiples of `p` from `first` on.
proof fn lemma_segment_stride(start: int, t: int, l: int, p: int)
    requires
        start >= 0,
        t >= 0,
        l >= 0,
        p >= 3,
        is_prime(p as nat),
        odd_of(start + l) % p == 0,
    ensures
        (t >= l && (t - l) % p == 0) == (odd_of(start + t) >= odd_of(start + l) && odd_of(start + t) % p == 0),
{
    let f = odd_of(start + l);
    let n = odd_of(start + t);
    assert(n - f == 2 * (t - l));
    lemma_fundamental_div_mod(f, p);
    if t >= l && (t - l) % p == 0 {
        lemma_fundamental_div_mod(t - l, p);
        let j = (t - l) / p;
        assert(n == p * (f / p + 2 * j)) by (nonlinear_arith)
            requires
                n - f == 2 * (t - l),
                t - l == p * j + (t - l) % p,
                (t - l) % p == 0,
                f == p * (f / p) + f % p,
                f % p == 0,
        ;
        lemma_mod_multiples_basic(f / p + 2 * j, p);
        assert(p * (f / p + 2 * j) == (f / p + 2 * j) * p) by (nonlinear_arith);
    }
    if n >= f && n % p == 0 {
        lemma_fundamental_div_mod(n, p);
        assert(2 * (t - l) == p * (n / p - f / p)) by (nonlinear_arith)
            requires
                n - f == 2 * (t - l),
                n == p * (n / p) + n % p,
                n % p == 0,
                f == p * (f / p) + f % p,
                f % p == 0,
        ;
        lemma_mod_multiples_basic(n / p - f / p, p);
        assert(p * (n / p - f / p) == (n / p - f / p) * p) by (nonlinear_arith);
        crate::number_theory::lemma_euclid(p, 2, t - l);
        if (t - l) % p != 0 {
            lemma_small_mod(2, p as nat);
        }
    }
}


/// One segment of the table: the bits of the odd numbers `2 i + 1`,
/// `start_idx <= i < end_idx`, presieved by 3, 5 and 7 and crossed off by
/// the primes of the list from 11 on, each from its square.
fn sieve_odd_segment(
    seg: usize,
    start_idx: usize,
    end_idx: usize,
    small_primes: &Vec<usize>,
    masks3: &Vec<u64>,
    masks5: &Vec<u64>,
    masks7: &Vec<u64>,
) -> (local: Vec<u64>)
    requires
        usize::BITS == 64,
        start_idx == seg * SEG_ODD_COUNT,
        start_idx < end_idx <= start_idx + SEG_ODD_COUNT,
        end_idx <= 0x1_0000_0000,
        masks_ok(masks3@, 3),
        masks_ok(masks5@, 5),
        masks_ok(masks7@, 7),
        forall|a: int| 0 <= a < small_primes.len() ==> is_prime(#[trigger] small_primes@[a] as nat) && 3 <= small_primes@[a] <= 0xffff,
    ensures
        local.len() == (end_idx - start_idx + 63) / 64,
        forall|t: int|
            0 <= t < end_idx - start_idx ==> (#[trigger] flat_bit(local@, t) <==> (presieved(odd_of(start_idx + t))
                && !crossed_from_11(odd_of(start_idx + t), small_primes@, small_primes.len() as int))),
{
    let mut local = presieve_segment(seg, start_idx, end_idx, masks3, masks5, masks7);
    let seg_len = end_idx - start_idx;
    let ghost sp = small_primes@;
    let mut ti: usize = 0;
    while ti < small_primes.len()
        invariant
            usize::BITS == 64,
            start_idx < end_idx <= start_idx + SEG_ODD_COUNT,
            end_idx <= 0x1_0000_0000,
            seg_len == end_idx - start_idx,
            local.len() == (seg_len + 63) / 64,
            sp == small_primes@,
            forall|a: int| 0 <= a < sp.len() ==> is_prime(#[trigger] sp[a] as nat) && 3 <= sp[a] <= 0xffff,
            ti <= sp.len(),
            forall|t: int|
                0 <= t < seg_len ==> (#[trigger] flat_bit(local@, t) <==> (presieved(odd_of(start_idx + t))
                    && !crossed_from_11(odd_of(start_idx + t), sp, ti as int))),
        decreases sp.len() - ti,
    {
        let p = small_primes[ti];
        let ghost before = local@;
        proof {
            assert(is_prime(p as nat) && 3 <= p <= 0xffff);
        }
        if p > 7 {
            assert(p * p <= 0xffff * 0xffff) by (nonlinear_arith)
                requires
                    p <= 0xffff,
            ;
            assert(usize::MAX == 0xffff_ffff_ffff_ffff);
            let pp = p * p;
            let low_num = 2 * start_idx + 1;
            let first_num = if pp >= low_num {
                pp
            } else {
                assert(((low_num + p - 1) as int / p as int) * p as int <= low_num + p - 1) by {
                    lemma_fundamental_div_mod((low_num + p - 1) as int, p as int);
                }
                let m = ((low_num + p - 1) / p) * p;
                if m % 2 == 0 {
                    m + p
                } else {
                    m
                }
            };
            let end_num = 2 * (end_idx - 1) + 1;
            proof {
                assert(first_num == first_cross(low_num as int, p as int));
                lemma_first_cross(low_num as int, p as int, low_num as int);
            }
            if first_num <= end_num {
                let first_odd_idx = (first_num - 1) / 2;
                let local_idx = first_odd_idx - start_idx;
                let mut idx = local_idx;
                proof {
                    assert(odd_of(start_idx + local_idx) == first_num);
                    assert((idx - local_idx) % (p as int) == 0) by {
                        lemma_small_mod(0, p as nat);
                    }
                }
                while idx < seg_len
                    invariant
                        usize::BITS == 64,
                        seg_len == end_idx - start_idx,
                        end_idx <= 0x1_0000_0000,
                        local.len() == (seg_len + 63) / 64,
                        3 <= p <= 0xffff,
                        idx >= local_idx,
                        (idx - local_idx) % (p as int) == 0,
                        forall|t: int|
                            0 <= t < seg_len ==> (#[trigger] flat_bit(local@, t) <==> (flat_bit(before, t) && !(t < idx && t
                                >= local_idx && (t - local_idx) % (p as int) == 0))),
                    decreases seg_len + p - idx,
                {
                    let ghost mid = local@;
                    let wi = idx / 64;
                    let b = idx % 64;
                    proof {
                        lemma_word_of(idx as int, seg_len as int);
                    }
                    let cur = local[wi];
                    local.set(wi, cur & !(1u64 << b));
                    proof {
                        assert forall|t: int| 0 <= t < seg_len implies (#[trigger] flat_bit(local@, t) <==> (flat_bit(
                            before,
                            t,
                        ) && !(t < idx + p && t >= local_idx && (t - local_idx) % (p as int) == 0))) by {
                            lemma_word_of(t, seg_len as int);
                            assert(64 * local.len() >= seg_len) by {
                                lemma_fundamental_div_mod(seg_len + 63, 64);
                            }
                            crate::pi_sieve::lemma_clear_bit(mid, local@, wi as int, b as int, t);
                            lemma_fundamental_div_mod(idx as int, 64);
                            crate::pi_sieve::lemma_stride_step(t, idx as int, local_idx as int, p as int);
                            assert(flat_bit(mid, t) <==> (flat_bit(before, t) && !(t < idx && t >= local_idx && (t
                                - local_idx) % (p as int) == 0)));
                        }
                        lemma_mod_add_multiples_vanish(idx - local_idx, p as int);
                    }
                    idx = idx + p;
                }
                proof {
                    assert forall|t: int| 0 <= t < seg_len implies (#[trigger] flat_bit(local@, t) <==> (presieved(
                        odd_of(start_idx + t),
                    ) && !crossed_from_11(odd_of(start_idx + t), sp, ti + 1))) by {
                        let n = odd_of(start_idx + t);
                        lemma_segment_stride(start_idx as int, t, local_idx as int, p as int);
                        lemma_first_cross(low_num as int, p as int, n);
                        assert(flat_bit(before, t) <==> (presieved(n) && !crossed_from_11(n, sp, ti as int)));
                        if n % (p as int) == 0 && n >= p * p {
                            assert(sp[ti as int] == p);
                            lemma_odd_prime(p as int);
                            if p == 9 {
                                assert((p as nat) % 3 == 0);
                            }
                            assert(sp[ti as int] >= 11 && sp[ti as int] * sp[ti as int] <= n
                                && n % (sp[ti as int] as int) == 0);
                            assert(crossed_from_11(n, sp, ti + 1));
                        }
                        if crossed_from_11(n, sp, ti + 1) && !crossed_from_11(n, sp, ti as int) {
                            let a = choose|a: int|
                                0 <= a < ti + 1 && sp[a] >= 11 && sp[a] * sp[a] <= n && #[trigger] (n % (sp[a] as int)) == 0;
                            assert(a == ti);
                        }
                    }
                }
            } else {
                proof {
                    assert forall|t: int| 0 <= t < seg_len implies (#[trigger] flat_bit(local@, t) <==> (presieved(
                        odd_of(start_idx + t),
                    ) && !crossed_from_11(odd_of(start_idx + t), sp, ti + 1))) by {
                        let n = odd_of(start_idx + t);
                        lemma_first_cross(low_num as int, p as int, n);
                        if crossed_from_11(n, sp, ti + 1) && !crossed_from_11(n, sp, ti as int) {
                            let a = choose|a: int|
                                0 <= a < ti + 1 && sp[a] >= 11 && sp[a] * sp[a] <= n && #[trigger] (n % (sp[a] as int)) == 0;
                            assert(a == ti);
                        }
                    }
                }
            }
        } else {
            proof {
                assert forall|t: int| 0 <= t < seg_len implies (#[trigger] flat_bit(local@, t) <==> (presieved(
                    odd_of(start_idx + t),
                ) && !crossed_from_11(odd_of(start_idx + t), sp, ti + 1))) by {
                    let n = odd_of(start_idx + t);
                    if crossed_from_11(n, sp, ti + 1) && !crossed_from_11(n, sp, ti as int) {
                        let a = choose|a: int|
                            0 <= a < ti + 1 && sp[a] >= 11 && sp[a] * sp[a] <= n && #[trigger] (n % (sp[a] as int)) == 0;
                        assert(a == ti);
                    }
                }
            }
        }
        ti = ti + 1;
    }
    local
}

/// Shifting right by `b` and then by `j` is shifting by `k = b + j`.
proof fn lemma_shift_twice(w: u64, b: u64, j: u64, k: u64)
    requires
        k == b + j,
        k < 64,
    ensures
        (w >> b) >> j == w >> k,
{
    vstd::bits::lemma_u64_shr_is_div(w, b);
    vstd::bits::lemma_u64_shr_is_div(w >> b, j);
    vstd::bits::lemma_u64_shr_is_div(w, k);
    vstd::arithmetic::power2::lemma_pow2_pos(b as nat);
    vstd::arithmetic::power2::lemma_pow2_pos(j as nat);
    vstd::arithmetic::power2::lemma_pow2_adds(b as nat, j as nat);
    lemma_div_denominator(w as int, vstd::arithmetic::power2::pow2(b as nat) as int, vstd::arithmetic::power2::pow2(j as nat) as int);
}

/// A word shifted by `b` has nothing left from position `64 - b` on, and
/// nothing at all once it is zero.
proof fn lemma_shift_out(w: u64, b: u64, j: u64)
    by (bit_vector)
    requires
        b < 64,
        j < 64,
    ensures
        b + j >= 64 ==> ((w >> b) >> j) & 1u64 == 0u64,
        (w >> b) == 0u64 ==> ((w >> b) >> j) & 1u64 == 0u64,
{
}

/// An odd number up to `limit` survives the masks and the primes from 11 up
/// to `sqrt(limit)` exactly when it is prime.
proof fn lemma_survivor_iff_prime(k: int, sp: Seq<usize>, sq: int, limit: int)
    requires
        k >= 0,
        odd_of(k) <= limit,
        1 <= sq <= 0xffff,
        sq * sq <= limit < (sq + 1) * (sq + 1),
        forall|a: int| 0 <= a < sp.len() ==> is_prime(#[trigger] sp[a] as nat) && 3 <= sp[a] <= sq,
        forall|q: usize| 3 <= q <= sq && is_prime(q as nat) ==> #[trigger] sp.contains(q),
    ensures
        (presieved(odd_of(k)) && !crossed_from_11(odd_of(k), sp, sp.len() as int)) <==> is_prime(
            odd_of(k) as nat,
        ),
{
    lemma_uncrossed_is_prime(k, sp, sq, sq, limit);
    let n = odd_of(k);
    if is_prime(n as nat) {
        if n != 3 && n % 3 == 0 {
            assert((n as nat) % 3 == 0);
        }
        if n != 5 && n % 5 == 0 {
            assert((n as nat) % 5 == 0);
        }
        if n != 7 && n % 7 == 0 {
            assert((n as nat) % 7 == 0);
        }
        if crossed_from_11(n, sp, sp.len() as int) {
            let a = choose|a: int|
                0 <= a < sp.len() && sp[a] >= 11 && sp[a] * sp[a] <= n && #[trigger] (n % (sp[a] as int)) == 0;
            assert(crossed(n, sp, sp.len() as int, sq));
        }
    } else if presieved(n) {
        assert(k != 0);
        let a = choose|a: int|
            0 <= a < sp.len() && sp[a] <= sq && sp[a] * sp[a] <= n && #[trigger] (n % (sp[a] as int)) == 0;
        let q = sp[a] as int;
        assert(is_prime(q as nat));
        lemma_odd_prime(q);
        assert(q < n) by (nonlinear_arith)
            requires
                q * q <= n,
                q >= 3,
        ;
        if q == 9 {
            assert((q as nat) % 3 == 0);
        }
        assert(q >= 11);
        assert(crossed_from_11(n, sp, sp.len() as int));
    }
}

/// Bit `i` of two word sequences laid end to end.
proof fn lemma_flat_bit_append(prev: Seq<u64>, local: Seq<u64>, i: int)
    requires
        0 <= i < 64 * (prev.len() + local.len()),
    ensures
        i < 64 * prev.len() ==> flat_bit(prev + local, i) == flat_bit(prev, i),
        i >= 64 * prev.len() ==> flat_bit(prev + local, i) == flat_bit(local, i - 64 * prev.len()),
{
    lemma_fundamental_div_mod(i, 64);
    if i >= 64 * prev.len() {
        let t = i - 64 * prev.len();
        lemma_fundamental_div_mod(t, 64);
        lemma_fundamental_div_mod_converse(i, 64, prev.len() + t / 64, t % 64);
    }
}

/// The words of `64 m + x` bits are the `m` words of the first `64 m` bits
/// and those of the rest.
proof fn lemma_words_split(m: int, x: int)
    requires
        m >= 0,
        x >= 0,
    ensures
        (64 * m + x + 63) / 64 == m + (x + 63) / 64,
{
    lemma_fundamental_div_mod(x + 63, 64);
    lemma_fundamental_div_mod_converse(64 * m + x + 63, 64, m + (x + 63) / 64, (x + 63) % 64);
}

/// The primes among the odd numbers up to `limit`, one bit per odd number,
/// with the number of primes before each word.
pub struct BigPiTable {
    pub bits: Vec<u64>,
    pub prefix: Vec<u32>,
    pub limit: Ghost<int>,
}

impl BigPiTable {
    /// From `limit >= 3` on, bit `i` holds whether `2 i + 1` is prime for
    /// every `2 i + 1 <= limit`, and `prefix[w]` counts the primes below the
    /// odd numbers of word `w`, the prime 2 included.
    pub open spec fn wf(&self) -> bool {
        &&& 0 <= self.limit@ <= 0xffff_ffff
        &&& self.limit@ >= 3 ==> {
            &&& self.prefix@.len() == self.bits@.len()
            &&& forall|i: int| 0 <= i && odd_of(i) <= self.limit@ ==> i < 64 * self.bits@.len()
            &&& forall|i: int|
                0 <= i && odd_of(i) <= self.limit@ ==> (#[trigger] flat_bit(self.bits@, i) <==> is_prime(
                    odd_of(i) as nat,
                ))
            &&& forall|w: int|
                0 <= w < self.bits@.len() ==> #[trigger] self.prefix@[w] == 1 + flat_ones(self.bits@, 64 * w)
        }
    }

    /// The odd primes up to the square root of `limit`, from a `primal`
    /// sieve: exactly those, in increasing order.
    fn crossing_primes(limit: usize) -> (r: (Vec<usize>, Ghost<int>))
        requires
            3 <= limit <= 0xffff_ffff,
        ensures
            1 <= r.1@ <= 0xffff,
            r.1@ * r.1@ <= limit < (r.1@ + 1) * (r.1@ + 1),
            forall|a: int| 0 <= a < r.0.len() ==> is_prime(#[trigger] r.0@[a] as nat) && 3 <= r.0@[a] <= r.1@,
            forall|q: usize| 3 <= q <= r.1@ && is_prime(q as nat) ==> #[trigger] r.0@.contains(q),
    {
        let root = isqrt(limit as u64);
        proof {
            assert(1 <= root <= 0xffff) by (nonlinear_arith)
                requires
                    root * root <= limit,
                    limit < (root + 1) * (root + 1),
                    3 <= limit <= 0xffff_ffff,
            ;
        }
        let sqrt_limit = root as usize;
        let small = sieve_past(sqrt_limit);
        let candidates = if 3 < sieve_upper_bound(&small) {
            sieve_primes_from(&small, 3)
        } else {
            Vec::new()
        };
        proof {
            assert(forall|q: usize| 3 <= q <= sqrt_limit && is_prime(q as nat) ==> #[trigger] candidates@.contains(q));
        }
        let mut primes: Vec<usize> = Vec::new();
        let mut j: usize = 0;
        while j < candidates.len() && candidates[j] <= sqrt_limit
            invariant
                j <= candidates.len(),
                primes@ == candidates@.take(j as int),
                forall|a: int| 0 <= a < j ==> candidates@[a] <= sqrt_limit,
            decreases candidates.len() - j,
        {
            primes.push(candidates[j]);
            j += 1;
        }
        proof {
            assert forall|q: usize| 3 <= q <= sqrt_limit && is_prime(q as nat) implies #[trigger] primes@.contains(q) by {
                assert(candidates@.contains(q));
                let a = choose|a: int| 0 <= a < candidates.len() && candidates@[a] == q;
                if a >= j {
                    assert(candidates@[j as int] <= candidates@[a]);
                }
                assert(primes@[a] == q);
            }
        }
        (primes, Ghost(sqrt_limit as int))
    }

    /// Sieves the odd numbers up to `limit`, a segment at a time.
    pub fn new(limit: usize) -> (s: Self)
        requires
            usize::BITS == 64,
            limit <= 0xffff_ffff,
        ensures
            s.wf(),
            s.limit@ == limit,
            limit < 3 ==> s.bits.len() == 0 && s.prefix.len() == 0,
            limit >= 3 ==> s.bits.len() == ((limit - 1) / 2 + 1 + 63) / 64 && s.prefix.len() == s.bits.len(),
    {
        if limit < 3 {
            return BigPiTable { bits: Vec::new(), prefix: Vec::new(), limit: Ghost(limit as int) };
        }
        let odd_count: usize = (limit - 1) / 2 + 1;
        let nwords: usize = (odd_count + 63) / 64;
        let (small_primes, Ghost(sq)) = Self::crossing_primes(limit);
        let masks3 = build_presieve_masks(3);
        let masks5 = build_presieve_masks(5);
        let masks7 = build_presieve_masks(7);
        let mut bits: Vec<u64> = Vec::new();
        let mut covered: usize = 0;
        while covered < odd_count
            invariant
                usize::BITS == 64,
                odd_count == (limit - 1) / 2 + 1,
                limit <= 0xffff_ffff,
                covered <= odd_count,
                covered < odd_count ==> covered % SEG_ODD_COUNT == 0,
                bits.len() == (covered + 63) / 64,
                masks_ok(masks3@, 3),
                masks_ok(masks5@, 5),
                masks_ok(masks7@, 7),
                forall|a: int|
                    0 <= a < small_primes.len() ==> is_prime(#[trigger] small_primes@[a] as nat) && 3
                        <= small_primes@[a] <= 0xffff,
                forall|i: int|
                    0 <= i < covered ==> (#[trigger] flat_bit(bits@, i) <==> (presieved(odd_of(i))
                        && !crossed_from_11(odd_of(i), small_primes@, small_primes.len() as int))),
            decreases odd_count - covered,
        {
            let seg = covered / SEG_ODD_COUNT;
            let start_idx = covered;
            let end_idx = if start_idx + SEG_ODD_COUNT < odd_count {
                start_idx + SEG_ODD_COUNT
            } else {
                odd_count
            };
            proof {
                lemma_fundamental_div_mod(covered as int, SEG_ODD_COUNT as int);
                assert(start_idx == seg * SEG_ODD_COUNT);
            }
            let local = sieve_odd_segment(seg, start_idx, end_idx, &small_primes, &masks3, &masks5, &masks7);
            let ghost prev = bits@;
            let mut w: usize = 0;
            while w < local.len()
                invariant
                    w <= local.len(),
                    bits@ == prev + local@.take(w as int),
                decreases local.len() - w,
            {
                bits.push(local[w]);
                proof {
                    assert(local@.take(w + 1) == local@.take(w as int).push(local@[w as int]));
                }
                w += 1;
            }
            proof {
                assert(local@.take(local.len() as int) == local@);
                let m = 4096 * seg;
                assert(start_idx == 64 * m);
                lemma_words_split(m as int, 0);
                lemma_words_split(m as int, (end_idx - start_idx) as int);
                assert(prev.len() == m);
                assert forall|i: int|
                    0 <= i < end_idx implies (#[trigger] flat_bit(bits@, i) <==> (presieved(odd_of(i))
                        && !crossed_from_11(odd_of(i), small_primes@, small_primes.len() as int))) by {
                    assert(64 * local.len() >= end_idx - start_idx) by {
                        lemma_fundamental_div_mod((end_idx - start_idx + 63) as int, 64);
                    }
                    lemma_flat_bit_append(prev, local@, i);
                    if i >= start_idx {
                        assert(flat_bit(local@, i - start_idx) <==> (presieved(odd_of(start_idx + (i - start_idx)))
                            && !crossed_from_11(odd_of(start_idx + (i - start_idx)), small_primes@, small_primes.len() as int)));
                    }
                }
                if end_idx < odd_count {
                    lemma_mod_multiples_basic(seg as int + 1, SEG_ODD_COUNT as int);
                    assert(end_idx == (seg + 1) * SEG_ODD_COUNT);
                }
            }
            covered = end_idx;
        }
        let mut prefix: Vec<u32> = Vec::new();
        let mut running: u32 = 1;
        let mut w: usize = 0;
        while w < nwords
            invariant
                w <= nwords,
                nwords == (odd_count + 63) / 64,
                odd_count <= 0x8000_0000,
                bits.len() == nwords,
                prefix.len() == w,
                running == 1 + flat_ones(bits@, 64 * w),
                flat_ones(bits@, 64 * w) <= 64 * w,
                forall|v: int| 0 <= v < w ==> #[trigger] prefix@[v] == 1 + flat_ones(bits@, 64 * v),
            decreases nwords - w,
        {
            prefix.push(running);
            let c = count_ones(bits[w]);
            proof {
                lemma_flat_ones_word(bits@, w as int, 64);
                lemma_ones_below_le(bits@[w as int], 64);
            }
            running = running + c;
            w += 1;
        }
        let s = BigPiTable { bits, prefix, limit: Ghost(limit as int) };
        proof {
            assert forall|i: int| 0 <= i && odd_of(i) <= limit implies (#[trigger] flat_bit(s.bits@, i) <==> is_prime(
                odd_of(i) as nat)) by {
                lemma_survivor_iff_prime(i, small_primes@, sq, limit as int);
            }
            assert forall|i: int| 0 <= i && odd_of(i) <= limit implies i < 64 * s.bits@.len() by {
                lemma_fundamental_div_mod((odd_count + 63) as int, 64);
            }
        }
        s
    }

    /// pi(n) for `n` up to the table's bound.
    pub fn pi(&self, n: usize) -> (r: u64)
        requires
            self.wf(),
            n <= self.limit@ || n < 3,
        ensures
            r == prime_count(n as nat),
    {
        proof {
            lemma_prime_count_small();
        }
        if n < 2 {
            return 0;
        }
        if n < 3 {
            return 1;
        }
        let odd_idx = (n - 1) / 2;
        let word = odd_idx / 64;
        let bit = odd_idx % 64;
        proof {
            assert(odd_of(odd_idx as int) == n || odd_of(odd_idx as int) == n - 1);
            assert(odd_idx < 64 * self.bits@.len());
        }
        let mask = low_mask_exec((bit + 1) as u32);
        let c = count_ones(self.bits[word] & mask);
        proof {
            lemma_popcount_masked(self.bits@[word as int], bit + 1);
            lemma_flat_ones_word(self.bits@, word as int, bit + 1);
            assert(64 * word + bit + 1 == odd_idx + 1);
            lemma_flat_ones_odd_primes(self.bits@, odd_idx as int, self.limit@);
            if n % 2 == 0 {
                assert(!is_prime(n as nat)) by {
                    assert((n as nat) % 2 == 0);
                }
            }
            crate::number_theory::lemma_prime_count_le(n as nat);
        }
        self.prefix[word] as u64 + c as u64
    }

    /// Word `w` of the bits.
    pub fn bits_word(&self, w: usize) -> (r: u64)
        requires
            w < self.bits.len(),
        ensures
            r == self.bits@[w as int],
    {
        self.bits[w]
    }

    /// The least prime after `n`, read off the bits; past 2 there must be one
    /// up to the table's bound.
    pub fn next_prime_after(&self, n: usize) -> (r: usize)
        requires
            self.wf(),
            n < 3 || exists|q: int| n < q <= self.limit@ && #[trigger] is_prime(q as nat),
        ensures
            r > n,
            is_prime(r as nat),
            forall|q: int| n < q < r ==> !#[trigger] is_prime(q as nat),
            n >= 3 ==> r <= self.limit@,
    {
        proof {
            lemma_prime_count_small();
        }
        if n < 2 {
            proof {
                assert(is_prime(2)) by {
                    assert forall|d: nat| 2 <= d < 2 implies #[trigger] (2nat % d) != 0 by {}
                }
            }
            return 2;
        }
        if n < 3 {
            proof {
                assert(is_prime(3)) by {
                    assert forall|d: nat| 2 <= d < 3 implies #[trigger] (3nat % d) != 0 by {
                        assert(d == 2);
                    }
                }
            }
            return 3;
        }
        let ghost q = choose|q: int| n < q <= self.limit@ && #[trigger] is_prime(q as nat);
        proof {
            lemma_odd_prime(q);
        }
        let start = if n % 2 == 0 {
            n + 1
        } else {
            n + 2
        };
        let ghost iq = (q - 1) / 2;
        let odd_idx = (start - 1) / 2;
        let word = odd_idx / 64;
        let bit = odd_idx % 64;
        proof {
            assert(odd_of(iq) == q);
            assert(iq >= odd_idx);
            assert(iq < 64 * self.bits@.len());
            assert(flat_bit(self.bits@, iq));
            lemma_fundamental_div_mod(odd_idx as int, 64);
        }
        // every odd number from `start` on whose bit is clear is composite,
        // and the first set bit is that of a prime up to `q`
        let cur = self.bits[word];
        let mask = cur >> (bit as u64);
        if mask != 0 {
            let tz = mask.trailing_zeros();
            proof {
                vstd::std_specs::bits::axiom_u64_trailing_zeros(mask);
                lemma_shift_out(cur, bit as u64, tz as u64);
                assert(bit + tz < 64);
                lemma_shift_twice(cur, bit as u64, tz as u64, (bit + tz) as u64);
                let i = odd_idx + tz;
                assert forall|t: int| odd_idx <= t < i implies !flat_bit(self.bits@, t) by {
                    lemma_fundamental_div_mod_converse(t, 64, word as int, bit + (t - odd_idx));
                    lemma_shift_twice(cur, bit as u64, (t - odd_idx) as u64, (t % 64) as u64);
                    assert((mask >> ((t - odd_idx) as u64)) & 1u64 == 0u64);
                }
                lemma_fundamental_div_mod_converse(i, 64, word as int, bit + tz);
                assert(flat_bit(self.bits@, i));
                if iq < i {
                    assert(!flat_bit(self.bits@, iq));
                }
                self.lemma_gap(n as int, odd_idx as int, i);
            }
            return 2 * (word * 64 + bit + tz as usize) + 1;
        }
        proof {
            assert forall|t: int| odd_idx <= t < 64 * (word + 1) implies !flat_bit(self.bits@, t) by {
                lemma_fundamental_div_mod_converse(t, 64, word as int, bit + (t - odd_idx));
                lemma_shift_out(cur, bit as u64, (t - odd_idx) as u64);
                lemma_shift_twice(cur, bit as u64, (t - odd_idx) as u64, (t % 64) as u64);
            }
        }
        let mut w = word + 1;
        while w < self.bits.len()
            invariant
                self.wf(),
                word + 1 <= w <= self.bits.len(),
                3 <= n,
                n < q <= self.limit@,
                is_prime(q as nat),
                iq == (q - 1) / 2,
                odd_of(iq) == q,
                odd_idx <= iq < 64 * self.bits@.len(),
                odd_idx < 64 * w,
                odd_idx == (start - 1) / 2,
                start == (if n % 2 == 0 { n + 1 } else { n + 2 }),
                forall|t: int| odd_idx <= t < 64 * w ==> !flat_bit(self.bits@, t),
            decreases self.bits.len() - w,
        {
            let bw = self.bits[w];
            if bw != 0 {
                let tz = bw.trailing_zeros();
                proof {
                    vstd::std_specs::bits::axiom_u64_trailing_zeros(bw);
                    let i = 64 * w + tz;
                    assert forall|t: int| odd_idx <= t < i implies !flat_bit(self.bits@, t) by {
                        if t >= 64 * w {
                            lemma_fundamental_div_mod_converse(t, 64, w as int, t - 64 * w);
                            assert((bw >> ((t - 64 * w) as u64)) & 1u64 == 0u64);
                        }
                    }
                    lemma_fundamental_div_mod_converse(i, 64, w as int, tz as int);
                    assert(flat_bit(self.bits@, i));
                    assert(flat_bit(self.bits@, iq));
                    if iq < i {
                        assert(!flat_bit(self.bits@, iq));
                    }
                    self.lemma_gap(n as int, odd_idx as int, i);
                }
                return 2 * (w * 64 + tz as usize) + 1;
            }
            proof {
                assert forall|t: int| 64 * w <= t < 64 * (w + 1) implies !flat_bit(self.bits@, t) by {
                    lemma_fundamental_div_mod_converse(t, 64, w as int, t - 64 * w);
                    lemma_shift_out(bw, 0u64, (t - 64 * w) as u64);
                    lemma_shift_twice(bw, 0u64, (t - 64 * w) as u64, (t - 64 * w) as u64);
                }
            }
            w += 1;
        }
        proof {
            assert(flat_bit(self.bits@, iq));
            assert(false);
        }
        0
    }

    /// With the bits from `odd_idx` up to `i` clear and bit `i` set, `i` no
    /// further than a prime of the table, `2 i + 1` is the least prime after
    /// `n`.
    proof fn lemma_gap(&self, n: int, odd_idx: int, i: int)
        requires
            self.wf(),
            self.limit@ >= 3,
            n >= 3,
            odd_idx == ((if n % 2 == 0 { n + 1 } else { n + 2 }) - 1) / 2,
            odd_idx <= i,
            odd_of(i) <= self.limit@,
            flat_bit(self.bits@, i),
            forall|t: int| odd_idx <= t < i ==> !flat_bit(self.bits@, t),
        ensures
            odd_of(i) > n,
            is_prime(odd_of(i) as nat),
            forall|q: int| n < q < odd_of(i) ==> !#[trigger] is_prime(q as nat),
    {
        assert forall|q: int| n < q < odd_of(i) implies !#[trigger] is_prime(q as nat) by {
            if q % 2 == 0 {
                assert((q as nat) % 2 == 0);
            } else {
                let t = (q - 1) / 2;
                assert(odd_of(t) == q);
                assert(odd_idx <= t < i);
                assert(!flat_bit(self.bits@, t));
            }
        }
    }
}

/// The prime that `next_prime_after(n)` finds is the next one counted: pi
/// there is pi(n) plus one.
pub proof fn lemma_next_prime_counts_one_more(n: int, r: int)
    requires
        0 <= n < r,
        is_prime(r as nat),
        forall|q: int| n < q < r ==> !#[trigger] is_prime(q as nat),
    ensures
        prime_count(r as nat) == prime_count(n as nat) + 1,
{
    lemma_no_prime_in_gap(n, r - 1);
}

/// With no prime in `(n, m]`, pi stays the same.
pub proof fn lemma_no_prime_in_gap(n: int, m: int)
    requires
        0 <= n <= m,
        forall|q: int| n < q <= m ==> !#[trigger] is_prime(q as nat),
    ensures
        prime_count(m as nat) == prime_count(n as nat),
    decreases m - n,
{
    if m > n {
        lemma_no_prime_in_gap(n, m - 1);
        assert(!is_prime(m as nat));
    }
}

} // verus!
