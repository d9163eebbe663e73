//! The segmented wheel-30 sieve: one byte per 30 integers, bit `i` of byte `j`
//! standing for `seg_start + 30 * j + wheel_offset(i)`; a set bit means that
//! the number has a small prime factor.

use vstd::prelude::*;
use vstd::arithmetic::div_mod::*;
use crate::wheel::{
    bit_set, wheel_offset, wheel_index, is_wheel_residue, barrett_recip, two_pow_64, target_k,
    delta_k, dk_index, dk_table_ok, fast_div_corrected, p_mod_to_idx, lemma_wheel_multiple,
    lemma_wheel_residue_facts,
};
use crate::marking::{
    mark_progression, on_progression, lemma_progression_gap, lemma_progression_sub,
    lemma_progression_trans,
};

verus! {

/// A sieving prime with its wheel class and Barrett reciprocal.
pub struct SievePrime {
    pub p: u32,
    pub p_idx: u8,
    pub recip: u64,
}

/// A sieving prime as the sieve needs it: coprime to 30, with matching class
/// and reciprocal.
pub open spec fn sieve_prime_ok(sp: SievePrime) -> bool {
    &&& sp.p > 5
    &&& is_wheel_residue((sp.p % 30) as int)
    &&& sp.p_idx == wheel_index((sp.p % 30) as int)
    &&& sp.recip == barrett_recip(sp.p as int)
}

/// The wheel position `j` of residue `i` in a segment starting at `s` is a
/// multiple of `p`.
pub open spec fn hits(s: int, p: int, i: int, j: int) -> bool {
    (s + 30 * j + wheel_offset(i)) % p == 0
}

/// `starts[i]` is the first position in `[0, len)` of residue `i` hit by `p`
/// (or `usize::MAX` if there is none), and the hits are exactly the
/// positions of the progression from it with step `p`.
pub open spec fn starts_ok(s: int, p: int, len: int, starts: Seq<usize>) -> bool {
    &&& starts.len() == 8
    &&& forall|i: int| 0 <= i < 8 ==> (#[trigger] starts[i] == usize::MAX || starts[i] < len)
    &&& forall|i: int, j: int|
        0 <= i < 8 && 0 <= j < len ==> (#[trigger] hits(s, p, i, j) <==> (starts[i] != usize::MAX
            && on_progression(starts[i] as int, p, j)))
}

/// Attaches wheel metadata and reciprocals to sieving primes.
pub fn precompute_sieve_primes(primes: &Vec<u32>) -> (out: Vec<SievePrime>)
    ensures
        out.len() == primes.len(),
        forall|k: int|
            0 <= k < primes.len() ==> (#[trigger] out@[k]).p == primes@[k] && out@[k].p_idx
                == wheel_index((primes@[k] % 30) as int) && out@[k].recip == (if primes@[k] > 1 {
                barrett_recip(primes@[k] as int)
            } else {
                0xffff_ffff_ffff_ffff
            }),
{
    let mut out: Vec<SievePrime> = Vec::new();
    let mut k: usize = 0;
    while k < primes.len()
        invariant
            k <= primes.len(),
            out.len() == k,
            forall|t: int|
                0 <= t < k ==> (#[trigger] out@[t]).p == primes@[t] && out@[t].p_idx
                    == wheel_index((primes@[t] % 30) as int) && out@[t].recip == (if primes@[t] > 1 {
                    barrett_recip(primes@[t] as int)
                } else {
                    0xffff_ffff_ffff_ffff
                }),
        decreases primes.len() - k,
    {
        let p = primes[k];
        let p_idx = p_mod_to_idx(p % 30);
        let recip = if p > 1 {
            proof {
                lemma_div_is_ordered_by_denominator(u64::MAX as int, 2, p as int);
            }
            u64::MAX / (p as u64) + 1
        } else {
            u64::MAX
        };
        out.push(SievePrime { p, p_idx, recip });
        k += 1;
    }
    out
}

/// The first position of each residue hit by the prime in a segment of
/// `seg_bytes_len` bytes starting at `seg_start`, via the smallest multiplier
/// `k_min = ceil(seg_start / p)` and the delta table.
pub fn compute_starts(sp: &SievePrime, seg_start: u64, seg_bytes_len: usize, dk: &Vec<u8>) -> (starts:
    Vec<usize>)
    requires
        sieve_prime_ok(*sp),
        dk_table_ok(dk@),
        seg_start % 30 == 0,
        seg_start + 31 * sp.p < two_pow_64(),
    ensures
        starts_ok(seg_start as int, sp.p as int, seg_bytes_len as int, starts@),
{
    let p = sp.p as u64;
    let k_min = fast_div_corrected(seg_start + p - 1, p, sp.recip);
    let ghost s = seg_start as int;
    let ghost pi = p as int;
    proof {
        lemma_fundamental_div_mod(s + pi - 1, pi);
        assert(k_min * pi >= s && (k_min - 1) * pi < s) by (nonlinear_arith)
            requires
                s + pi - 1 == pi * k_min + (s + pi - 1) % pi,
                0 <= (s + pi - 1) % pi < pi,
                pi > 0,
        ;
        assert(k_min * pi <= s + pi - 1) by (nonlinear_arith)
            requires
                s + pi - 1 == pi * k_min + (s + pi - 1) % pi,
                0 <= (s + pi - 1) % pi,
        ;
        lemma_wheel_residue_facts((sp.p % 30) as int);
    }
    let k_rem = (k_min % 30) as usize;
    let base_diff = k_min * p - seg_start;
    let mut starts: Vec<usize> = Vec::new();
    let mut i: usize = 0;
    while i < 8
        invariant
            i <= 8,
            starts.len() == i,
            sieve_prime_ok(*sp),
            dk_table_ok(dk@),
            p == sp.p,
            s == seg_start,
            pi == p,
            seg_start % 30 == 0,
            seg_start + 31 * sp.p < two_pow_64(),
            k_min * pi >= s,
            (k_min - 1) * pi < s,
            k_rem == k_min % 30,
            base_diff == k_min * p - seg_start,
            base_diff < p,
            forall|r: int| 0 <= r < i ==> (#[trigger] starts@[r] == usize::MAX || starts@[r] < seg_bytes_len),
            forall|r: int, j: int|
                0 <= r < i && 0 <= j < seg_bytes_len ==> (#[trigger] hits(s, pi, r, j) <==> (
                starts@[r] != usize::MAX && on_progression(starts@[r] as int, pi, j))),
        decreases 8 - i,
    {
        let a = sp.p_idx as usize;
        proof {
            crate::wheel::lemma_dk_index_bounds_pub(a as int, k_rem as int, i as int);
        }
        let dk_v = dk[(a * 30 + k_rem) * 8 + i] as u64;
        let ghost kk = k_min + dk_v;
        proof {
            let t = target_k(a as int, i as int);
            crate::wheel::lemma_target_range(a as int, i as int);
            assert(dk_v == delta_k(a as int, k_rem as int, i as int));
            assert(dk_v < 30);
            // kk lies in the target class
            lemma_fundamental_div_mod(k_min as int, 30);
            let qa = (k_min / 30) as int;
            assert(kk == 30 * qa + k_rem + dk_v);
            if k_rem <= t {
                assert(kk == 30 * qa + t);
                lemma_mod_multiples_vanish(qa, t, 30);
                lemma_small_mod(t as nat, 30);
            } else {
                assert(kk == 30 * (qa + 1) + t);
                lemma_mod_multiples_vanish(qa + 1, t, 30);
                lemma_small_mod(t as nat, 30);
            }
            assert(kk * pi >= s) by (nonlinear_arith)
                requires
                    k_min * pi >= s,
                    kk >= k_min,
                    pi > 0,
            ;
            assert((kk - 30) * pi < s) by (nonlinear_arith)
                requires
                    (k_min - 1) * pi < s,
                    kk - 30 <= k_min - 1,
                    pi > 0,
            ;
            assert(base_diff + dk_v * p == kk * pi - s) by (nonlinear_arith)
                requires
                    base_diff == k_min * p - seg_start,
                    kk == k_min + dk_v,
                    pi == p,
                    s == seg_start,
            ;
            assert(dk_v * p <= 29 * p) by (nonlinear_arith)
                requires
                    dk_v < 30,
            ;
        }
        let byte = (base_diff + dk_v * p) / 30;
        proof {
            assert forall|j: int| 0 <= j < seg_bytes_len implies (#[trigger] hits(s, pi, i as int, j)
                <==> (byte < seg_bytes_len && on_progression(byte as int, pi, j))) by {
                lemma_wheel_multiple(s, pi, i as int, kk, j);
            }
        }
        if byte < seg_bytes_len as u64 {
            starts.push(byte as usize);
        } else {
            starts.push(usize::MAX);
        }
        i += 1;
    }
    starts
}

/// Marking for a prime with several hits per residue across the segment:
/// every position on each residue's progression below `len`.
pub fn sieve_medium(sieve: &mut Vec<u8>, len: usize, starts: &Vec<usize>, p: usize)
    requires
        len <= old(sieve).len(),
        starts.len() == 8,
        p > 0,
        len + p <= usize::MAX,
    ensures
        final(sieve).len() == old(sieve).len(),
        forall|j: int, k: int|
            0 <= j < final(sieve).len() && 0 <= k < 8 ==> (#[trigger] bit_set(final(sieve)@[j], k)
                <==> (bit_set(old(sieve)@[j], k) || (j < len && starts@[k] < len && on_progression(
                starts@[k] as int,
                p as int,
                j,
            )))),
{
    let mut i: usize = 0;
    while i < 8
        invariant
            i <= 8,
            len <= sieve.len(),
            sieve.len() == old(sieve).len(),
            starts.len() == 8,
            p > 0,
            len + p <= usize::MAX,
            forall|j: int, k: int|
                0 <= j < sieve.len() && 0 <= k < 8 ==> (#[trigger] bit_set(sieve@[j], k) <==> (
                bit_set(old(sieve)@[j], k) || (k < i && j < len && starts@[k] < len && on_progression(
                    starts@[k] as int,
                    p as int,
                    j,
                )))),
        decreases 8 - i,
    {
        let idx = starts[i];
        if idx < len {
            let ghost prev = sieve@;
            let _ = mark_progression(sieve, len, idx, p, i);
            proof {
                assert forall|j: int, k: int|
                    0 <= j < sieve.len() && 0 <= k < 8 implies (#[trigger] bit_set(sieve@[j], k)
                        <==> (bit_set(old(sieve)@[j], k) || (k < i + 1 && j < len && starts@[k] < len
                        && on_progression(starts@[k] as int, p as int, j)))) by {
                    assert(bit_set(prev[j], k) <==> (bit_set(old(sieve)@[j], k) || (k < i && j < len
                        && starts@[k] < len && on_progression(starts@[k] as int, p as int, j))));
                }
            }
        }
        i += 1;
    }
}

/// Marking for a prime with at most one hit per residue in the segment.
pub fn sieve_large(sieve: &mut Vec<u8>, len: usize, starts: &Vec<usize>)
    requires
        len <= old(sieve).len(),
        starts.len() == 8,
    ensures
        final(sieve).len() == old(sieve).len(),
        forall|j: int, k: int|
            0 <= j < final(sieve).len() && 0 <= k < 8 ==> (#[trigger] bit_set(final(sieve)@[j], k)
                <==> (bit_set(old(sieve)@[j], k) || (j < len && j == starts@[k]))),
{
    let mut i: usize = 0;
    while i < 8
        invariant
            i <= 8,
            len <= sieve.len(),
            sieve.len() == old(sieve).len(),
            starts.len() == 8,
            forall|j: int, k: int|
                0 <= j < sieve.len() && 0 <= k < 8 ==> (#[trigger] bit_set(sieve@[j], k) <==> (
                bit_set(old(sieve)@[j], k) || (k < i && j < len && j == starts@[k]))),
        decreases 8 - i,
    {
        let idx = starts[i];
        if idx < len {
            let ghost prev = sieve@;
            let old_byte = sieve[idx];
            let b8 = crate::wheel::wheel_bit(i);
            sieve.set(idx, old_byte | b8);
            proof {
                assert forall|j: int, k: int|
                    0 <= j < sieve.len() && 0 <= k < 8 implies (#[trigger] bit_set(sieve@[j], k)
                        <==> (bit_set(old(sieve)@[j], k) || (k < i + 1 && j < len && j
                        == starts@[k]))) by {
                    assert(bit_set(prev[j], k) <==> (bit_set(old(sieve)@[j], k) || (k < i && j < len
                        && j == starts@[k])));
                    if j == idx {
                        crate::marking::lemma_or_bit(old_byte, i as u8, k as u8);
                    }
                }
            }
        }
        i += 1;
    }
}


/// Marking for a tiny prime inside the sub-segment `[sub_offset, sub_offset +
/// sub_len)`: each residue's pending position `starts[base + i]`, when it lies
/// in the sub-segment, is marked along its progression, and the first
/// position beyond the sub-segment is carried forward in its place.
pub fn sieve_small(
    sieve: &mut Vec<u8>,
    starts: &mut Vec<u32>,
    base: usize,
    p: usize,
    sub_offset: usize,
    sub_len: usize,
)
    requires
        sub_offset + sub_len <= old(sieve).len(),
        base + 8 <= old(starts).len(),
        p > 0,
        sub_offset + sub_len + p < u32::MAX,
    ensures
        final(sieve).len() == old(sieve).len(),
        final(starts).len() == old(starts).len(),
        forall|j: int, k: int|
            0 <= j < final(sieve).len() && 0 <= k < 8 ==> (#[trigger] bit_set(final(sieve)@[j], k)
                <==> (bit_set(old(sieve)@[j], k) || (sub_offset <= old(starts)@[base + k] < sub_offset
                + sub_len && j < sub_offset + sub_len && on_progression(
                old(starts)@[base + k] as int,
                p as int,
                j,
            )))),
        forall|k: int|
            0 <= k < 8 ==> if sub_offset <= old(starts)@[base + k] < sub_offset + sub_len {
                let nx = #[trigger] final(starts)@[base + k];
                &&& nx >= sub_offset + sub_len
                &&& nx < sub_offset + sub_len + p
                &&& on_progression(old(starts)@[base + k] as int, p as int, nx as int)
            } else {
                final(starts)@[base + k] == old(starts)@[base + k]
            },
        forall|m: int|
            0 <= m < old(starts).len() && !(base <= m < base + 8) ==> #[trigger] final(starts)@[m]
                == old(starts)@[m],
{
    let end = sub_offset + sub_len;
    let mut i: usize = 0;
    while i < 8
        invariant
            i <= 8,
            end == sub_offset + sub_len,
            end <= sieve.len(),
            sieve.len() == old(sieve).len(),
            starts.len() == old(starts).len(),
            base + 8 <= starts.len(),
            p > 0,
            end + p < u32::MAX,
            forall|j: int, k: int|
                0 <= j < sieve.len() && 0 <= k < 8 ==> (#[trigger] bit_set(sieve@[j], k) <==> (
                bit_set(old(sieve)@[j], k) || (k < i && sub_offset <= old(starts)@[base + k] < end
                && j < end && on_progression(old(starts)@[base + k] as int, p as int, j)))),
            forall|k: int|
                0 <= k < i ==> if sub_offset <= old(starts)@[base + k] < end {
                    let nx = #[trigger] starts@[base + k];
                    &&& nx >= end
                    &&& nx < end + p
                    &&& on_progression(old(starts)@[base + k] as int, p as int, nx as int)
                } else {
                    starts@[base + k] == old(starts)@[base + k]
                },
            forall|m: int|
                0 <= m < starts.len() && !(base <= m < base + i) ==> #[trigger] starts@[m]
                    == old(starts)@[m],
        decreases 8 - i,
    {
        let s = starts[base + i] as usize;
        if s >= sub_offset && s - sub_offset < sub_len {
            let ghost prev = sieve@;
            let next = mark_progression(sieve, end, s, p, i);
            proof {
                assert forall|j: int, k: int|
                    0 <= j < sieve.len() && 0 <= k < 8 implies (#[trigger] bit_set(sieve@[j], k)
                        <==> (bit_set(old(sieve)@[j], k) || (k < i + 1 && sub_offset <= old(
                        starts,
                    )@[base + k] < end && j < end && on_progression(
                        old(starts)@[base + k] as int,
                        p as int,
                        j,
                    )))) by {
                    assert(bit_set(prev[j], k) <==> (bit_set(old(sieve)@[j], k) || (k < i
                        && sub_offset <= old(starts)@[base + k] < end && j < end && on_progression(
                        old(starts)@[base + k] as int,
                        p as int,
                        j,
                    ))));
                }
            }
            starts.set(base + i, next as u32);
        }
        i += 1;
    }
}

/// Some prime among `ps[lo..hi]` hits position `j` of residue `k`.
pub open spec fn hit_range(s: int, ps: Seq<SievePrime>, lo: int, hi: int, k: int, j: int) -> bool {
    exists|t: int| lo <= t < hi && #[trigger] hits(s, ps[t].p as int, k, j)
}

pub proof fn lemma_hit_range_extend(s: int, ps: Seq<SievePrime>, lo: int, hi: int, k: int, j: int)
    requires
        lo <= hi,
    ensures
        hit_range(s, ps, lo, hi + 1, k, j) <==> (hit_range(s, ps, lo, hi, k, j) || hits(
            s,
            ps[hi].p as int,
            k,
            j,
        )),
{
    if hit_range(s, ps, lo, hi + 1, k, j) {
        let t = choose|t: int| lo <= t < hi + 1 && #[trigger] hits(s, ps[t].p as int, k, j);
        if t < hi {
        }
    }
}

pub proof fn lemma_hit_range_split(s: int, ps: Seq<SievePrime>, lo: int, mid: int, hi: int, k: int, j: int)
    requires
        lo <= mid <= hi,
    ensures
        hit_range(s, ps, lo, hi, k, j) <==> (hit_range(s, ps, lo, mid, k, j) || hit_range(
            s,
            ps,
            mid,
            hi,
            k,
            j,
        )),
{
    if hit_range(s, ps, lo, hi, k, j) {
        let t = choose|t: int| lo <= t < hi && #[trigger] hits(s, ps[t].p as int, k, j);
        if t < mid {
            assert(hit_range(s, ps, lo, mid, k, j));
        } else {
            assert(hit_range(s, ps, mid, hi, k, j));
        }
    }
    if hit_range(s, ps, lo, mid, k, j) {
        let t = choose|t: int| lo <= t < mid && #[trigger] hits(s, ps[t].p as int, k, j);
        assert(hit_range(s, ps, lo, hi, k, j));
    }
    if hit_range(s, ps, mid, hi, k, j) {
        let t = choose|t: int| mid <= t < hi && #[trigger] hits(s, ps[t].p as int, k, j);
        assert(hit_range(s, ps, lo, hi, k, j));
    }
}

/// The sieving primes `ps[lo..hi]` suit a segment of `len` bytes from `s`.
pub open spec fn primes_fit(s: int, ps: Seq<SievePrime>, lo: int, hi: int, len: int) -> bool {
    &&& 0 <= lo <= hi <= ps.len()
    &&& forall|t: int|
        lo <= t < hi ==> {
            &&& sieve_prime_ok(#[trigger] ps[t])
            &&& s + 31 * ps[t].p < two_pow_64()
            &&& len + ps[t].p + 0x1_0000 < u32::MAX
        }
}

/// Marks, across the whole segment, the hits of the primes `ps[lo..hi]`.
pub fn sieve_medium_primes(
    sieve: &mut Vec<u8>,
    len: usize,
    seg_start: u64,
    ps: &Vec<SievePrime>,
    lo: usize,
    hi: usize,
    dk: &Vec<u8>,
)
    requires
        len <= old(sieve).len(),
        seg_start % 30 == 0,
        dk_table_ok(dk@),
        primes_fit(seg_start as int, ps@, lo as int, hi as int, len as int),
    ensures
        final(sieve).len() == old(sieve).len(),
        forall|j: int, k: int|
            0 <= j < final(sieve).len() && 0 <= k < 8 ==> (#[trigger] bit_set(final(sieve)@[j], k)
                <==> (bit_set(old(sieve)@[j], k) || (j < len && hit_range(
                seg_start as int,
                ps@,
                lo as int,
                hi as int,
                k,
                j,
            )))),
{
    let mut t = lo;
    while t < hi
        invariant
            lo <= t <= hi,
            len <= sieve.len(),
            sieve.len() == old(sieve).len(),
            seg_start % 30 == 0,
            dk_table_ok(dk@),
            primes_fit(seg_start as int, ps@, lo as int, hi as int, len as int),
            forall|j: int, k: int|
                0 <= j < sieve.len() && 0 <= k < 8 ==> (#[trigger] bit_set(sieve@[j], k) <==> (
                bit_set(old(sieve)@[j], k) || (j < len && hit_range(
                    seg_start as int,
                    ps@,
                    lo as int,
                    t as int,
                    k,
                    j,
                )))),
        decreases hi - t,
    {
        let sp = &ps[t];
        let starts = compute_starts(sp, seg_start, len, dk);
        let ghost prev = sieve@;
        sieve_medium(sieve, len, &starts, sp.p as usize);
        proof {
            assert forall|j: int, k: int|
                0 <= j < sieve.len() && 0 <= k < 8 implies (#[trigger] bit_set(sieve@[j], k) <==> (
                bit_set(old(sieve)@[j], k) || (j < len && hit_range(
                    seg_start as int,
                    ps@,
                    lo as int,
                    t + 1,
                    k,
                    j,
                )))) by {
                assert(bit_set(prev[j], k) <==> (bit_set(old(sieve)@[j], k) || (j < len && hit_range(
                    seg_start as int,
                    ps@,
                    lo as int,
                    t as int,
                    k,
                    j,
                ))));
                lemma_hit_range_extend(seg_start as int, ps@, lo as int, t as int, k, j);
                if j < len {
                    assert(hits(seg_start as int, sp.p as int, k, j) <==> (starts@[k] != usize::MAX
                        && on_progression(starts@[k] as int, sp.p as int, j)));
                }
            }
        }
        t += 1;
    }
}

/// Marks the hits of the primes `ps[lo..hi]`, each at least as large as the
/// segment, so that each residue has at most one hit.
pub fn sieve_large_primes(
    sieve: &mut Vec<u8>,
    len: usize,
    seg_start: u64,
    ps: &Vec<SievePrime>,
    lo: usize,
    hi: usize,
    dk: &Vec<u8>,
)
    requires
        len <= old(sieve).len(),
        seg_start % 30 == 0,
        dk_table_ok(dk@),
        primes_fit(seg_start as int, ps@, lo as int, hi as int, len as int),
        forall|t: int| lo <= t < hi ==> (#[trigger] ps@[t]).p >= len,
    ensures
        final(sieve).len() == old(sieve).len(),
        forall|j: int, k: int|
            0 <= j < final(sieve).len() && 0 <= k < 8 ==> (#[trigger] bit_set(final(sieve)@[j], k)
                <==> (bit_set(old(sieve)@[j], k) || (j < len && hit_range(
                seg_start as int,
                ps@,
                lo as int,
                hi as int,
                k,
                j,
            )))),
{
    let mut t = lo;
    while t < hi
        invariant
            lo <= t <= hi,
            len <= sieve.len(),
            sieve.len() == old(sieve).len(),
            seg_start % 30 == 0,
            dk_table_ok(dk@),
            primes_fit(seg_start as int, ps@, lo as int, hi as int, len as int),
            forall|t: int| lo <= t < hi ==> (#[trigger] ps@[t]).p >= len,
            forall|j: int, k: int|
                0 <= j < sieve.len() && 0 <= k < 8 ==> (#[trigger] bit_set(sieve@[j], k) <==> (
                bit_set(old(sieve)@[j], k) || (j < len && hit_range(
                    seg_start as int,
                    ps@,
                    lo as int,
                    t as int,
                    k,
                    j,
                )))),
        decreases hi - t,
    {
        let sp = &ps[t];
        let starts = compute_starts(sp, seg_start, len, dk);
        let ghost prev = sieve@;
        sieve_large(sieve, len, &starts);
        proof {
            assert forall|j: int, k: int|
                0 <= j < sieve.len() && 0 <= k < 8 implies (#[trigger] bit_set(sieve@[j], k) <==> (
                bit_set(old(sieve)@[j], k) || (j < len && hit_range(
                    seg_start as int,
                    ps@,
                    lo as int,
                    t + 1,
                    k,
                    j,
                )))) by {
                assert(bit_set(prev[j], k) <==> (bit_set(old(sieve)@[j], k) || (j < len && hit_range(
                    seg_start as int,
                    ps@,
                    lo as int,
                    t as int,
                    k,
                    j,
                ))));
                lemma_hit_range_extend(seg_start as int, ps@, lo as int, t as int, k, j);
                if j < len {
                    assert(hits(seg_start as int, sp.p as int, k, j) <==> (starts@[k] != usize::MAX
                        && on_progression(starts@[k] as int, sp.p as int, j)));
                    if starts@[k] != usize::MAX && on_progression(starts@[k] as int, sp.p as int, j)
                        && j != starts@[k] {
                        lemma_small_mod(0, sp.p as nat);
                        lemma_progression_gap(starts@[k] as int, sp.p as int, starts@[k] as int, j);
                    }
                }
            }
        }
        t += 1;
    }
}


/// Bytes per L1 sub-segment for tiny primes.
pub const L1_SEG_BYTES: usize = 24 * 1024;

/// The carried position `nx` of a tiny prime's residue `k`, for positions from
/// `lo` on: `u32::MAX` when the residue has no hit in the segment, otherwise
/// the first hit at or after `lo`, with the later hits on its progression.
pub open spec fn next_ok(nx: u32, s: int, p: int, k: int, len: int, lo: int) -> bool {
    if nx == u32::MAX {
        forall|j: int| 0 <= j < len ==> !#[trigger] hits(s, p, k, j)
    } else {
        &&& lo <= nx < len + p
        &&& forall|j: int| lo <= j < len ==> (#[trigger] hits(s, p, k, j) <==> on_progression(nx as int, p, j))
    }
}

proof fn lemma_slot(t: int, k: int, n: int)
    requires
        0 <= t < n,
        0 <= k < 8,
    ensures
        0 <= t * 8 + k < n * 8,
        t * 8 <= t * 8 + k < t * 8 + 8,
{
    assert(0 <= t * 8 + k < n * 8) by (nonlinear_arith)
        requires
            0 <= t < n,
            0 <= k < 8,
    ;
}

proof fn lemma_slot_sep(a: int, b: int)
    requires
        a < b,
    ensures
        a * 8 + 8 <= b * 8,
{
}

/// Marks the hits of the tiny primes `ps[0..tiny_count]`, L1 sub-segment by
/// L1 sub-segment, carrying each residue's next position in `starts_buf`.
pub fn sieve_tiny_primes(
    sieve: &mut Vec<u8>,
    len: usize,
    seg_start: u64,
    ps: &Vec<SievePrime>,
    tiny_count: usize,
    starts_buf: &mut Vec<u32>,
    dk: &Vec<u8>,
)
    requires
        len <= old(sieve).len(),
        seg_start % 30 == 0,
        dk_table_ok(dk@),
        primes_fit(seg_start as int, ps@, 0, tiny_count as int, len as int),
        old(starts_buf).len() >= tiny_count * 8,
        len < 0x1000_0000,
    ensures
        final(sieve).len() == old(sieve).len(),
        final(starts_buf).len() == old(starts_buf).len(),
        forall|j: int, k: int|
            0 <= j < final(sieve).len() && 0 <= k < 8 ==> (#[trigger] bit_set(final(sieve)@[j], k)
                <==> (bit_set(old(sieve)@[j], k) || (j < len && hit_range(
                seg_start as int,
                ps@,
                0,
                tiny_count as int,
                k,
                j,
            )))),
{
    let ghost s = seg_start as int;
    let ghost tc = tiny_count as int;
    // starting positions for the whole segment
    let mut t: usize = 0;
    while t < tiny_count
        invariant
            t <= tiny_count,
            len <= sieve.len(),
            sieve@ == old(sieve)@,
            starts_buf.len() == old(starts_buf).len(),
            starts_buf.len() >= tiny_count * 8,
            seg_start % 30 == 0,
            dk_table_ok(dk@),
            primes_fit(s, ps@, 0, tc, len as int),
                tc == tiny_count,
                s == seg_start,
                len < 0x1000_0000,
            forall|t2: int, k: int|
                0 <= t2 < t && 0 <= k < 8 ==> next_ok(
                    #[trigger] starts_buf@[t2 * 8 + k],
                    s,
                    ps@[t2].p as int,
                    k,
                    len as int,
                    0,
                ),
        decreases tiny_count - t,
    {
        let sp = &ps[t];
        let st = compute_starts(sp, seg_start, len, dk);
        let mut j: usize = 0;
        while j < 8
            invariant
                t < tiny_count,
                j <= 8,
                starts_buf.len() == old(starts_buf).len(),
                starts_buf.len() >= tiny_count * 8,
                primes_fit(s, ps@, 0, tc, len as int),
                tc == tiny_count,
                s == seg_start,
                len < 0x1000_0000,
                sp == ps@[t as int],
                starts_ok(s, sp.p as int, len as int, st@),
                forall|t2: int, k: int|
                    0 <= t2 < t && 0 <= k < 8 ==> next_ok(
                        #[trigger] starts_buf@[t2 * 8 + k],
                        s,
                        ps@[t2].p as int,
                        k,
                        len as int,
                        0,
                    ),
                forall|k: int|
                    0 <= k < j ==> next_ok(
                        #[trigger] starts_buf@[t * 8 + k],
                        s,
                        sp.p as int,
                        k,
                        len as int,
                        0,
                    ),
            decreases 8 - j,
        {
            proof {
                lemma_slot(t as int, j as int, tiny_count as int);
            }
            let v = if st[j] == usize::MAX {
                u32::MAX
            } else {
                st[j] as u32
            };
            let ghost prev = starts_buf@;
            starts_buf.set(t * 8 + j, v);
            proof {
                assert forall|t2: int, k: int|
                    0 <= t2 < t && 0 <= k < 8 implies next_ok(
                        #[trigger] starts_buf@[t2 * 8 + k],
                        s,
                        ps@[t2].p as int,
                        k,
                        len as int,
                        0,
                    ) by {
                    lemma_slot(t2, k, tiny_count as int);
                    lemma_slot(t as int, j as int, tiny_count as int);
                    lemma_slot_sep(t2, t as int);
                    assert(prev[t2 * 8 + k] == starts_buf@[t2 * 8 + k]);
                }
                assert forall|k: int|
                    0 <= k < j + 1 implies next_ok(
                        #[trigger] starts_buf@[t * 8 + k],
                        s,
                        sp.p as int,
                        k,
                        len as int,
                        0,
                    ) by {
                    lemma_slot(t as int, k, tiny_count as int);
                    if k == j {
                        assert forall|jj: int| 0 <= jj < len implies (#[trigger] hits(
                            s,
                            sp.p as int,
                            k,
                            jj,
                        ) <==> (st@[k] != usize::MAX && on_progression(st@[k] as int, sp.p as int, jj))) by {
                        }
                    } else {
                        assert(prev[t * 8 + k] == starts_buf@[t * 8 + k]);
                    }
                }
            }
            j += 1;
        }
        t += 1;
    }
    // L1 sub-segments
    let mut sub_offset: usize = 0;
    while sub_offset < len
        invariant
            len <= sieve.len(),
            sieve.len() == old(sieve).len(),
            starts_buf.len() == old(starts_buf).len(),
            starts_buf.len() >= tiny_count * 8,
            primes_fit(s, ps@, 0, tc, len as int),
                tc == tiny_count,
                s == seg_start,
                len < 0x1000_0000,
            sub_offset <= len + L1_SEG_BYTES,
            forall|j: int, k: int|
                0 <= j < sieve.len() && 0 <= k < 8 ==> (#[trigger] bit_set(sieve@[j], k) <==> (
                bit_set(old(sieve)@[j], k) || (j < len && j < sub_offset && hit_range(
                    s,
                    ps@,
                    0,
                    tc,
                    k,
                    j,
                )))),
            forall|t2: int, k: int|
                0 <= t2 < tiny_count && 0 <= k < 8 ==> next_ok(
                    #[trigger] starts_buf@[t2 * 8 + k],
                    s,
                    ps@[t2].p as int,
                    k,
                    len as int,
                    if sub_offset < len {
                        sub_offset as int
                    } else {
                        len as int
                    },
                ),
        decreases len + L1_SEG_BYTES - sub_offset,
    {
        let sub_len = if L1_SEG_BYTES < len - sub_offset {
            L1_SEG_BYTES
        } else {
            len - sub_offset
        };
        let end = sub_offset + sub_len;
        let mut t: usize = 0;
        while t < tiny_count
            invariant
                t <= tiny_count,
                sub_offset < len,
                end == sub_offset + sub_len,
                end <= len,
                sub_len > 0,
                len <= sieve.len(),
                sieve.len() == old(sieve).len(),
                starts_buf.len() == old(starts_buf).len(),
                starts_buf.len() >= tiny_count * 8,
                primes_fit(s, ps@, 0, tc, len as int),
                tc == tiny_count,
                s == seg_start,
                len < 0x1000_0000,
                forall|j: int, k: int|
                    0 <= j < sieve.len() && 0 <= k < 8 ==> (#[trigger] bit_set(sieve@[j], k) <==> (
                    bit_set(old(sieve)@[j], k) || (j < len && j < sub_offset && hit_range(
                        s,
                        ps@,
                        0,
                        tc,
                        k,
                        j,
                    )) || (sub_offset <= j < end && hit_range(s, ps@, 0, t as int, k, j)))),
                forall|t2: int, k: int|
                    0 <= t2 < t && 0 <= k < 8 ==> next_ok(
                        #[trigger] starts_buf@[t2 * 8 + k],
                        s,
                        ps@[t2].p as int,
                        k,
                        len as int,
                        end as int,
                    ),
                forall|t2: int, k: int|
                    t <= t2 < tiny_count && 0 <= k < 8 ==> next_ok(
                        #[trigger] starts_buf@[t2 * 8 + k],
                        s,
                        ps@[t2].p as int,
                        k,
                        len as int,
                        sub_offset as int,
                    ),
            decreases tiny_count - t,
        {
            let p = ps[t].p as usize;
            let ghost prev = sieve@;
            let ghost prev_starts = starts_buf@;
            proof {
                lemma_slot(t as int, 0, tiny_count as int);
                lemma_slot(t as int, 7, tiny_count as int);
            }
            sieve_small(sieve, starts_buf, t * 8, p, sub_offset, sub_len);
            proof {
                let pp = p as int;
                assert forall|k: int| 0 <= k < 8 implies {
                    &&& #[trigger] next_ok(starts_buf@[t * 8 + k], s, pp, k, len as int, end as int)
                    &&& forall|j: int|
                        0 <= j < sieve.len() ==> ((sub_offset <= prev_starts[t * 8 + k] < end && j
                            < end && on_progression(prev_starts[t * 8 + k] as int, pp, j)) <==> (
                        sub_offset <= j < end && #[trigger] hits(s, pp, k, j)))
                } by {
                    lemma_slot(t as int, k, tiny_count as int);
                    let nx = prev_starts[t * 8 + k];
                    assert(next_ok(nx, s, pp, k, len as int, sub_offset as int));
                    let nx2 = starts_buf@[t * 8 + k];
                    if nx != u32::MAX {
                        if sub_offset <= nx < end {
                            assert forall|j: int| end <= j < len implies (#[trigger] hits(s, pp, k, j)
                                <==> on_progression(nx2 as int, pp, j)) by {
                                if on_progression(nx as int, pp, j) {
                                    if j < nx2 {
                                        lemma_progression_gap(nx as int, pp, j, nx2 as int);
                                    }
                                    lemma_progression_sub(nx as int, pp, nx2 as int, j);
                                }
                                if on_progression(nx2 as int, pp, j) {
                                    lemma_progression_trans(nx as int, pp, nx2 as int, j);
                                }
                            }
                        }
                    }
                }
                assert forall|j: int, k: int|
                    0 <= j < sieve.len() && 0 <= k < 8 implies (#[trigger] bit_set(sieve@[j], k)
                        <==> (bit_set(old(sieve)@[j], k) || (j < len && j < sub_offset && hit_range(
                        s,
                        ps@,
                        0,
                        tc,
                        k,
                        j,
                    )) || (sub_offset <= j < end && hit_range(s, ps@, 0, t + 1, k, j)))) by {
                    assert(bit_set(prev[j], k) <==> (bit_set(old(sieve)@[j], k) || (j < len && j
                        < sub_offset && hit_range(s, ps@, 0, tc, k, j)) || (sub_offset <= j < end
                        && hit_range(s, ps@, 0, t as int, k, j))));
                    lemma_hit_range_extend(s, ps@, 0, t as int, k, j);
                    lemma_slot(t as int, k, tiny_count as int);
                }
                assert forall|t2: int, k: int|
                    0 <= t2 < t + 1 && 0 <= k < 8 implies next_ok(
                        #[trigger] starts_buf@[t2 * 8 + k],
                        s,
                        ps@[t2].p as int,
                        k,
                        len as int,
                        end as int,
                    ) by {
                    lemma_slot(t2, k, tiny_count as int);
                    lemma_slot(t as int, 0, tiny_count as int);
                    if t2 < t {
                        lemma_slot_sep(t2, t as int);
                        assert(starts_buf@[t2 * 8 + k] == prev_starts[t2 * 8 + k]);
                    }
                }
                assert forall|t2: int, k: int|
                    t + 1 <= t2 < tiny_count && 0 <= k < 8 implies next_ok(
                        #[trigger] starts_buf@[t2 * 8 + k],
                        s,
                        ps@[t2].p as int,
                        k,
                        len as int,
                        sub_offset as int,
                    ) by {
                    lemma_slot(t2, k, tiny_count as int);
                    lemma_slot(t as int, 0, tiny_count as int);
                    lemma_slot_sep(t as int, t2);
                    assert(starts_buf@[t2 * 8 + k] == prev_starts[t2 * 8 + k]);
                }
            }
            t += 1;
        }
        proof {
            assert forall|j: int, k: int|
                0 <= j < sieve.len() && 0 <= k < 8 implies (#[trigger] bit_set(sieve@[j], k) <==> (
                bit_set(old(sieve)@[j], k) || (j < len && j < sub_offset + L1_SEG_BYTES && hit_range(
                    s,
                    ps@,
                    0,
                    tc,
                    k,
                    j,
                )))) by {
            }
        }
        sub_offset += L1_SEG_BYTES;
    }
}

} // verus!
