//! Counting the primes up to a limit with the segmented wheel-30 sieve.

use vstd::prelude::*;
use vstd::arithmetic::div_mod::*;
use crate::number_theory::{
    is_prime, prime_count, lemma_divisor_not_prime, lemma_no_small_factor_prime,
    lemma_prime_count_monotone, lemma_prime_count_le, lemma_prime_count_small,
};
use crate::wheel::{
    bit_set, wheel_offset, dk_table_ok, lemma_wheel_offset_facts, two_pow_64, is_wheel_residue,
    wheel_index, barrett_recip, precompute_dk_table, lemma_non_wheel_residue_divisible,
};
use crate::small_sieve::{sieve_bound, sieve_past, sieve_is_prime, sieve_prime_pi, sieve_primes_from, sieve_upper_bound};
use crate::roots::isqrt;
use crate::segment::precompute_sieve_primes;
use crate::presieve::get_presieve;
use primal::Sieve;
use crate::presieve::{
    PRESIEVE_PERIOD, presieve_ok, presieve_hit, apply_presieve, lemma_presieve_periodic,
    lemma_presieve_hit_unfold,
};
use crate::segment::{
    SievePrime, sieve_prime_ok, hits, hit_range, primes_fit, sieve_tiny_primes,
    sieve_medium_primes, sieve_large_primes, lemma_hit_range_split,
};
use crate::wheel_count::{count_primes_in_sieve, lemma_unmarked_count_primes};

verus! {

/// The largest segment, in bytes.
pub const MAX_SEG_BYTES: usize = 1024 * 1024;

/// The smallest segment, in bytes.
pub const MIN_SEG_BYTES: usize = 8 * 1024;

/// The largest limit the sieve accepts: its positions, starts and products
/// must fit their machine words.
pub const MAX_LIMIT: u64 = 0x1000_0000_0000_0000;

/// Everything the segments share: the limit, the segment layout, the sieving
/// primes split into tiers, the pre-sieve pattern and the delta table.
pub struct SieveSetup {
    pub limit: u64,
    pub sqrt_n: u64,
    pub sieve_start: u64,
    pub total_bytes: u64,
    pub seg_bytes: usize,
    pub num_segs: u64,
    pub primes: Vec<SievePrime>,
    pub tiny_split: usize,
    pub large_split: usize,
    pub presieve: Vec<u8>,
    pub presieve_base_offset: usize,
    pub dk: Vec<u8>,
}

/// The invariant of a sieve setup.
pub open spec fn setup_ok(st: SieveSetup) -> bool {
    &&& 5 <= st.limit < MAX_LIMIT
    &&& 3 <= st.sqrt_n
    &&& (st.sqrt_n - 1) * (st.sqrt_n - 1) <= st.limit < st.sqrt_n * st.sqrt_n
    &&& st.sieve_start % 30 == 0
    &&& st.sqrt_n < st.sieve_start <= st.limit
    &&& st.sieve_start <= st.sqrt_n + 30
    &&& st.total_bytes * 30 >= st.limit - st.sieve_start + 1
    &&& (st.total_bytes - 1) * 30 < st.limit - st.sieve_start + 1
    &&& 0 < st.seg_bytes <= MAX_SEG_BYTES
    &&& st.num_segs * st.seg_bytes >= st.total_bytes
    &&& (st.num_segs - 1) * st.seg_bytes < st.total_bytes
    &&& presieve_ok(st.presieve@)
    &&& st.presieve_base_offset == (st.sieve_start as int / 30) % (PRESIEVE_PERIOD as int)
    &&& dk_table_ok(st.dk@)
    &&& st.tiny_split <= st.large_split <= st.primes.len()
    &&& st.tiny_split <= 8192
    &&& forall|t: int|
        0 <= t < st.primes.len() ==> {
            &&& sieve_prime_ok(#[trigger] st.primes@[t])
            &&& is_prime(st.primes@[t].p as nat)
            &&& 23 <= st.primes@[t].p <= st.sqrt_n
        }
    &&& forall|t1: int, t2: int|
        0 <= t1 < t2 < st.primes.len() ==> (#[trigger] st.primes@[t1]).p < (#[trigger] st.primes@[t2]).p
    &&& forall|t: int| st.large_split <= t < st.primes.len() ==> (#[trigger] st.primes@[t]).p >= st.seg_bytes
    &&& forall|q: nat|
        23 <= q <= st.sqrt_n && is_prime(q) ==> exists|t: int|
            0 <= t < st.primes.len() && (#[trigger] st.primes@[t]).p == q
}

/// The first number of segment `idx`.
pub open spec fn seg_lo(st: SieveSetup, idx: int) -> int {
    st.sieve_start + 30 * (idx * st.seg_bytes)
}

/// The number of bytes of segment `idx`.
pub open spec fn seg_len(st: SieveSetup, idx: int) -> int {
    if st.total_bytes - idx * st.seg_bytes < st.seg_bytes {
        st.total_bytes - idx * st.seg_bytes
    } else {
        st.seg_bytes as int
    }
}

/// The last number of segment `idx` that counts (at most the limit).
pub open spec fn seg_hi(st: SieveSetup, idx: int) -> int {
    if seg_lo(st, idx) + 30 * seg_len(st, idx) - 1 <= st.limit {
        seg_lo(st, idx) + 30 * seg_len(st, idx) - 1
    } else {
        st.limit as int
    }
}

/// The first `len` bytes of a segment from `s` are marked exactly at the
/// composite numbers up to `limit`: bit `k` of byte `j` stands for
/// `s + 30 j + wheel_offset(k)`.
pub open spec fn segment_marked(sv: Seq<u8>, s: int, len: int, limit: int) -> bool {
    &&& len <= sv.len()
    &&& forall|j: int, k: int|
        0 <= j < len && 0 <= k < 8 && s + 30 * j + wheel_offset(k) <= limit ==> (#[trigger] bit_set(sv[j], k)
            <==> !is_prime((s + 30 * j + wheel_offset(k)) as nat))
}

/// The first number and the number of bytes of segment `idx`.
pub fn segment_bounds(st: &SieveSetup, seg_idx: u64) -> (r: (u64, usize))
    requires
        setup_ok(*st),
        seg_idx < st.num_segs,
    ensures
        r.0 == seg_lo(*st, seg_idx as int),
        r.1 == seg_len(*st, seg_idx as int),
        r.0 % 30 == 0,
        r.0 >= 30,
        r.0 + 30 * (r.1 - 1) <= st.limit,
        1 <= r.1 <= st.seg_bytes,
{
    proof {
        assert(seg_idx * st.seg_bytes < st.total_bytes) by (nonlinear_arith)
            requires
                seg_idx < st.num_segs,
                (st.num_segs - 1) * st.seg_bytes < st.total_bytes,
                st.seg_bytes > 0,
        ;
        assert(st.total_bytes <= st.limit / 30 + 1) by (nonlinear_arith)
            requires
                (st.total_bytes - 1) * 30 < st.limit - st.sieve_start + 1,
                st.sieve_start > 0,
        ;
    }
    let byte_offset = seg_idx * (st.seg_bytes as u64);
    let seg_start_num = st.sieve_start + byte_offset * 30;
    let remaining_bytes = st.total_bytes - byte_offset;
    let seg_byte_count = if remaining_bytes < st.seg_bytes as u64 {
        remaining_bytes as usize
    } else {
        st.seg_bytes
    };
    proof {
        assert(seg_start_num % 30 == 0) by {
            lemma_mod_multiples_vanish(byte_offset as int, st.sieve_start as int, 30);
        }
        assert(seg_start_num + 30 * (seg_byte_count - 1) <= st.limit) by (nonlinear_arith)
            requires
                seg_start_num == st.sieve_start + 30 * byte_offset,
                seg_byte_count <= st.total_bytes - byte_offset,
                (st.total_bytes - 1) * 30 < st.limit - st.sieve_start + 1,
        ;
    }
    (seg_start_num, seg_byte_count)
}

/// The primes below 23 are 2, 3, 5, 7, 11, 13, 17 and 19.
proof fn lemma_small_primes(q: nat)
    requires
        is_prime(q),
        q < 23,
    ensures
        q == 2 || q == 3 || q == 5 || q == 7 || q == 11 || q == 13 || q == 17 || q == 19,
{
    if q == 4 || q == 6 || q == 8 || q == 10 || q == 12 || q == 14 || q == 16 || q == 18 || q == 20
        || q == 22 {
        assert(q % 2 == 0);
    }
    if q == 9 || q == 15 || q == 21 {
        assert(q % 3 == 0);
    }
}

/// A wheel position is divisible by none of 2, 3 and 5.
proof fn lemma_wheel_position_coprime(s: int, j: int, k: int)
    requires
        s % 30 == 0,
        s >= 0,
        j >= 0,
        0 <= k < 8,
    ensures
        (s + 30 * j + wheel_offset(k)) % 30 == wheel_offset(k),
        (s + 30 * j + wheel_offset(k)) % 2 != 0,
        (s + 30 * j + wheel_offset(k)) % 3 != 0,
        (s + 30 * j + wheel_offset(k)) % 5 != 0,
{
    let n = s + 30 * j + wheel_offset(k);
    let a = s / 30 + j;
    lemma_fundamental_div_mod(s, 30);
    assert(n == 30 * a + wheel_offset(k));
    lemma_wheel_offset_facts(k);
    lemma_mod_multiples_vanish(a, wheel_offset(k), 30);
    lemma_small_mod(wheel_offset(k) as nat, 30);
    lemma_mod_multiples_vanish(15 * a, wheel_offset(k), 2);
    lemma_mod_multiples_vanish(10 * a, wheel_offset(k), 3);
    lemma_mod_multiples_vanish(6 * a, wheel_offset(k), 5);
}

/// In a segment above the square root of the limit, a wheel position up to
/// the limit is marked (by the pre-sieve or a sieving prime) exactly when it
/// is composite.
pub proof fn lemma_mark_iff_composite(st: SieveSetup, s: int, j: int, k: int)
    requires
        setup_ok(st),
        s % 30 == 0,
        s >= st.sieve_start,
        j >= 0,
        0 <= k < 8,
        s + 30 * j + wheel_offset(k) <= st.limit,
    ensures
        (presieve_hit(s / 30 + j, k) || hit_range(s, st.primes@, 0, st.primes.len() as int, k, j))
            <==> !is_prime((s + 30 * j + wheel_offset(k)) as nat),
{
    let n = s + 30 * j + wheel_offset(k);
    lemma_wheel_offset_facts(k);
    assert(30 * (s / 30 + j) + wheel_offset(k) == n) by {
        lemma_fundamental_div_mod(s, 30);
    }
    lemma_presieve_hit_unfold(n);
    lemma_wheel_position_coprime(s, j, k);
    if presieve_hit(s / 30 + j, k) {
        if n % 7 == 0 {
            lemma_divisor_not_prime(n as nat, 7);
        } else if n % 11 == 0 {
            lemma_divisor_not_prime(n as nat, 11);
        } else if n % 13 == 0 {
            lemma_divisor_not_prime(n as nat, 13);
        } else if n % 17 == 0 {
            lemma_divisor_not_prime(n as nat, 17);
        } else {
            lemma_divisor_not_prime(n as nat, 19);
        }
    } else if hit_range(s, st.primes@, 0, st.primes.len() as int, k, j) {
        let t = choose|t: int|
            0 <= t < st.primes.len() && #[trigger] hits(s, st.primes@[t].p as int, k, j);
        let p = st.primes@[t].p;
        assert(is_prime(p as nat) && 23 <= p <= st.sqrt_n);
        lemma_divisor_not_prime(n as nat, p as nat);
    } else {
        // no prime up to the square root of n divides n
        assert forall|q: nat| is_prime(q) && q * q <= n implies #[trigger] (n % (q as int)) != 0 by {
            assert(q < st.sqrt_n) by (nonlinear_arith)
                requires
                    q * q <= n,
                    n <= st.limit,
                    st.limit < st.sqrt_n * st.sqrt_n,
                    st.sqrt_n >= 3,
            ;
            if q < 23 {
                lemma_small_primes(q);
            } else {
                let t = choose|t: int| 0 <= t < st.primes.len() && (#[trigger] st.primes@[t]).p == q;
                assert(!hits(s, st.primes@[t].p as int, k, j));
            }
        }
        lemma_no_small_factor_prime(n as nat);
    }
}

/// Sieves segment `idx` into `sieve_buf` and counts its primes:
/// `pi(seg_hi) - pi(seg_lo - 1)`.
pub fn sieve_segment_count(
    st: &SieveSetup,
    seg_idx: u64,
    sieve_buf: &mut Vec<u8>,
    starts_buf: &mut Vec<u32>,
) -> (count: u64)
    requires
        setup_ok(*st),
        seg_idx < st.num_segs,
        old(sieve_buf).len() >= st.seg_bytes,
        old(starts_buf).len() >= st.tiny_split * 8,
    ensures
        final(sieve_buf).len() == old(sieve_buf).len(),
        final(starts_buf).len() == old(starts_buf).len(),
        count + prime_count((seg_lo(*st, seg_idx as int) - 1) as nat) == prime_count(
            seg_hi(*st, seg_idx as int) as nat,
        ),
        segment_marked(final(sieve_buf)@, seg_lo(*st, seg_idx as int), seg_len(*st, seg_idx as int), st.limit as int),
{
    proof {
        assert(seg_idx * st.seg_bytes < st.total_bytes) by (nonlinear_arith)
            requires
                seg_idx < st.num_segs,
                (st.num_segs - 1) * st.seg_bytes < st.total_bytes,
                st.seg_bytes > 0,
        ;
        assert(st.total_bytes <= st.limit / 30 + 1) by (nonlinear_arith)
            requires
                (st.total_bytes - 1) * 30 < st.limit - st.sieve_start + 1,
                st.sieve_start > 0,
        ;
    }
    let byte_offset = seg_idx * (st.seg_bytes as u64);
    let seg_start_num = st.sieve_start + byte_offset * 30;
    let remaining_bytes = st.total_bytes - byte_offset;
    let seg_byte_count = if remaining_bytes < st.seg_bytes as u64 {
        remaining_bytes as usize
    } else {
        st.seg_bytes
    };
    let ghost s = seg_start_num as int;
    let ghost len = seg_byte_count as int;
    let ghost n_primes = st.primes.len() as int;
    proof {
        assert(s == seg_lo(*st, seg_idx as int));
        assert(len == seg_len(*st, seg_idx as int));
        assert(s % 30 == 0) by {
            lemma_mod_multiples_vanish(byte_offset as int, st.sieve_start as int, 30);
        }
        assert(s + 30 * (len - 1) <= st.limit) by (nonlinear_arith)
            requires
                s == st.sieve_start + 30 * byte_offset,
                len <= st.total_bytes - byte_offset,
                (st.total_bytes - 1) * 30 < st.limit - st.sieve_start + 1,
        ;
        assert forall|t: int| 0 <= t < n_primes implies {
            &&& sieve_prime_ok(#[trigger] st.primes@[t])
            &&& s + 31 * st.primes@[t].p < two_pow_64()
            &&& len + st.primes@[t].p + 0x1_0000 < u32::MAX
        } by {
            assert(st.sqrt_n <= 0x4000_0000) by (nonlinear_arith)
                requires
                    (st.sqrt_n - 1) * (st.sqrt_n - 1) <= st.limit,
                    st.limit < 0x1000_0000_0000_0000,
            ;
        }
        assert(primes_fit(s, st.primes@, 0, st.tiny_split as int, len));
        assert(primes_fit(s, st.primes@, st.tiny_split as int, st.large_split as int, len));
        assert(primes_fit(s, st.primes@, st.large_split as int, n_primes, len));
    }
    let pattern_offset = ((st.presieve_base_offset as u64 + byte_offset) % (PRESIEVE_PERIOD as u64)) as usize;
    apply_presieve(sieve_buf, seg_byte_count, pattern_offset, &st.presieve);
    let ghost after_pre = sieve_buf@;
    sieve_tiny_primes(sieve_buf, seg_byte_count, seg_start_num, &st.primes, st.tiny_split, starts_buf, &st.dk);
    let ghost after_tiny = sieve_buf@;
    sieve_medium_primes(
        sieve_buf,
        seg_byte_count,
        seg_start_num,
        &st.primes,
        st.tiny_split,
        st.large_split,
        &st.dk,
    );
    let ghost after_medium = sieve_buf@;
    sieve_large_primes(
        sieve_buf,
        seg_byte_count,
        seg_start_num,
        &st.primes,
        st.large_split,
        st.primes.len(),
        &st.dk,
    );
    proof {
        assert forall|j: int, k: int|
            0 <= j < len && 0 <= k < 8 && s + 30 * j + wheel_offset(k) <= st.limit implies (
            #[trigger] bit_set(sieve_buf@[j], k) <==> !is_prime((s + 30 * j + wheel_offset(k)) as nat)) by {
            assert(bit_set(after_medium[j], k) <==> (bit_set(after_tiny[j], k) || hit_range(
                s,
                st.primes@,
                st.tiny_split as int,
                st.large_split as int,
                k,
                j,
            )));
            assert(bit_set(after_tiny[j], k) <==> (bit_set(after_pre[j], k) || hit_range(
                s,
                st.primes@,
                0,
                st.tiny_split as int,
                k,
                j,
            )));
            // the pre-sieve bits
            let b = (pattern_offset + j) % (PRESIEVE_PERIOD as int);
            lemma_mod_bound(pattern_offset + j, PRESIEVE_PERIOD as int);
            assert(bit_set(after_pre[j], k) <==> presieve_hit(b, k));
            assert(b == (s / 30 + j) % (PRESIEVE_PERIOD as int)) by {
                let per = PRESIEVE_PERIOD as int;
                lemma_fundamental_div_mod(st.sieve_start as int, 30);
                assert(s / 30 == st.sieve_start / 30 + byte_offset) by {
                    assert(s == 30 * byte_offset + st.sieve_start);
                    lemma_fundamental_div_mod_converse(s, 30, st.sieve_start / 30 + byte_offset, 0);
                }
                lemma_add_mod_noop(st.sieve_start as int / 30, byte_offset as int, per);
                lemma_mod_twice(st.sieve_start as int / 30, per);
                lemma_add_mod_noop((st.sieve_start / 30 + byte_offset) % per, j, per);
                lemma_add_mod_noop(st.sieve_start / 30 + byte_offset, j, per);
                lemma_mod_twice((st.sieve_start / 30 + byte_offset) as int, per);
                lemma_add_mod_noop(pattern_offset as int, j, per);
                lemma_mod_bound(st.presieve_base_offset + byte_offset, per);
                lemma_small_mod(pattern_offset as nat, per as nat);
                lemma_add_mod_noop(st.presieve_base_offset as int, byte_offset as int, per);
            }
            lemma_presieve_periodic(s / 30 + j, k);
            lemma_hit_range_split(s, st.primes@, 0, st.tiny_split as int, st.large_split as int, k, j);
            lemma_hit_range_split(s, st.primes@, 0, st.large_split as int, n_primes, k, j);
            lemma_mark_iff_composite(*st, s, j, k);
        }
        lemma_unmarked_count_primes(sieve_buf@, s, st.limit as int, len);
    }
    proof {
        assert(s + 30 * len < two_pow_64()) by (nonlinear_arith)
            requires
                s + 30 * (len - 1) <= st.limit,
                st.limit < 0x1000_0000_0000_0000,
        ;
    }
    count_primes_in_sieve(sieve_buf, seg_byte_count, seg_start_num, st.limit)
}


/// A prime from 7 on has a wheel residue.
proof fn lemma_prime_wheel_residue(p: int)
    requires
        p >= 7,
        is_prime(p as nat),
    ensures
        is_wheel_residue(p % 30),
{
    if !is_wheel_residue(p % 30) {
        lemma_non_wheel_residue_divisible(p);
        if p % 2 == 0 {
            lemma_divisor_not_prime(p as nat, 2);
        } else if p % 3 == 0 {
            lemma_divisor_not_prime(p as nat, 3);
        } else {
            lemma_divisor_not_prime(p as nat, 5);
        }
    }
}

/// The primes from 23 up to `sqrt_n`, in increasing order: the bootstrap
/// sieve's primes from 7 without the pre-sieve primes.
pub fn collect_sieving_primes(small: &Sieve, sqrt_n: u64) -> (out: Vec<u32>)
    requires
        sieve_bound(*small) > sqrt_n,
        sqrt_n < 0x8000_0000,
    ensures
        forall|i: int, j: int| 0 <= i < j < out.len() ==> out@[i] < out@[j],
        forall|i: int| 0 <= i < out.len() ==> is_prime(#[trigger] out@[i] as nat) && 23 <= out@[i] <= sqrt_n,
        forall|q: nat|
            23 <= q <= sqrt_n && is_prime(q) ==> exists|i: int| 0 <= i < out.len() && #[trigger] out@[i] == q,
{
    let mut out: Vec<u32> = Vec::new();
    if sqrt_n < 7 {
        proof {
            assert forall|q: nat| 23 <= q <= sqrt_n && is_prime(q) implies exists|i: int|
                0 <= i < out.len() && #[trigger] out@[i] == q by {
            }
        }
        return out;
    }
    let raw = sieve_primes_from(small, 7);
    let mut i: usize = 0;
    while i < raw.len()
        invariant
            i <= raw.len(),
            sqrt_n < 0x8000_0000,
            sqrt_n >= 7,
            forall|a: int, b: int| 0 <= a < b < raw.len() ==> raw@[a] < raw@[b],
            forall|a: int|
                0 <= a < raw.len() ==> is_prime(#[trigger] raw@[a] as nat) && 7 <= raw@[a],
            forall|a: int, b: int| 0 <= a < b < out.len() ==> out@[a] < out@[b],
            forall|a: int| 0 <= a < out.len() ==> is_prime(#[trigger] out@[a] as nat) && 23 <= out@[a] <= sqrt_n,
            i == 0 ==> out.len() == 0,
            i > 0 ==> forall|a: int| 0 <= a < out.len() ==> #[trigger] out@[a] <= raw@[i - 1],
            forall|k: int|
                0 <= k < i && 23 <= #[trigger] raw@[k] <= sqrt_n ==> exists|a: int|
                    0 <= a < out.len() && out@[a] == raw@[k],
        decreases raw.len() - i,
    {
        let p = raw[i];
        proof {
            if i > 0 {
                assert(raw@[i - 1] < raw@[i as int]);
            }
        }
        if p != 7 && p != 11 && p != 13 && p != 17 && p != 19 && p as u64 <= sqrt_n {
            proof {
                if p < 23 {
                    lemma_small_primes(p as nat);
                }
            }
            let ghost prev = out@;
            out.push(p as u32);
            proof {
                assert forall|a: int, b: int| 0 <= a < b < out.len() implies out@[a] < out@[b] by {
                    if b == out.len() - 1 {
                        assert(out@[a] == prev[a]);
                        assert(prev[a] <= raw@[i - 1]);
                    } else {
                        assert(out@[a] == prev[a] && out@[b] == prev[b]);
                    }
                }
                assert forall|a: int| 0 <= a < out.len() implies #[trigger] out@[a] <= raw@[i as int] by {
                    if a < out.len() - 1 {
                        assert(out@[a] == prev[a]);
                        assert(prev[a] <= raw@[i - 1]);
                    }
                }
                assert forall|k: int|
                    0 <= k < i + 1 && 23 <= #[trigger] raw@[k] <= sqrt_n implies exists|a: int|
                        0 <= a < out.len() && out@[a] == raw@[k] by {
                    if k < i {
                        let a = choose|a: int| 0 <= a < prev.len() && prev[a] == raw@[k];
                        assert(out@[a] == raw@[k]);
                    } else {
                        assert(out@[out.len() - 1] == raw@[k]);
                    }
                }
            }
        } else {
            proof {
                assert forall|a: int| 0 <= a < out.len() implies #[trigger] out@[a] <= raw@[i as int] by {
                    assert(out@[a] <= raw@[i - 1]);
                }
                assert forall|k: int|
                    0 <= k < i + 1 && 23 <= #[trigger] raw@[k] <= sqrt_n implies exists|a: int|
                        0 <= a < out.len() && out@[a] == raw@[k] by {
                    if k == i {
                        assert(false);
                    }
                }
            }
        }
        i += 1;
    }
    proof {
        assert forall|q: nat| 23 <= q <= sqrt_n && is_prime(q) implies exists|i: int|
            0 <= i < out.len() && #[trigger] out@[i] == q by {
            let qq = q as usize;
            assert(raw@.contains(qq));
            let k = choose|k: int| 0 <= k < raw.len() && raw@[k] == qq;
            assert(23 <= raw@[k] <= sqrt_n);
            let a = choose|a: int| 0 <= a < out.len() && out@[a] == raw@[k];
            assert(out@[a] == q);
        }
    }
    out
}

/// In an increasing list of primes from 23 on, the prime at index `t` is at
/// least `23 + t`.
proof fn lemma_increasing_lower_bound(ps: Seq<SievePrime>, t: int)
    requires
        0 <= t < ps.len(),
        forall|t1: int, t2: int| 0 <= t1 < t2 < ps.len() ==> (#[trigger] ps[t1]).p < (#[trigger] ps[t2]).p,
        forall|a: int| 0 <= a < ps.len() ==> 23 <= (#[trigger] ps[a]).p,
    ensures
        ps[t].p >= 23 + t,
    decreases t,
{
    if t > 0 {
        lemma_increasing_lower_bound(ps, t - 1);
        assert(ps[t - 1].p < ps[t].p);
    }
}

/// The first index whose prime is at least `threshold` in an increasing list.
pub fn partition_point_below(ps: &Vec<SievePrime>, threshold: u64) -> (r: usize)
    requires
        forall|t1: int, t2: int| 0 <= t1 < t2 < ps.len() ==> (#[trigger] ps@[t1]).p < (#[trigger] ps@[t2]).p,
    ensures
        r <= ps.len(),
        forall|t: int| 0 <= t < r ==> (#[trigger] ps@[t]).p < threshold,
        forall|t: int| r <= t < ps.len() ==> (#[trigger] ps@[t]).p >= threshold,
{
    let mut lo: usize = 0;
    let mut hi: usize = ps.len();
    while lo < hi
        invariant
            lo <= hi <= ps.len(),
            forall|t1: int, t2: int|
                0 <= t1 < t2 < ps.len() ==> (#[trigger] ps@[t1]).p < (#[trigger] ps@[t2]).p,
            forall|t: int| 0 <= t < lo ==> (#[trigger] ps@[t]).p < threshold,
            forall|t: int| hi <= t < ps.len() ==> (#[trigger] ps@[t]).p >= threshold,
        decreases hi - lo,
    {
        let mid = lo + (hi - lo) / 2;
        if (ps[mid].p as u64) < threshold {
            proof {
                assert forall|t: int| 0 <= t < mid + 1 implies (#[trigger] ps@[t]).p < threshold by {
                    if t < mid {
                        assert(ps@[t].p < ps@[mid as int].p);
                    }
                }
            }
            lo = mid + 1;
        } else {
            proof {
                assert forall|t: int| mid <= t < ps.len() implies (#[trigger] ps@[t]).p >= threshold by {
                    if t > mid {
                        assert(ps@[mid as int].p < ps@[t].p);
                    }
                }
            }
            hi = mid;
        }
    }
    lo
}

/// Builds the shared state of the segments for a limit with
/// `sqrt_n * sqrt_n > limit`, given the bootstrap sieve up to `sqrt_n` and
/// the number of worker threads the segment size is tuned for.
pub fn prepare_sieve(limit: u64, sqrt_n: u64, sieve_start: u64, small: &Sieve, num_threads: usize) -> (st:
    SieveSetup)
    requires
        5 <= limit < MAX_LIMIT,
        3 <= sqrt_n,
        (sqrt_n - 1) * (sqrt_n - 1) <= limit < sqrt_n * sqrt_n,
        sieve_bound(*small) > sqrt_n,
        sieve_start % 30 == 0,
        sqrt_n < sieve_start <= limit,
        sieve_start <= sqrt_n + 30,
    ensures
        setup_ok(st),
        st.limit == limit,
        st.sqrt_n == sqrt_n,
        st.sieve_start == sieve_start,
{
    proof {
        assert(sqrt_n <= 0x4000_0000) by (nonlinear_arith)
            requires
                (sqrt_n - 1) * (sqrt_n - 1) <= limit,
                limit < 0x1000_0000_0000_0000,
        ;
    }
    let raw = collect_sieving_primes(small, sqrt_n);
    let primes = precompute_sieve_primes(&raw);
    proof {
        assert forall|t: int| 0 <= t < primes.len() implies {
            &&& sieve_prime_ok(#[trigger] primes@[t])
            &&& is_prime(primes@[t].p as nat)
            &&& 23 <= primes@[t].p <= sqrt_n
        } by {
            lemma_prime_wheel_residue(raw@[t] as int);
        }
        assert forall|t1: int, t2: int|
            0 <= t1 < t2 < primes.len() implies (#[trigger] primes@[t1]).p < (#[trigger] primes@[t2]).p by {
            assert(raw@[t1] < raw@[t2]);
        }
        assert forall|q: nat| 23 <= q <= sqrt_n && is_prime(q) implies exists|t: int|
            0 <= t < primes.len() && (#[trigger] primes@[t]).p == q by {
            let i = choose|i: int| 0 <= i < raw.len() && #[trigger] raw@[i] == q;
            assert(primes@[i].p == q);
        }
    }
    let total_numbers = limit - sieve_start + 1;
    let total_bytes = (total_numbers + 29) / 30;
    let min_segments: u64 = if num_threads as u64 > u64::MAX / 8 {
        u64::MAX
    } else {
        num_threads as u64 * 8
    };
    let seg_bytes: usize = if total_bytes / (MAX_SEG_BYTES as u64) >= min_segments {
        MAX_SEG_BYTES
    } else {
        let ideal = total_bytes / min_segments;
        let aligned = (ideal / 8) * 8;
        if aligned < MIN_SEG_BYTES as u64 {
            MIN_SEG_BYTES
        } else if aligned > MAX_SEG_BYTES as u64 {
            MAX_SEG_BYTES
        } else {
            aligned as usize
        }
    };
    let num_segs = (total_bytes + seg_bytes as u64 - 1) / (seg_bytes as u64);
    let tiny_threshold: u64 = (crate::segment::L1_SEG_BYTES / 3) as u64;
    let large_threshold: u64 = seg_bytes as u64;
    let tiny_split = partition_point_below(&primes, tiny_threshold);
    let large_split = partition_point_below(&primes, large_threshold);
    proof {
        if large_split < tiny_split {
            assert(primes@[large_split as int].p >= large_threshold);
            assert(primes@[large_split as int].p < tiny_threshold);
        }
        if tiny_split > 0 {
            lemma_increasing_lower_bound(primes@, tiny_split - 1);
            assert(primes@[tiny_split - 1].p < tiny_threshold);
        }
        lemma_fundamental_div_mod(total_numbers + 29, 30);
        lemma_fundamental_div_mod(total_bytes + seg_bytes - 1, seg_bytes as int);
        assert(num_segs * seg_bytes >= total_bytes && (num_segs - 1) * seg_bytes < total_bytes)
            by (nonlinear_arith)
            requires
                total_bytes + seg_bytes - 1 == seg_bytes * num_segs + (total_bytes + seg_bytes - 1)
                    % (seg_bytes as int),
                0 <= (total_bytes + seg_bytes - 1) % (seg_bytes as int) < seg_bytes,
                total_bytes >= 1,
        ;
    }
    let presieve = get_presieve();
    let presieve_base_offset = ((sieve_start / 30) % (PRESIEVE_PERIOD as u64)) as usize;
    let dk = precompute_dk_table();
    let st = SieveSetup {
        limit,
        sqrt_n,
        sieve_start,
        total_bytes,
        seg_bytes,
        num_segs,
        primes,
        tiny_split,
        large_split,
        presieve,
        presieve_base_offset,
        dk,
    };
    proof {
        assert(st.total_bytes * 30 >= st.limit - st.sieve_start + 1);
        assert((st.total_bytes - 1) * 30 < st.limit - st.sieve_start + 1);
        assert(0 < st.seg_bytes <= MAX_SEG_BYTES);
        assert(st.num_segs * st.seg_bytes >= st.total_bytes);
        assert((st.num_segs - 1) * st.seg_bytes < st.total_bytes);
        assert(st.presieve_base_offset == (st.sieve_start as int / 30) % (PRESIEVE_PERIOD as int));
        assert(st.tiny_split <= st.large_split <= st.primes.len());
    }
    st
}


/// `rayon::current_num_threads()`: the size of the thread pool the work is
/// sized for. It depends on the machine; all that rayon-core's source
/// shows of it is that a pool has at least one thread
/// (`ThreadPoolBuilder::get_num_threads` is positive) and at most
/// `max_num_threads()`, the sleep counters' `THREADS_MAX`: 2^16 - 1 on a
/// 64-bit target, 2^8 - 1 on a 32-bit one.
#[verifier::external_body]
pub(crate) fn current_num_threads() -> (r: usize)
    ensures
        1 <= r <= 0xffff,
{
    rayon::current_num_threads()
}

/// Primality by trial division up to the square root.
pub fn trial_is_prime(n: u64) -> (r: bool)
    ensures
        r == is_prime(n as nat),
{
    if n < 2 {
        return false;
    }
    let mut d: u64 = 2;
    while d <= n / d
        invariant
            2 <= d <= 0x1_0000_0000,
            n >= 2,
            forall|e: nat| 2 <= e < d ==> #[trigger] (n as int % e as int) != 0,
        decreases n - d,
    {
        proof {
            lemma_fundamental_div_mod(n as int, d as int);
            assert(d * d <= n) by (nonlinear_arith)
                requires
                    d <= n / d,
                    n == d * (n / d) + n % d,
                    n % d >= 0,
                    d > 0,
            ;
            assert(d < n) by (nonlinear_arith)
                requires
                    d * d <= n,
                    d >= 2,
            ;
        }
        if n % d == 0 {
            proof {
                lemma_divisor_not_prime(n as nat, d as nat);
            }
            return false;
        }
        proof {
            assert(d < 0x1_0000_0000) by (nonlinear_arith)
                requires
                    d * d <= n,
                    n < 0x1_0000_0000_0000_0000,
            ;
        }
        d += 1;
    }
    proof {
        lemma_fundamental_div_mod(n as int, d as int);
        assert forall|q: nat| is_prime(q) && q * q <= n implies #[trigger] (n as int % q as int) != 0 by {
            assert(q < d) by (nonlinear_arith)
                requires
                    q * q <= n,
                    d > n / d,
                    n == d * (n / d) + n % d,
                    0 <= n % d < d,
                    d > 0,
            ;
        }
        lemma_no_small_factor_prime(n as nat);
    }
    true
}

/// Primality of a number between the square root and the first segment, by
/// trial division with the sieving primes and the pre-sieve primes.
pub fn gap_is_prime(n: u64, st: &SieveSetup) -> (r: bool)
    requires
        setup_ok(*st),
        st.sqrt_n < n < st.sieve_start,
        is_wheel_residue((n % 30) as int),
    ensures
        r == is_prime(n as nat),
{
    proof {
        assert(n >= 7) by {
            if n < 7 {
                assert(n % 30 == n);
            }
        }
    }
    let mut t: usize = 0;
    let mut stop = false;
    while t < st.primes.len() && !stop
        invariant
            setup_ok(*st),
            st.sqrt_n < n < st.sieve_start,
            t <= st.primes.len(),
            forall|a: int| 0 <= a < t ==> n as int % (#[trigger] st.primes@[a]).p as int != 0,
            stop ==> forall|a: int| t <= a < st.primes.len() ==> (#[trigger] st.primes@[a]).p * st.primes@[a].p > n,
        decreases st.primes.len() - t + if stop { 0int } else { 1int },
    {
        let p = st.primes[t].p as u64;
        proof {
            assert(p <= 0x4000_0000) by (nonlinear_arith)
                requires
                    (st.sqrt_n - 1) * (st.sqrt_n - 1) <= st.limit,
                    st.limit < 0x1000_0000_0000_0000,
                    p <= st.sqrt_n,
            ;
            assert(p * p <= 0x4000_0000 * 0x4000_0000) by (nonlinear_arith)
                requires
                    p <= 0x4000_0000,
            ;
        }
        if p * p > n {
            proof {
                assert forall|a: int| t <= a < st.primes.len() implies (#[trigger] st.primes@[a]).p * st.primes@[a].p > n by {
                    if a > t {
                        assert(st.primes@[t as int].p < st.primes@[a].p);
                    }
                    let pa = st.primes@[a].p as int;
                    assert(pa * pa >= p * p) by (nonlinear_arith)
                        requires
                            pa >= p,
                            p >= 0,
                    ;
                }
            }
            stop = true;
        } else {
            if n % p == 0 {
                proof {
                    lemma_divisor_not_prime(n as nat, p as nat);
                }
                return false;
            }
            t += 1;
        }
    }
    let mut k: usize = 0;
    let mut stop2 = false;
    while k < 5 && !stop2
        invariant
            k <= 5,
            n >= 7,
            forall|a: int| 0 <= a < k ==> n as int % #[trigger] crate::presieve::presieve_prime_spec(a) != 0,
            stop2 ==> k < 5 && crate::presieve::presieve_prime_spec(k as int) * crate::presieve::presieve_prime_spec(k as int) > n,
        decreases 5 - k + if stop2 { 0int } else { 1int },
    {
        let pp = crate::presieve::presieve_prime(k);
        if pp * pp > n {
            stop2 = true;
        } else {
            if n % pp == 0 {
                proof {
                    lemma_divisor_not_prime(n as nat, pp as nat);
                }
                return false;
            }
            k += 1;
        }
    }
    proof {
        let r = n % 30;
        lemma_fundamental_div_mod(n as int, 30);
        let a30 = n / 30;
        lemma_mod_multiples_vanish(15 * a30, r as int, 2);
        lemma_mod_multiples_vanish(10 * a30, r as int, 3);
        lemma_mod_multiples_vanish(6 * a30, r as int, 5);
        assert forall|q: nat| is_prime(q) && q * q <= n implies #[trigger] (n as int % q as int) != 0 by {
            if q < 23 {
                lemma_small_primes(q);
                if q >= 7 {
                    let aq: int = if q == 7 {
                        0
                    } else if q == 11 {
                        1
                    } else if q == 13 {
                        2
                    } else if q == 17 {
                        3
                    } else {
                        4
                    };
                    assert(crate::presieve::presieve_prime_spec(aq) == q);
                    if aq >= k {
                        let pk = crate::presieve::presieve_prime_spec(k as int);
                        assert(pk <= q);
                        assert(q * q >= pk * pk) by (nonlinear_arith)
                            requires
                                pk <= q,
                                pk >= 0,
                        ;
                    }
                }
            } else {
                assert(q <= st.sqrt_n) by (nonlinear_arith)
                    requires
                        q * q <= n,
                        n < st.sieve_start,
                        st.sieve_start <= st.sqrt_n + 30,
                        q >= 23,
                ;
                let ti = choose|ti: int| 0 <= ti < st.primes.len() && (#[trigger] st.primes@[ti]).p == q;
                if ti >= t {
                    assert(st.primes@[ti].p * st.primes@[ti].p > n);
                }
            }
        }
        lemma_no_small_factor_prime(n as nat);
    }
    true
}


/// The segment sums telescope: segment `i` ends where segment `i + 1` begins.
proof fn lemma_segment_chain(st: SieveSetup, i: int)
    requires
        setup_ok(st),
        0 <= i < st.num_segs,
    ensures
        seg_lo(st, i) <= st.limit,
        seg_hi(st, i) == (if seg_lo(st, i + 1) - 1 <= st.limit {
            seg_lo(st, i + 1) - 1
        } else {
            st.limit as int
        }),
{
    assert(i * st.seg_bytes < st.total_bytes) by (nonlinear_arith)
        requires
            i < st.num_segs,
            (st.num_segs - 1) * st.seg_bytes < st.total_bytes,
            st.seg_bytes > 0,
            i >= 0,
    ;
    assert((i + 1) * st.seg_bytes == i * st.seg_bytes + st.seg_bytes) by (nonlinear_arith);
    assert(seg_lo(st, i) <= st.limit) by (nonlinear_arith)
        requires
            i * st.seg_bytes <= st.total_bytes - 1,
            (st.total_bytes - 1) * 30 < st.limit - st.sieve_start + 1,
            seg_lo(st, i) == st.sieve_start + 30 * (i * st.seg_bytes),
    ;
}

/// How the primes up to a limit are counted: directly, for limits too small
/// for a segment, or as the count below the first segment plus the counts of
/// the segments of a sieve setup.
pub enum CountPlan {
    Direct(u64),
    Segmented(u64, SieveSetup),
}

/// Plans the count up to `limit`: the bootstrap primes up to the square
/// root and the primes in the gap below the first 30-aligned segment are
/// counted here; the segments are laid out for `num_threads` workers (0
/// asks for the largest segments).
pub fn plan_count(limit: u64, num_threads: usize) -> (plan: CountPlan)
    requires
        limit < MAX_LIMIT,
    ensures
        match plan {
            CountPlan::Direct(c) => c == prime_count(limit as nat),
            CountPlan::Segmented(below, st) => {
                &&& setup_ok(st)
                &&& st.limit == limit
                &&& below == prime_count((st.sieve_start - 1) as nat)
            },
        },
{
    proof {
        lemma_prime_count_small();
    }
    if limit < 2 {
        return CountPlan::Direct(0);
    }
    if limit == 2 {
        return CountPlan::Direct(1);
    }
    if limit < 5 {
        return CountPlan::Direct(
            if limit >= 3 {
                2
            } else {
                1
            },
        );
    }
    let root = isqrt(limit);
    proof {
        assert(root <= 0x1_0000_0000) by (nonlinear_arith)
            requires
                root * root <= limit,
                limit < 0x1000_0000_0000_0000,
        ;
    }
    let sqrt_n = root + 1;
    proof {
        assert(sqrt_n <= 0x4000_0000) by (nonlinear_arith)
            requires
                (sqrt_n - 1) * (sqrt_n - 1) <= limit,
                limit < 0x1000_0000_0000_0000,
        ;
        assert(sqrt_n >= 3) by (nonlinear_arith)
            requires
                limit < sqrt_n * sqrt_n,
                limit >= 5,
        ;
    }
    let small_sieve = sieve_past(sqrt_n as usize);
    if limit <= sqrt_n {
        return CountPlan::Direct(sieve_prime_pi(&small_sieve, limit as usize) as u64);
    }
    let base_prime_count = sieve_prime_pi(&small_sieve, sqrt_n as usize) as u64;
    let sieve_start: u64 = ((sqrt_n + 1 + 29) / 30) * 30;
    proof {
        lemma_fundamental_div_mod((sqrt_n + 30) as int, 30);
        lemma_mod_multiples_basic(((sqrt_n + 30) / 30) as int, 30);
    }
    if sieve_start > limit {
        // too few numbers for a segment: test the rest one by one
        let ub = sieve_upper_bound(&small_sieve);
        let mut count = base_prime_count;
        let mut n = sqrt_n + 1;
        while n <= limit
            invariant
                sqrt_n + 1 <= n <= limit + 1,
                limit < sieve_start,
                sieve_start <= sqrt_n + 30,
                sqrt_n <= 0x4000_0000,
                ub == sieve_bound(small_sieve),
                count == prime_count((n - 1) as nat),
            decreases limit + 1 - n,
        {
            let is_p = if (n as usize) <= ub {
                sieve_is_prime(&small_sieve, n as usize)
            } else {
                trial_is_prime(n)
            };
            proof {
                lemma_prime_count_le((n - 1) as nat);
                assert(prime_count(n as nat) == prime_count((n - 1) as nat) + if is_prime(n as nat) {
                    1nat
                } else {
                    0nat
                });
            }
            if is_p {
                count += 1;
            }
            n += 1;
        }
        return CountPlan::Direct(count);
    }
    let st = prepare_sieve(limit, sqrt_n, sieve_start, &small_sieve, num_threads);
    // primes between the square root and the first segment
    let mut gap_primes: u64 = 0;
    let mut n = sqrt_n + 1;
    while n < sieve_start
        invariant
            setup_ok(st),
            st.sqrt_n == sqrt_n,
            st.sieve_start == sieve_start,
            st.limit == limit,
            sqrt_n + 1 <= n <= sieve_start,
            sieve_start <= limit,
            gap_primes + prime_count(sqrt_n as nat) == prime_count((n - 1) as nat),
        decreases sieve_start - n,
    {
        let r = n % 30;
        let is_p = if r == 1 || r == 7 || r == 11 || r == 13 || r == 17 || r == 19 || r == 23 || r == 29 {
            gap_is_prime(n, &st)
        } else {
            proof {
                assert(sqrt_n >= 6) by (nonlinear_arith)
                    requires
                        limit < sqrt_n * sqrt_n,
                        limit >= sieve_start,
                        sieve_start >= 30,
                ;
                lemma_non_wheel_residue_divisible(n as int);
                if n % 2 == 0 {
                    lemma_divisor_not_prime(n as nat, 2);
                } else if n % 3 == 0 {
                    lemma_divisor_not_prime(n as nat, 3);
                } else {
                    lemma_divisor_not_prime(n as nat, 5);
                }
            }
            false
        };
        proof {
            lemma_prime_count_le((n - 1) as nat);
            lemma_prime_count_monotone(sqrt_n as nat, (n - 1) as nat);
            assert(prime_count(n as nat) == prime_count((n - 1) as nat) + if is_prime(n as nat) {
                1nat
            } else {
                0nat
            });
        }
        if is_p {
            gap_primes += 1;
        }
        n += 1;
    }
    proof {
        lemma_prime_count_le(sqrt_n as nat);
        lemma_prime_count_le((sieve_start - 1) as nat);
        lemma_prime_count_monotone(sqrt_n as nat, (sieve_start - 1) as nat);
    }
    CountPlan::Segmented(base_prime_count + gap_primes, st)
}

/// The segment counts add up: if `counts[i]` is the number of primes of
/// segment `i`, for every segment, their sum is the number of primes from the
/// first segment's start up to the limit.
pub proof fn lemma_segment_counts_sum(st: SieveSetup, counts: Seq<int>, n: int)
    requires
        setup_ok(st),
        0 <= n <= st.num_segs,
        counts.len() == st.num_segs,
        forall|i: int|
            0 <= i < st.num_segs ==> #[trigger] counts[i] + prime_count((seg_lo(st, i) - 1) as nat)
                == prime_count(seg_hi(st, i) as nat),
    ensures
        counts.take(n).fold_left(0int, |acc: int, c: int| acc + c) + prime_count((st.sieve_start - 1) as nat)
            == prime_count(
            (if seg_lo(st, n) - 1 <= st.limit {
                seg_lo(st, n) - 1
            } else {
                st.limit as int
            }) as nat,
        ),
    decreases n,
{
    if n > 0 {
        lemma_segment_counts_sum(st, counts, n - 1);
        lemma_segment_chain(st, n - 1);
        assert(counts.take(n).drop_last() =~= counts.take(n - 1));
        lemma_prime_count_le(st.limit as nat);
    } else {
        assert(seg_lo(st, 0) == st.sieve_start);
    }
}

/// The primes of all segments of a setup: `pi(limit) - pi(sieve_start - 1)`.
pub fn count_segments(st: &SieveSetup) -> (count: u64)
    requires
        setup_ok(*st),
    ensures
        count + prime_count((st.sieve_start - 1) as nat) == prime_count(st.limit as nat),
{
    let limit = st.limit;
    let sieve_start = st.sieve_start;
    // the segments
    let mut sieve_buf: Vec<u8> = Vec::new();
    while sieve_buf.len() < st.seg_bytes
        invariant
            sieve_buf.len() <= st.seg_bytes,
        decreases st.seg_bytes - sieve_buf.len(),
    {
        sieve_buf.push(0u8);
    }
    let mut starts_buf: Vec<u32> = Vec::new();
    while starts_buf.len() < st.tiny_split * 8
        invariant
            st.tiny_split <= 8192,
            starts_buf.len() <= st.tiny_split * 8,
        decreases st.tiny_split * 8 - starts_buf.len(),
    {
        starts_buf.push(0u32);
    }
    let mut upper_count: u64 = 0;
    let mut seg_idx: u64 = 0;
    proof {
        assert(seg_lo(*st, 0) == sieve_start);
        lemma_prime_count_le(limit as nat);
    }
    while seg_idx < st.num_segs
        invariant
            setup_ok(*st),
            st.limit == limit,
            st.sieve_start == sieve_start,
            seg_idx <= st.num_segs,
            sieve_buf.len() >= st.seg_bytes,
            starts_buf.len() >= st.tiny_split * 8,
            upper_count + prime_count((sieve_start - 1) as nat) == prime_count(
                (if seg_lo(*st, seg_idx as int) - 1 <= limit {
                    seg_lo(*st, seg_idx as int) - 1
                } else {
                    limit as int
                }) as nat,
            ),
        decreases st.num_segs - seg_idx,
    {
        let c = sieve_segment_count(st, seg_idx, &mut sieve_buf, &mut starts_buf);
        proof {
            lemma_segment_chain(*st, seg_idx as int);
            lemma_prime_count_le(limit as nat);
            lemma_prime_count_monotone((sieve_start - 1) as nat, seg_hi(*st, seg_idx as int) as nat);
            lemma_prime_count_monotone(seg_hi(*st, seg_idx as int) as nat, limit as nat);
        }
        upper_count = upper_count + c;
        seg_idx += 1;
    }
    proof {
        assert(seg_lo(*st, st.num_segs as int) - 1 >= limit) by (nonlinear_arith)
            requires
                st.num_segs * st.seg_bytes >= st.total_bytes,
                st.total_bytes * 30 >= limit - sieve_start + 1,
                seg_lo(*st, st.num_segs as int) == sieve_start + 30 * (st.num_segs * st.seg_bytes),
        ;
        lemma_prime_count_le(limit as nat);
        lemma_prime_count_monotone((sieve_start - 1) as nat, limit as nat);
    }
    upper_count
}

/// Counts the primes up to `limit`: the bootstrap primes up to the square
/// root, the primes in the gap below the first 30-aligned segment, and the
/// primes of every segment.
pub fn count_primes(limit: u64) -> (count: u64)
    requires
        limit < MAX_LIMIT,
    ensures
        count == prime_count(limit as nat),
{
    match plan_count(limit, current_num_threads()) {
        CountPlan::Direct(c) => c,
        CountPlan::Segmented(below, st) => {
            let upper = count_segments(&st);
            proof {
                lemma_prime_count_le(limit as nat);
            }
            below + upper
        },
    }
}


} // verus!
