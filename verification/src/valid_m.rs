//! The squarefree `m` of the first kind of D leaves, listed once with their
//! least prime factor, Möbius value and reciprocal, and a bucket index over
//! the list.

use vstd::prelude::*;
use crate::odd_sieve::CompactPi;
use crate::roots::isqrt;
use crate::sigma::{pi_capped, floor_sqrt};
use crate::lmo::is_sqrt;

verus! {

/// One listed `m`: its value, least prime factor, Möbius value and
/// `2^64 / m` (kept to 64 bits).
#[derive(Clone, Copy)]
pub struct ValidM {
    pub m: u32,
    pub lpf: u16,
    pub mu_val: i8,
    pub _pad: u8,
    pub recip_m: u64,
}

/// `m` is listed: a squarefree, `y`-smooth number of the tables whose least
/// prime factor is past the threshold.
pub open spec fn m_is_valid(m: int, mu: Seq<i8>, lpf: Seq<u16>, y_smooth: Seq<bool>, threshold: int) -> bool {
    &&& 0 <= m < mu.len()
    &&& mu[m] != 0
    &&& lpf[m] > threshold
    &&& y_smooth[m]
}

/// The threshold on the least prime factor: `primes[k + 1]` taken to 16 bits,
/// or `u16::MAX` past the list.
pub open spec fn lpf_threshold(primes: Seq<u32>, k: int) -> int {
    if k + 1 < primes.len() {
        (primes[k + 1] as u16) as int
    } else {
        0xffff
    }
}

/// The entry of `m`.
pub open spec fn entry_ok(e: ValidM, mu: Seq<i8>, lpf: Seq<u16>) -> bool {
    &&& e.m as int >= 1
    &&& e.lpf == lpf[e.m as int]
    &&& e.mu_val == mu[e.m as int]
    &&& e._pad == 0
    &&& e.recip_m == ((0x1_0000_0000_0000_0000int / (e.m as int)) as u64)
}

/// Every valid `m` in `1..=z` has an entry.
pub open spec fn lists_every_valid(
    list: Seq<ValidM>,
    z: int,
    mu: Seq<i8>,
    lpf: Seq<u16>,
    y_smooth: Seq<bool>,
    threshold: int,
) -> bool {
    forall|m: int|
        1 <= m <= z && m_is_valid(m, mu, lpf, y_smooth, threshold) ==> exists|i: int|
            0 <= i < list.len() && #[trigger] list[i].m == m
}

/// The list holds, in increasing order, exactly the valid `m` in `1..=z`
/// (none when `pi(sqrt(z)) <= k`); the index has `max_m / stride + 2`
/// buckets, bucket `b` the position of the first `m >= b * stride`.
pub fn build_valid_m(
    z: usize,
    k: usize,
    primes: &Vec<u32>,
    pi: &CompactPi,
    mu: &Vec<i8>,
    lpf: &Vec<u16>,
    y_smooth: &Vec<bool>,
    vm_stride: usize,
) -> (r: (Vec<ValidM>, Vec<u32>))
    requires
        pi.wf(),
        z <= 0xffff_ffff,
        z + 2 <= usize::MAX,
        lpf.len() >= mu.len(),
        y_smooth.len() >= mu.len(),
        vm_stride >= 1,
    ensures
        pi_capped(floor_sqrt(z as int), pi.limit as int) <= k ==> r.0.len() == 0,
        forall|i: int, j: int| 0 <= i < j < r.0.len() ==> r.0@[i].m < r.0@[j].m,
        forall|i: int|
            0 <= i < r.0.len() ==> #[trigger] r.0@[i].m <= z && entry_ok(r.0@[i], mu@, lpf@) && m_is_valid(
                r.0@[i].m as int,
                mu@,
                lpf@,
                y_smooth@,
                lpf_threshold(primes@, k as int),
            ),
        pi_capped(floor_sqrt(z as int), pi.limit as int) > k ==> lists_every_valid(
            r.0@,
            z as int,
            mu@,
            lpf@,
            y_smooth@,
            lpf_threshold(primes@, k as int),
        ),
        r.0.len() == 0 ==> r.1.len() == 0,
        r.0.len() > 0 ==> r.1.len() == (r.0@[r.0.len() - 1].m as int) / (vm_stride as int) + 2,
        forall|b: int|
            0 <= b < r.1.len() ==> #[trigger] r.1@[b] <= r.0.len() && (forall|i: int|
                0 <= i < r.1@[b] ==> r.0@[i].m < b * vm_stride) && (forall|i: int|
                r.1@[b] <= i < r.0.len() ==> r.0@[i].m >= b * vm_stride),
{
    let pi_limit = pi.len() - 1;
    let sqrt_z = isqrt(z as u64);
    proof {
        assert(is_sqrt(z as int, sqrt_z as int));
        let f = floor_sqrt(z as int);
        assert(is_sqrt(z as int, f));
        crate::roots::lemma_sqrt_unique(z as int, f, sqrt_z as int);
    }
    let si: usize = if sqrt_z < pi_limit as u64 {
        sqrt_z as usize
    } else {
        pi_limit
    };
    let pi_sqrtz = pi.get(si) as usize;
    assert(pi_sqrtz == pi_capped(floor_sqrt(z as int), pi.limit as int));
    let c = k;
    let min_lpf_threshold: u16 = if c < primes.len() && c + 1 < primes.len() {
        primes[c + 1] as u16
    } else {
        0xffff
    };
    let ghost thr = lpf_threshold(primes@, k as int);
    let mut list: Vec<ValidM> = Vec::new();
    if pi_sqrtz > c {
        let mut i: usize = 0;
        while i < z
            invariant
                z <= 0xffff_ffff,
                i <= z,
                list.len() <= i,
                lpf.len() >= mu.len(),
                y_smooth.len() >= mu.len(),
                min_lpf_threshold as int == thr,
                forall|a: int, b: int| 0 <= a < b < list.len() ==> list@[a].m < list@[b].m,
                forall|a: int|
                    0 <= a < list.len() ==> #[trigger] list@[a].m <= i && entry_ok(list@[a], mu@, lpf@)
                        && m_is_valid(list@[a].m as int, mu@, lpf@, y_smooth@, thr),
                forall|m: int|
                    1 <= m <= i && m_is_valid(m, mu@, lpf@, y_smooth@, thr) ==> exists|a: int|
                        0 <= a < list.len() && #[trigger] list@[a].m == m,
            decreases z - i,
        {
            let m = i + 1;
            if m < mu.len() && mu[m] != 0 && lpf[m] > min_lpf_threshold && y_smooth[m] {
                let e = ValidM {
                    m: m as u32,
                    lpf: lpf[m],
                    mu_val: mu[m],
                    _pad: 0,
                    recip_m: (0x1_0000_0000_0000_0000u128 / m as u128) as u64,
                };
                let ghost before = list@;
                list.push(e);
                proof {
                    assert forall|t: int|
                        1 <= t <= m && m_is_valid(t, mu@, lpf@, y_smooth@, thr) implies exists|a: int|
                        0 <= a < list.len() && #[trigger] list@[a].m == t by {
                        if t < m {
                            let a = choose|a: int| 0 <= a < before.len() && #[trigger] before[a].m == t;
                            assert(list@[a].m == t);
                        } else {
                            assert(list@[before.len() as int].m == t);
                        }
                    }
                }
            } else {
                proof {
                    assert forall|t: int|
                        1 <= t <= m && m_is_valid(t, mu@, lpf@, y_smooth@, thr) implies exists|a: int|
                        0 <= a < list.len() && #[trigger] list@[a].m == t by {
                        assert(t != m);
                    }
                }
            }
            i = m;
        }
        assert(i == z);
    }
    assert(list.len() <= z);
    assert(pi_sqrtz > k ==> lists_every_valid(list@, z as int, mu@, lpf@, y_smooth@, thr));
    let mut index: Vec<u32> = Vec::new();
    if list.len() > 0 {
        let max_m = list[list.len() - 1].m as usize;
        let index_len = max_m / vm_stride + 2;
        let mut vi: usize = 0;
        let mut bucket: usize = 0;
        while bucket < index_len
            invariant
                list.len() > 0,
                list.len() <= 0xffff_ffff,
                bucket <= index_len,
                vi <= list.len(),
                index.len() == bucket,
                forall|a: int, b: int| 0 <= a < b < list.len() ==> list@[a].m < list@[b].m,
                index_len == (list@[list.len() - 1].m as int) / (vm_stride as int) + 2,
                vm_stride >= 1,
                forall|i: int| 0 <= i < vi ==> list@[i].m < bucket * vm_stride,
                forall|b: int|
                    0 <= b < index.len() ==> #[trigger] index@[b] <= list.len() && (forall|i: int|
                        0 <= i < index@[b] ==> list@[i].m < b * vm_stride) && (forall|i: int|
                        index@[b] <= i < list.len() ==> list@[i].m >= b * vm_stride),
            decreases index_len - bucket,
        {
            assert(bucket * vm_stride < 0x1_0000_0000_0000_0000 * 0x1_0000_0000_0000_0000) by (nonlinear_arith)
                requires
                    bucket < 0x1_0000_0000_0000_0000,
                    vm_stride < 0x1_0000_0000_0000_0000,
            ;
            let bucket_start: u128 = bucket as u128 * vm_stride as u128;
            while vi < list.len() && (list[vi].m as u128) < bucket_start
                invariant
                    vi <= list.len(),
                    bucket_start == bucket * vm_stride,
                    forall|i: int| 0 <= i < vi ==> list@[i].m < bucket_start,
                decreases list.len() - vi,
            {
                vi += 1;
            }
            proof {
                assert forall|i: int| vi <= i < list.len() implies list@[i].m >= bucket * vm_stride by {
                    if i > vi {
                        assert(list@[vi as int].m < list@[i].m);
                    }
                }
                assert(bucket * vm_stride <= (bucket + 1) * vm_stride) by (nonlinear_arith)
                    requires
                        vm_stride >= 1,
                ;
            }
            index.push(vi as u32);
            bucket += 1;
        }
    }
    (list, index)
}

} // verus!
