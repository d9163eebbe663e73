//! The mod-30 wheel: residues coprime to 30, their inverses, the tables that
//! locate the multiples of a prime among wheel positions, and Barrett division.

use vstd::prelude::*;
use vstd::arithmetic::div_mod::*;
use vstd::arithmetic::mul::*;

verus! {

/// The eight residues modulo 30 that are coprime to 30, in increasing order.
pub open spec fn wheel_offset(i: int) -> int {
    if i == 0 {
        1
    } else if i == 1 {
        7
    } else if i == 2 {
        11
    } else if i == 3 {
        13
    } else if i == 4 {
        17
    } else if i == 5 {
        19
    } else if i == 6 {
        23
    } else {
        29
    }
}

pub open spec fn is_wheel_residue(r: int) -> bool {
    r == 1 || r == 7 || r == 11 || r == 13 || r == 17 || r == 19 || r == 23 || r == 29
}

/// The position of a wheel residue among the eight (0 for any other value).
pub open spec fn wheel_index(r: int) -> int {
    if r == 1 {
        0
    } else if r == 7 {
        1
    } else if r == 11 {
        2
    } else if r == 13 {
        3
    } else if r == 17 {
        4
    } else if r == 19 {
        5
    } else if r == 23 {
        6
    } else if r == 29 {
        7
    } else {
        0
    }
}

/// The inverse modulo 30 of a wheel residue (1 for any other value).
pub open spec fn inverse_mod_30(a: int) -> int {
    if a == 1 {
        1
    } else if a == 7 {
        13
    } else if a == 11 {
        11
    } else if a == 13 {
        7
    } else if a == 17 {
        23
    } else if a == 19 {
        19
    } else if a == 23 {
        17
    } else if a == 29 {
        29
    } else {
        1
    }
}

/// For a prime whose residue is wheel residue number `p_idx`, the residue
/// modulo 30 of the multipliers `k` for which `k * p` falls on wheel residue
/// number `i`.
pub open spec fn target_k(p_idx: int, i: int) -> int {
    (wheel_offset(i) * inverse_mod_30(wheel_offset(p_idx))) % 30
}

/// The least `dk` in [0, 30) with `(kr + dk) % 30 == target_k(p_idx, i)`.
pub open spec fn delta_k(p_idx: int, kr: int, i: int) -> int {
    let t = target_k(p_idx, i);
    if kr <= t {
        t - kr
    } else {
        30 - kr + t
    }
}

/// Bit `i` of a byte is set.
pub open spec fn bit_set(b: u8, i: int) -> bool {
    (b >> (i as u8)) & 1u8 == 1u8
}

pub proof fn lemma_wheel_offset_facts(i: int)
    requires
        0 <= i < 8,
    ensures
        is_wheel_residue(wheel_offset(i)),
        wheel_index(wheel_offset(i)) == i,
        1 <= wheel_offset(i) <= 29,
        (wheel_offset(i) * inverse_mod_30(wheel_offset(i))) % 30 == 1,
        forall|j: int| 0 <= j < i ==> wheel_offset(j) < #[trigger] wheel_offset(i),
{
}

pub proof fn lemma_wheel_residue_facts(r: int)
    requires
        is_wheel_residue(r),
    ensures
        0 <= wheel_index(r) < 8,
        wheel_offset(wheel_index(r)) == r,
        (r * inverse_mod_30(r)) % 30 == 1,
        is_wheel_residue(inverse_mod_30(r)),
{
}

/// A number is coprime to 30 exactly when its residue is a wheel residue.
pub proof fn lemma_non_wheel_residue_divisible(n: int)
    requires
        n >= 0,
        !is_wheel_residue(n % 30),
    ensures
        n % 2 == 0 || n % 3 == 0 || n % 5 == 0,
{
    let r = n % 30;
    lemma_fundamental_div_mod(n, 30);
    let q = n / 30;
    assert(n == 30 * q + r);
    assert((30 * q + r) % 2 == r % 2) by {
        lemma_mod_multiples_vanish(15 * q, r, 2);
    }
    assert((30 * q + r) % 3 == r % 3) by {
        lemma_mod_multiples_vanish(10 * q, r, 3);
    }
    assert((30 * q + r) % 5 == r % 5) by {
        lemma_mod_multiples_vanish(6 * q, r, 5);
    }
}

/// Multiplying the target multiplier class by the prime's residue lands on the
/// wanted wheel residue.
proof fn lemma_target_times_residue(p_idx: int, i: int)
    requires
        0 <= p_idx < 8,
        0 <= i < 8,
    ensures
        0 <= target_k(p_idx, i) < 30,
        (target_k(p_idx, i) * wheel_offset(p_idx)) % 30 == wheel_offset(i),
{
    if p_idx == 0 {
        if i == 0 {
            assert(target_k(0, 0) == 1);
        } else if i == 1 {
            assert(target_k(0, 1) == 7);
        } else if i == 2 {
            assert(target_k(0, 2) == 11);
        } else if i == 3 {
            assert(target_k(0, 3) == 13);
        } else if i == 4 {
            assert(target_k(0, 4) == 17);
        } else if i == 5 {
            assert(target_k(0, 5) == 19);
        } else if i == 6 {
            assert(target_k(0, 6) == 23);
        } else if i == 7 {
            assert(target_k(0, 7) == 29);
        }
    } else if p_idx == 1 {
        if i == 0 {
            assert(target_k(1, 0) == 13);
        } else if i == 1 {
            assert(target_k(1, 1) == 1);
        } else if i == 2 {
            assert(target_k(1, 2) == 23);
        } else if i == 3 {
            assert(target_k(1, 3) == 19);
        } else if i == 4 {
            assert(target_k(1, 4) == 11);
        } else if i == 5 {
            assert(target_k(1, 5) == 7);
        } else if i == 6 {
            assert(target_k(1, 6) == 29);
        } else if i == 7 {
            assert(target_k(1, 7) == 17);
        }
    } else if p_idx == 2 {
        if i == 0 {
            assert(target_k(2, 0) == 11);
        } else if i == 1 {
            assert(target_k(2, 1) == 17);
        } else if i == 2 {
            assert(target_k(2, 2) == 1);
        } else if i == 3 {
            assert(target_k(2, 3) == 23);
        } else if i == 4 {
            assert(target_k(2, 4) == 7);
        } else if i == 5 {
            assert(target_k(2, 5) == 29);
        } else if i == 6 {
            assert(target_k(2, 6) == 13);
        } else if i == 7 {
            assert(target_k(2, 7) == 19);
        }
    } else if p_idx == 3 {
        if i == 0 {
            assert(target_k(3, 0) == 7);
        } else if i == 1 {
            assert(target_k(3, 1) == 19);
        } else if i == 2 {
            assert(target_k(3, 2) == 17);
        } else if i == 3 {
            assert(target_k(3, 3) == 1);
        } else if i == 4 {
            assert(target_k(3, 4) == 29);
        } else if i == 5 {
            assert(target_k(3, 5) == 13);
        } else if i == 6 {
            assert(target_k(3, 6) == 11);
        } else if i == 7 {
            assert(target_k(3, 7) == 23);
        }
    } else if p_idx == 4 {
        if i == 0 {
            assert(target_k(4, 0) == 23);
        } else if i == 1 {
            assert(target_k(4, 1) == 11);
        } else if i == 2 {
            assert(target_k(4, 2) == 13);
        } else if i == 3 {
            assert(target_k(4, 3) == 29);
        } else if i == 4 {
            assert(target_k(4, 4) == 1);
        } else if i == 5 {
            assert(target_k(4, 5) == 17);
        } else if i == 6 {
            assert(target_k(4, 6) == 19);
        } else if i == 7 {
            assert(target_k(4, 7) == 7);
        }
    } else if p_idx == 5 {
        if i == 0 {
            assert(target_k(5, 0) == 19);
        } else if i == 1 {
            assert(target_k(5, 1) == 13);
        } else if i == 2 {
            assert(target_k(5, 2) == 29);
        } else if i == 3 {
            assert(target_k(5, 3) == 7);
        } else if i == 4 {
            assert(target_k(5, 4) == 23);
        } else if i == 5 {
            assert(target_k(5, 5) == 1);
        } else if i == 6 {
            assert(target_k(5, 6) == 17);
        } else if i == 7 {
            assert(target_k(5, 7) == 11);
        }
    } else if p_idx == 6 {
        if i == 0 {
            assert(target_k(6, 0) == 17);
        } else if i == 1 {
            assert(target_k(6, 1) == 29);
        } else if i == 2 {
            assert(target_k(6, 2) == 7);
        } else if i == 3 {
            assert(target_k(6, 3) == 11);
        } else if i == 4 {
            assert(target_k(6, 4) == 19);
        } else if i == 5 {
            assert(target_k(6, 5) == 23);
        } else if i == 6 {
            assert(target_k(6, 6) == 1);
        } else if i == 7 {
            assert(target_k(6, 7) == 13);
        }
    } else if p_idx == 7 {
        if i == 0 {
            assert(target_k(7, 0) == 29);
        } else if i == 1 {
            assert(target_k(7, 1) == 23);
        } else if i == 2 {
            assert(target_k(7, 2) == 19);
        } else if i == 3 {
            assert(target_k(7, 3) == 17);
        } else if i == 4 {
            assert(target_k(7, 4) == 13);
        } else if i == 5 {
            assert(target_k(7, 5) == 11);
        } else if i == 6 {
            assert(target_k(7, 6) == 7);
        } else if i == 7 {
            assert(target_k(7, 7) == 1);
        }
    }
}

/// If `x * r` has residue `off` modulo 30 (with `r` a wheel residue), then `x`
/// lies in the class of `off * inverse(r)`.
proof fn lemma_multiplier_class(x: int, r: int, off: int)
    requires
        is_wheel_residue(r),
        (x * r) % 30 == off,
    ensures
        x % 30 == (off * inverse_mod_30(r)) % 30,
{
    let inv = inverse_mod_30(r);
    lemma_wheel_residue_facts(r);
    // x * (r * inv) has the residue of x
    lemma_mul_mod_noop_right(x, r * inv, 30);
    assert(x * ((r * inv) % 30) == x);
    lemma_mul_is_associative(x, r, inv);
    // and the residue of (x * r) * inv
    lemma_mul_mod_noop_left(x * r, inv, 30);
}

/// The core fact behind every start position of the wheel sieve.
///
/// Let `s` be a multiple of 30, `p` a number coprime to 30 and `k` the least
/// multiplier with `k * p >= s` in the class `target_k(p_idx, i)`. Then the
/// wheel positions `s + 30 * j + wheel_offset(i)` divisible by `p` are exactly
/// those with `j = q + m * p`, where `q = (k * p - s) / 30` and `m >= 0`.
pub proof fn lemma_wheel_multiple(s: int, p: int, i: int, k: int, j: int)
    requires
        s >= 0,
        s % 30 == 0,
        p > 0,
        is_wheel_residue(p % 30),
        0 <= i < 8,
        k >= 0,
        k % 30 == target_k(wheel_index(p % 30), i),
        k * p >= s,
        (k - 30) * p < s,
        j >= 0,
    ensures
        k * p - s == 30 * ((k * p - s) / 30) + wheel_offset(i),
        ((s + 30 * j + wheel_offset(i)) % p == 0) <==> (j >= (k * p - s) / 30 && (j - (k * p - s)
            / 30) % p == 0),
{
    let r = p % 30;
    let p_idx = wheel_index(r);
    let off = wheel_offset(i);
    lemma_wheel_residue_facts(r);
    lemma_target_times_residue(p_idx, i);
    // (k * p) % 30 == off
    lemma_mul_mod_noop_general(k, p, 30);
    assert((k * p) % 30 == off);
    // k * p - s = 30 q + off
    let q = (k * p - s) / 30;
    lemma_fundamental_div_mod(k * p - s, 30);
    assert((k * p - s) % 30 == off) by {
        let t = s / 30;
        lemma_fundamental_div_mod(s, 30);
        assert(k * p - s == (-t) * 30 + k * p);
        lemma_mod_multiples_vanish(-t, k * p, 30);
    }
    assert(k * p - s == 30 * q + off);
    let n = s + 30 * j + off;
    if j >= q && (j - q) % p == 0 {
        let m = (j - q) / p;
        lemma_fundamental_div_mod(j - q, p);
        assert(j - q == p * m);
        assert(n == (k + 30 * m) * p) by (nonlinear_arith)
            requires
                n == s + 30 * j + off,
                k * p - s == 30 * q + off,
                j - q == p * m,
        ;
        lemma_mod_multiples_basic(k + 30 * m, p);
    }
    if n % p == 0 {
        let kk = n / p;
        lemma_fundamental_div_mod(n, p);
        assert(n == p * kk);
        // residue of kk * p is off
        assert((kk * p) % 30 == off) by {
            let t = s / 30;
            lemma_fundamental_div_mod(s, 30);
            lemma_mul_is_commutative(kk, p);
            assert(kk * p == 30 * (t + j) + off);
            lemma_mod_multiples_vanish(t + j, off, 30);
        }
        lemma_mul_mod_noop_right(kk, p, 30);
        lemma_multiplier_class(kk, r, off);
        assert(kk % 30 == k % 30);
        // kk >= k
        if kk < k {
            lemma_fundamental_div_mod(kk, 30);
            lemma_fundamental_div_mod(k, 30);
            assert(kk <= k - 30);
            assert(kk * p <= (k - 30) * p) by (nonlinear_arith)
                requires
                    kk <= k - 30,
                    p > 0,
            ;
            lemma_mul_is_commutative(kk, p);
            assert(false);
        }
        let m = (kk - k) / 30;
        lemma_fundamental_div_mod(kk, 30);
        lemma_fundamental_div_mod(k, 30);
        assert(kk - k == 30 * m);
        assert(m >= 0);
        assert(j - q == m * p) by (nonlinear_arith)
            requires
                n == s + 30 * j + off,
                n == p * kk,
                k * p - s == 30 * q + off,
                kk - k == 30 * m,
        ;
        lemma_mod_multiples_basic(m, p);
    }
}


/// 2^64.
pub open spec fn two_pow_64() -> int {
    0x1_0000_0000_0000_0000int
}

/// The Barrett reciprocal `ceil(2^64 / p)` as the sieve stores it.
pub open spec fn barrett_recip(p: int) -> int {
    (0xffff_ffff_ffff_ffffint / p) + 1
}

/// `OFFSETS[i]`: the `i`-th wheel residue.
pub fn wheel_offset_at(i: usize) -> (r: u32)
    requires
        i < 8,
    ensures
        r == wheel_offset(i as int),
{
    match i {
        0 => 1,
        1 => 7,
        2 => 11,
        3 => 13,
        4 => 17,
        5 => 19,
        6 => 23,
        _ => 29,
    }
}

/// `BITS[i]`: the byte with only bit `i` set.
pub fn wheel_bit(i: usize) -> (r: u8)
    requires
        i < 8,
    ensures
        r == 1u8 << (i as u8),
{
    let r: u8 = match i {
        0 => 1,
        1 => 2,
        2 => 4,
        3 => 8,
        4 => 16,
        5 => 32,
        6 => 64,
        _ => 128,
    };
    let ii = i as u8;
    assert(ii < 8);
    assert(r == 1u8 << ii) by (bit_vector)
        requires
            ii == 0 ==> r == 1,
            ii == 1 ==> r == 2,
            ii == 2 ==> r == 4,
            ii == 3 ==> r == 8,
            ii == 4 ==> r == 16,
            ii == 5 ==> r == 32,
            ii == 6 ==> r == 64,
            ii == 7 ==> r == 128,
            ii < 8,
    ;
    r
}

/// The inverse modulo 30 of a wheel residue; 1 for any other argument.
pub fn mod_inv_30(a: u32) -> (r: u32)
    ensures
        r == inverse_mod_30(a as int),
        is_wheel_residue(a as int) ==> (a * r) % 30 == 1 && is_wheel_residue(r as int),
{
    match a {
        1 => 1,
        7 => 13,
        11 => 11,
        13 => 7,
        17 => 23,
        19 => 19,
        23 => 17,
        29 => 29,
        _ => 1,
    }
}

/// `P_MOD_TO_IDX[r]`: the position of residue `r` among the wheel residues.
pub fn p_mod_to_idx(r: u32) -> (idx: u8)
    ensures
        idx == wheel_index(r as int),
        idx < 8,
{
    match r {
        1 => 0,
        7 => 1,
        11 => 2,
        13 => 3,
        17 => 4,
        19 => 5,
        23 => 6,
        29 => 7,
        _ => 0,
    }
}

/// The table of multiplier classes, `table[p_idx * 8 + i] == target_k(p_idx, i)`.
pub fn precompute_target_k_mod() -> (table: Vec<u64>)
    ensures
        table.len() == 64,
        forall|a: int, i: int|
            0 <= a < 8 && 0 <= i < 8 ==> #[trigger] table@[a * 8 + i] == target_k(a, i),
{
    let mut table: Vec<u64> = Vec::new();
    let mut pri: usize = 0;
    while pri < 8
        invariant
            pri <= 8,
            table.len() == pri * 8,
            forall|a: int, i: int|
                0 <= a < pri && 0 <= i < 8 ==> #[trigger] table@[a * 8 + i] == target_k(a, i),
        decreases 8 - pri,
    {
        let inv = mod_inv_30(wheel_offset_at(pri)) as u64;
        let mut oi: usize = 0;
        while oi < 8
            invariant
                pri < 8,
                oi <= 8,
                inv == inverse_mod_30(wheel_offset(pri as int)),
                table.len() == pri * 8 + oi,
                forall|a: int, i: int|
                    0 <= a < pri && 0 <= i < 8 ==> #[trigger] table@[a * 8 + i] == target_k(a, i),
                forall|i: int| 0 <= i < oi ==> #[trigger] table@[pri * 8 + i] == target_k(pri as int, i),
            decreases 8 - oi,
        {
            let off = wheel_offset_at(oi) as u64;
            assert(inv <= 29);
            table.push((off * inv) % 30);
            oi += 1;
        }
        assert forall|a: int, i: int|
            0 <= a < pri + 1 && 0 <= i < 8 implies #[trigger] table@[a * 8 + i] == target_k(a, i) by {
            if a == pri {
            }
        }
        pri += 1;
    }
    table
}

/// The index of `(p_idx, kr, i)` in the flat delta table.
pub open spec fn dk_index(a: int, kr: int, i: int) -> int {
    (a * 30 + kr) * 8 + i
}

/// The flat delta table holds `delta_k` for every prime class, multiplier
/// residue and wheel residue.
pub open spec fn dk_table_ok(t: Seq<u8>) -> bool {
    &&& t.len() == 1920
    &&& forall|a: int, kr: int, i: int|
        0 <= a < 8 && 0 <= kr < 30 && 0 <= i < 8 ==> #[trigger] t[dk_index(a, kr, i)] == delta_k(
            a,
            kr,
            i,
        )
}

proof fn lemma_dk_index_bounds(a: int, kr: int, i: int)
    requires
        0 <= a < 8,
        0 <= kr < 30,
        0 <= i < 8,
    ensures
        0 <= dk_index(a, kr, i) < 1920,
        dk_index(a, kr, i) == a * 240 + kr * 8 + i,
{
    assert(dk_index(a, kr, i) == a * 240 + kr * 8 + i) by (nonlinear_arith);
}

/// `DK_TABLE`: for each prime class and multiplier residue `kr`, the distance
/// from `kr` to the next multiplier in each wheel residue's class.
pub fn precompute_dk_table() -> (table: Vec<u8>)
    ensures
        dk_table_ok(table@),
{
    let tk = precompute_target_k_mod();
    let mut table: Vec<u8> = Vec::new();
    let mut pi: usize = 0;
    while pi < 8
        invariant
            pi <= 8,
            tk.len() == 64,
            forall|a: int, i: int| 0 <= a < 8 && 0 <= i < 8 ==> #[trigger] tk@[a * 8 + i] == target_k(a, i),
            table.len() == pi * 240,
            forall|a: int, kr: int, i: int|
                0 <= a < pi && 0 <= kr < 30 && 0 <= i < 8 ==> #[trigger] table@[dk_index(a, kr, i)]
                    == delta_k(a, kr, i),
        decreases 8 - pi,
    {
        let mut kr: u64 = 0;
        while kr < 30
            invariant
                pi < 8,
                kr <= 30,
                tk.len() == 64,
                forall|a: int, i: int|
                    0 <= a < 8 && 0 <= i < 8 ==> #[trigger] tk@[a * 8 + i] == target_k(a, i),
                table.len() == pi * 240 + kr * 8,
                forall|a: int, r: int, i: int|
                    0 <= a < pi && 0 <= r < 30 && 0 <= i < 8 ==> #[trigger] table@[dk_index(a, r, i)]
                        == delta_k(a, r, i),
                forall|r: int, i: int|
                    0 <= r < kr && 0 <= i < 8 ==> #[trigger] table@[dk_index(pi as int, r, i)]
                        == delta_k(pi as int, r, i),
            decreases 30 - kr,
        {
            let mut i: usize = 0;
            while i < 8
                invariant
                    pi < 8,
                    kr < 30,
                    i <= 8,
                    tk.len() == 64,
                    forall|a: int, i: int|
                        0 <= a < 8 && 0 <= i < 8 ==> #[trigger] tk@[a * 8 + i] == target_k(a, i),
                    table.len() == pi * 240 + kr * 8 + i,
                    forall|a: int, r: int, i: int|
                        0 <= a < pi && 0 <= r < 30 && 0 <= i < 8 ==> #[trigger] table@[dk_index(
                            a,
                            r,
                            i,
                        )] == delta_k(a, r, i),
                    forall|r: int, i: int|
                        0 <= r < kr && 0 <= i < 8 ==> #[trigger] table@[dk_index(pi as int, r, i)]
                            == delta_k(pi as int, r, i),
                    forall|j: int|
                        0 <= j < i ==> #[trigger] table@[dk_index(pi as int, kr as int, j)]
                            == delta_k(pi as int, kr as int, j),
                decreases 8 - i,
            {
                assert(pi * 8 + i < 64) by (nonlinear_arith)
                    requires
                        pi < 8,
                        i < 8,
                ;
                let target = tk[pi * 8 + i];
                proof {
                    lemma_target_times_residue(pi as int, i as int);
                    lemma_dk_index_bounds(pi as int, kr as int, i as int);
                    assert(table.len() == dk_index(pi as int, kr as int, i as int)) by (nonlinear_arith)
                        requires
                            table.len() == pi * 240 + kr * 8 + i,
                            dk_index(pi as int, kr as int, i as int) == pi * 240 + kr * 8 + i,
                    ;
                }
                let dk = if kr <= target {
                    target - kr
                } else {
                    30 - kr + target
                };
                table.push(dk as u8);
                proof {
                    assert forall|a: int, r: int, j: int|
                        0 <= a < pi && 0 <= r < 30 && 0 <= j < 8 implies #[trigger] table@[dk_index(
                            a,
                            r,
                            j,
                        )] == delta_k(a, r, j) by {
                        lemma_dk_index_bounds(a, r, j);
                        assert(dk_index(a, r, j) < pi * 240) by (nonlinear_arith)
                            requires
                                dk_index(a, r, j) == a * 240 + r * 8 + j,
                                a < pi,
                                r < 30,
                                j < 8,
                        ;
                    }
                    assert forall|r: int, j: int|
                        0 <= r < kr && 0 <= j < 8 implies #[trigger] table@[dk_index(pi as int, r, j)]
                            == delta_k(pi as int, r, j) by {
                        lemma_dk_index_bounds(pi as int, r, j);
                    }
                    assert forall|j: int|
                        0 <= j < i + 1 implies #[trigger] table@[dk_index(pi as int, kr as int, j)]
                            == delta_k(pi as int, kr as int, j) by {
                        lemma_dk_index_bounds(pi as int, kr as int, j);
                    }
                }
                i += 1;
            }
            proof {
                assert forall|r: int, j: int|
                    0 <= r < kr + 1 && 0 <= j < 8 implies #[trigger] table@[dk_index(pi as int, r, j)]
                        == delta_k(pi as int, r, j) by {
                    if r == kr {
                    }
                }
            }
            kr += 1;
        }
        proof {
            assert forall|a: int, r: int, j: int|
                0 <= a < pi + 1 && 0 <= r < 30 && 0 <= j < 8 implies #[trigger] table@[dk_index(
                    a,
                    r,
                    j,
                )] == delta_k(a, r, j) by {
                if a == pi {
                }
            }
        }
        pi += 1;
    }
    table
}

proof fn lemma_shr64(x: u128)
    ensures
        x >> 64u128 == x / 0x1_0000_0000_0000_0000,
{
    assert(x >> 64u128 == x / 0x1_0000_0000_0000_0000) by (bit_vector);
}

/// Barrett division as the display sieve writes it: the high half of the
/// 128-bit product `n * recip`.
pub fn fast_div(n: u64, recip: u64) -> (q: u64)
    ensures
        q == (n * recip) / two_pow_64(),
{
    let a = n as u128;
    let b = recip as u128;
    assert(a * b < 0x1_0000_0000_0000_0000 * 0x1_0000_0000_0000_0000) by (nonlinear_arith)
        requires
            a < 0x1_0000_0000_0000_0000,
            b < 0x1_0000_0000_0000_0000,
    ;
    let prod = a * b;
    proof {
        lemma_shr64(prod);
    }
    let q = prod >> 64;
    assert(q < 0x1_0000_0000_0000_0000) by (nonlinear_arith)
        requires
            q == prod / 0x1_0000_0000_0000_0000,
            prod < 0x1_0000_0000_0000_0000 * 0x1_0000_0000_0000_0000,
    ;
    q as u64
}

/// With the reciprocal `barrett_recip(p)` the high half of `n * recip` is
/// `n / p` or one more; it is exactly `n / p` when `n * p < 2^64`.
pub proof fn lemma_barrett(n: int, p: int)
    requires
        0 <= n < two_pow_64(),
        2 <= p < two_pow_64(),
    ensures
        n / p <= (n * barrett_recip(p)) / two_pow_64() <= n / p + 1,
        n * p < two_pow_64() ==> (n * barrett_recip(p)) / two_pow_64() == n / p,
        barrett_recip(p) < two_pow_64(),
{
    let m = two_pow_64();
    let r = barrett_recip(p);
    let f = (m - 1) / p;
    lemma_fundamental_div_mod(m - 1, p);
    assert(r * p >= m && r * p < m + p) by (nonlinear_arith)
        requires
            r == f + 1,
            m - 1 == p * f + (m - 1) % p,
            0 <= (m - 1) % p < p,
    ;
    assert(f < m - 1) by (nonlinear_arith)
        requires
            m - 1 == p * f + (m - 1) % p,
            0 <= (m - 1) % p < p,
            p >= 2,
            m > 1,
    ;
    let e = r * p - m;
    let qq = n / p;
    lemma_fundamental_div_mod(n, p);
    assert(qq * p <= n < (qq + 1) * p) by (nonlinear_arith)
        requires
            n == p * qq + n % p,
            0 <= n % p < p,
    ;
    let t = (n * r) / m;
    lemma_fundamental_div_mod(n * r, m);
    // lower bound: n * r >= qq * m
    assert(n * r * p == n * m + n * e) by (nonlinear_arith)
        requires
            e == r * p - m,
    ;
    assert(n * r >= qq * m) by (nonlinear_arith)
        requires
            n * r * p == n * m + n * e,
            e >= 0,
            n >= qq * p,
            p > 0,
            m > 0,
            qq >= 0,
    ;
    // upper bound: n * r < (qq + 2) * m
    assert(n * r < (qq + 2) * m) by (nonlinear_arith)
        requires
            n * r * p == n * m + n * e,
            0 <= e < p,
            0 <= n < m,
            n < (qq + 1) * p,
            p > 0,
            m > 0,
    ;
    assert(qq <= t) by (nonlinear_arith)
        requires
            n * r >= qq * m,
            n * r == m * t + (n * r) % m,
            0 <= (n * r) % m < m,
            m > 0,
    ;
    assert(t <= qq + 1) by (nonlinear_arith)
        requires
            n * r < (qq + 2) * m,
            n * r == m * t + (n * r) % m,
            0 <= (n * r) % m < m,
            m > 0,
    ;
    if n * p < m {
        assert(n * r < (qq + 1) * m) by (nonlinear_arith)
            requires
                n * r * p == n * m + n * e,
                0 <= e < p,
                n * p < m,
                0 <= n,
                n - qq * p >= 0,
                n < (qq + 1) * p,
                p > 0,
                m > 0,
        ;
        assert(t <= qq) by (nonlinear_arith)
            requires
                n * r < (qq + 1) * m,
                n * r == m * t + (n * r) % m,
                0 <= (n * r) % m < m,
                m > 0,
        ;
    }
}

/// Barrett division with correction, as the parallel sieve writes it: exactly
/// `n / p`.
pub fn fast_div_corrected(n: u64, p: u64, recip: u64) -> (q: u64)
    requires
        p >= 2,
        recip == barrett_recip(p as int),
        n + p < two_pow_64(),
    ensures
        q == n / p,
{
    let q = fast_div(n, recip);
    proof {
        lemma_barrett(n as int, p as int);
        lemma_fundamental_div_mod(n as int, p as int);
        assert((n / p) * p <= n < (n / p + 1) * p) by (nonlinear_arith)
            requires
                n == p * (n / p) + n % p,
                0 <= n % p < p,
        ;
    }
    assert(q * p <= n + p) by (nonlinear_arith)
        requires
            q <= n / p + 1,
            p > 0,
    ;
    if q * p > n {
        assert(q == n / p + 1) by (nonlinear_arith)
            requires
                q * p > n,
                n / p <= q <= n / p + 1,
                (n / p) * p <= n,
                p > 0,
        ;
        q - 1
    } else {
        assert(q == n / p) by (nonlinear_arith)
            requires
                q * p <= n,
                n / p <= q <= n / p + 1,
                n < (n / p + 1) * p,
                p > 0,
        ;
        q
    }
}


pub proof fn lemma_dk_index_bounds_pub(a: int, kr: int, i: int)
    requires
        0 <= a < 8,
        0 <= kr < 30,
        0 <= i < 8,
    ensures
        0 <= dk_index(a, kr, i) < 1920,
        dk_index(a, kr, i) == (a * 30 + kr) * 8 + i,
{
    lemma_dk_index_bounds(a, kr, i);
}

pub proof fn lemma_target_range(a: int, i: int)
    requires
        0 <= a < 8,
        0 <= i < 8,
    ensures
        0 <= target_k(a, i) < 30,
        0 <= delta_k(a, 0, i) < 30,
        forall|kr: int| 0 <= kr < 30 ==> 0 <= #[trigger] delta_k(a, kr, i) < 30,
{
    lemma_target_times_residue(a, i);
}


pub proof fn lemma_shr64_pub(x: u128)
    ensures
        x >> 64u128 == x / 0x1_0000_0000_0000_0000,
{
    lemma_shr64(x);
}

} // verus!
