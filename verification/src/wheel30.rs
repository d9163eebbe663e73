//! Positions in a bitmap that keeps one bit per number coprime to 30, from
//! a 30-aligned start: the eight residues 1, 7, 11, 13, 17, 19, 23, 29 of
//! each block of thirty.

use vstd::prelude::*;
use crate::wheel::{wheel_offset, wheel_offset_at};

verus! {

/// `n` is divisible by none of 2, 3 and 5.
pub open spec fn coprime30(n: int) -> bool {
    n % 2 != 0 && n % 3 != 0 && n % 5 != 0
}

/// How many of `1..=n` are coprime to 30.
pub open spec fn coprime30_count(n: int) -> int
    decreases n,
{
    if n <= 0 {
        0
    } else {
        coprime30_count(n - 1) + if coprime30(n) {
            1int
        } else {
            0int
        }
    }
}

/// Coprimality to 30 repeats every 30.
proof fn lemma_coprime30_shift(k: int)
    ensures
        coprime30(k + 30) == coprime30(k),
{
    vstd::arithmetic::div_mod::lemma_mod_add_multiples_vanish(k, 2);
    vstd::arithmetic::div_mod::lemma_mod_add_multiples_vanish(k + 2 * 1, 2);
    assert((k + 30) % 2 == k % 2) by {
        vstd::arithmetic::div_mod::lemma_mod_multiples_vanish(15, k, 2);
    }
    assert((k + 30) % 3 == k % 3) by {
        vstd::arithmetic::div_mod::lemma_mod_multiples_vanish(10, k, 3);
    }
    assert((k + 30) % 5 == k % 5) by {
        vstd::arithmetic::div_mod::lemma_mod_multiples_vanish(6, k, 5);
    }
}

/// The counts over the first block of thirty.
pub proof fn lemma_count_first_block()
    ensures
        coprime30_count(0) == 0,
        coprime30_count(1) == 1,
        coprime30_count(6) == 1,
        coprime30_count(7) == 2,
        coprime30_count(10) == 2,
        coprime30_count(11) == 3,
        coprime30_count(12) == 3,
        coprime30_count(13) == 4,
        coprime30_count(16) == 4,
        coprime30_count(17) == 5,
        coprime30_count(18) == 5,
        coprime30_count(19) == 6,
        coprime30_count(22) == 6,
        coprime30_count(23) == 7,
        coprime30_count(28) == 7,
        coprime30_count(29) == 8,
        coprime30_count(30) == 8,
{
    assert(coprime30_count(0) == 0);
    assert(coprime30(1));
    assert(coprime30_count(1) == 1);
    assert(coprime30_count(2) == 1);
    assert(coprime30_count(3) == 1);
    assert(coprime30_count(4) == 1);
    assert(coprime30_count(5) == 1);
    assert(coprime30_count(6) == 1);
    assert(coprime30_count(7) == 2);
    assert(coprime30_count(8) == 2);
    assert(coprime30_count(9) == 2);
    assert(coprime30_count(10) == 2);
    assert(coprime30_count(11) == 3);
    assert(coprime30_count(12) == 3);
    assert(coprime30_count(13) == 4);
    assert(coprime30_count(14) == 4);
    assert(coprime30_count(15) == 4);
    assert(coprime30_count(16) == 4);
    assert(coprime30_count(17) == 5);
    assert(coprime30_count(18) == 5);
    assert(coprime30_count(19) == 6);
    assert(coprime30_count(20) == 6);
    assert(coprime30_count(21) == 6);
    assert(coprime30_count(22) == 6);
    assert(coprime30_count(23) == 7);
    assert(coprime30_count(24) == 7);
    assert(coprime30_count(25) == 7);
    assert(coprime30_count(26) == 7);
    assert(coprime30_count(27) == 7);
    assert(coprime30_count(28) == 7);
    assert(coprime30_count(29) == 8);
    assert(coprime30_count(30) == 8);
}

/// Each block of thirty adds eight.
proof fn lemma_count_shift(x: int)
    requires
        x >= 0,
    ensures
        coprime30_count(x + 30) == coprime30_count(x) + 8,
    decreases x,
{
    if x == 0 {
        lemma_count_first_block();
    } else {
        lemma_count_shift(x - 1);
        lemma_coprime30_shift(x);
    }
}

/// `count(30 q + r) = 8 q + count(r)`.
pub proof fn lemma_count_blocks(q: int, r: int)
    requires
        q >= 0,
        r >= 0,
    ensures
        coprime30_count(30 * q + r) == 8 * q + coprime30_count(r),
    decreases q,
{
    if q > 0 {
        lemma_count_blocks(q - 1, r);
        lemma_count_shift(30 * (q - 1) + r);
    }
}

/// `coprime30_count(r)` for `r <= 30`, from its table.
fn coprime_count_30(r: usize) -> (c: usize)
    requires
        r <= 30,
    ensures
        c == coprime30_count(r as int),
{
    proof {
        lemma_count_first_block();
        assert(coprime30_count(2) == 1);
        assert(coprime30_count(3) == 1);
        assert(coprime30_count(4) == 1);
        assert(coprime30_count(5) == 1);
        assert(coprime30_count(8) == 2);
        assert(coprime30_count(9) == 2);
        assert(coprime30_count(14) == 4);
        assert(coprime30_count(15) == 4);
        assert(coprime30_count(20) == 6);
        assert(coprime30_count(21) == 6);
        assert(coprime30_count(24) == 7);
        assert(coprime30_count(25) == 7);
        assert(coprime30_count(26) == 7);
        assert(coprime30_count(27) == 7);
    }
    if r < 1 {
        0
    } else if r < 7 {
        1
    } else if r < 11 {
        2
    } else if r < 13 {
        3
    } else if r < 17 {
        4
    } else if r < 19 {
        5
    } else if r < 23 {
        6
    } else if r < 29 {
        7
    } else {
        8
    }
}

/// The number of wheel bits that cover `1..=n` from a 30-aligned start: the
/// count of the numbers coprime to 30 among them.
pub fn wheel_bit_count(n: usize) -> (c: usize)
    ensures
        c == coprime30_count(n as int),
{
    proof {
        lemma_count_blocks((n / 30) as int, (n % 30) as int);
        assert(coprime30_count(n as int) <= n) by {
            lemma_count_le(n as int);
        }
    }
    (n / 30) * 8 + coprime_count_30(n % 30)
}

proof fn lemma_count_pos(n: int)
    requires
        n >= 1,
    ensures
        coprime30_count(n) >= 1,
    decreases n,
{
    if n > 1 {
        lemma_count_pos(n - 1);
    } else {
        lemma_count_first_block();
    }
}

proof fn lemma_count_le(n: int)
    requires
        n >= 0,
    ensures
        0 <= coprime30_count(n) <= n,
    decreases n,
{
    if n > 0 {
        lemma_count_le(n - 1);
    }
}

/// The bit position, in a segment starting at the multiple of 30 `low`, of
/// the largest number coprime to 30 that is at most `n > low`.
pub fn num_to_wheel_pos(n: usize, low: usize) -> (pos: usize)
    requires
        low < n,
        low % 30 == 0,
    ensures
        pos == coprime30_count(n - low) - 1,
{
    let offset = n - low;
    let group = offset / 30;
    let r = offset % 30;
    proof {
        lemma_count_blocks(group as int, r as int);
        lemma_count_le(offset as int);
        lemma_count_first_block();
    }
    let c = coprime_count_30(r);
    if r >= 1 {
        proof {
            lemma_count_pos(r as int);
        }
        group * 8 + (c - 1)
    } else {
        // r == 0: the largest such number closes the previous block
        (group - 1) * 8 + 7
    }
}

/// The smallest number `>= n` that is coprime to 30.
pub fn next_coprime30(n: usize) -> (m: usize)
    requires
        n + 31 <= usize::MAX,
    ensures
        m >= n,
        coprime30(m as int),
        forall|k: int| n <= k < m ==> !coprime30(k),
{
    let r = n % 30;
    let base = n - r;
    let mut i: usize = 0;
    proof {
        lemma_residues_cover(n as int);
    }
    while i < 8
        invariant
            i <= 8,
            r == n % 30,
            base == n - r,
            n + 31 <= usize::MAX,
            forall|j: int| 0 <= j < i ==> #[trigger] wheel_offset(j) < r,
        decreases 8 - i,
    {
        let res = wheel_offset_at(i) as usize;
        if res >= r {
            proof {
                lemma_next_residue(n as int, i as int);
            }
            return base + res;
        }
        i += 1;
    }
    proof {
        assert(wheel_offset(7) < r);
        assert(false);
    }
    base + 31
}

/// The residues are 1, 7, ..., 29 in increasing order.
proof fn lemma_residues_cover(n: int)
    ensures
        forall|j: int, k: int| 0 <= j < k < 8 ==> wheel_offset(j) < wheel_offset(k),
        wheel_offset(7) == 29,
{
}

/// The first residue of the block at or above `n % 30` gives the next number
/// coprime to 30.
proof fn lemma_next_residue(n: int, i: int)
    requires
        n >= 0,
        0 <= i < 8,
        wheel_offset(i) >= n % 30,
        forall|j: int| 0 <= j < i ==> #[trigger] wheel_offset(j) < n % 30,
    ensures
        coprime30(n - n % 30 + wheel_offset(i)),
        forall|k: int| n <= k < n - n % 30 + wheel_offset(i) ==> !coprime30(k),
{
    let base = n - n % 30;
    vstd::arithmetic::div_mod::lemma_fundamental_div_mod(n, 30);
    let q = n / 30;
    assert(base == 30 * q);
    assert forall|k: int| 0 <= k < 30 implies #[trigger] coprime30(30 * q + k) == (k == 1 || k == 7 || k == 11 || k == 13 || k
        == 17 || k == 19 || k == 23 || k == 29) by {
        lemma_coprime30_block(q, k);
    }
    assert(coprime30(base + wheel_offset(i)));
    let r = n % 30;
    assert forall|j: int| 0 <= j < 8 implies wheel_offset(j) < r || wheel_offset(j) >= wheel_offset(i) by {
        if j < i {
            assert(wheel_offset(j) < r);
        } else if j > i {
            lemma_residues_cover(n);
        }
    }
    assert(wheel_offset(0) == 1 && wheel_offset(1) == 7 && wheel_offset(2) == 11 && wheel_offset(3) == 13);
    assert(wheel_offset(4) == 17 && wheel_offset(5) == 19 && wheel_offset(6) == 23 && wheel_offset(7) == 29);
    assert forall|k: int| n <= k < base + wheel_offset(i) implies !coprime30(k) by {
        let v = k - base;
        assert(coprime30(30 * q + v) == (v == 1 || v == 7 || v == 11 || v == 13 || v == 17 || v == 19 || v == 23
            || v == 29));
        assert(r <= v < wheel_offset(i));
    }
}

/// Within a block of thirty, coprimality to 30 depends on the residue only.
proof fn lemma_coprime30_block(q: int, k: int)
    requires
        0 <= k < 30,
    ensures
        coprime30(30 * q + k) == (k == 1 || k == 7 || k == 11 || k == 13 || k == 17 || k == 19 || k == 23
            || k == 29),
{
    vstd::arithmetic::div_mod::lemma_mod_multiples_vanish(15 * q, k, 2);
    vstd::arithmetic::div_mod::lemma_mod_multiples_vanish(10 * q, k, 3);
    vstd::arithmetic::div_mod::lemma_mod_multiples_vanish(6 * q, k, 5);
    assert(2 * (15 * q) + k == 30 * q + k);
    assert(3 * (10 * q) + k == 30 * q + k);
    assert(5 * (6 * q) + k == 30 * q + k);
}

} // verus!
