//! Bits of 64-bit words: which are set, how many lie below a position, and
//! the population count.

use vstd::prelude::*;

verus! {

/// Bit `i` of `w` is set.
pub open spec fn bit_of(w: u64, i: int) -> bool {
    (w >> (i as u64)) & 1u64 == 1u64
}

/// The number of set bits of `w` at positions below `n` (`n <= 64`).
pub open spec fn ones_below(w: u64, n: int) -> nat
    decreases n,
{
    if n <= 0 {
        0
    } else {
        ones_below(w, n - 1) + if bit_of(w, n - 1) {
            1nat
        } else {
            0nat
        }
    }
}

/// The number of ones in the binary representation of `w`.
pub open spec fn popcount(w: u64) -> nat {
    ones_below(w, 64)
}

/// `u64::count_ones`: the number of ones in the binary representation.
#[verifier::external_body]
pub(crate) fn count_ones(w: u64) -> (r: u32)
    ensures
        r == popcount(w),
{
    w.count_ones()
}

/// The mask of the bits below `n`, `n <= 64`.
pub open spec fn low_mask(n: int) -> u64 {
    if n >= 64 {
        0xffff_ffff_ffff_ffffu64
    } else {
        ((1u64 << (n as u64)) - 1) as u64
    }
}

/// `low_mask` computed without overflow.
pub fn low_mask_exec(n: u32) -> (m: u64)
    requires
        n <= 64,
    ensures
        m == low_mask(n as int),
{
    if n >= 64 {
        0xffff_ffff_ffff_ffff
    } else {
        assert(1u64 << (n as u64) >= 1) by (bit_vector)
            requires
                n < 64,
        ;
        (1u64 << n) - 1
    }
}

/// The bits of `w & low_mask(n)` are those of `w` below `n`.
pub proof fn lemma_mask_bit(w: u64, n: u64, i: u64)
    requires
        n <= 64,
        i < 64,
    ensures
        bit_of(w & low_mask(n as int), i as int) == (i < n && bit_of(w, i as int)),
{
    if n >= 64 {
        assert(((w & 0xffff_ffff_ffff_ffffu64) >> i) & 1u64 == (w >> i) & 1u64) by (bit_vector);
    } else {
        assert((((w & ((1u64 << n) - 1) as u64) >> i) & 1u64 == 1u64) == (i < n && (w >> i) & 1u64 == 1u64))
            by (bit_vector)
            requires
                n < 64,
                i < 64,
        ;
    }
}

/// Counting the bits of a masked word.
pub proof fn lemma_ones_masked(w: u64, n: int, k: int)
    requires
        0 <= n <= 64,
        0 <= k <= 64,
    ensures
        ones_below(w & low_mask(n), k) == ones_below(w, if k < n { k } else { n }),
    decreases k,
{
    if k > 0 {
        lemma_ones_masked(w, n, k - 1);
        lemma_mask_bit(w, n as u64, (k - 1) as u64);
    }
}

/// `popcount(w & low_mask(n))` counts the set bits of `w` below `n`.
pub proof fn lemma_popcount_masked(w: u64, n: int)
    requires
        0 <= n <= 64,
    ensures
        popcount(w & low_mask(n)) == ones_below(w, n),
{
    lemma_ones_masked(w, n, 64);
}

/// At most `n` bits lie below `n`.
pub proof fn lemma_ones_below_le(w: u64, n: int)
    requires
        n >= 0,
    ensures
        ones_below(w, n) <= n,
    decreases n,
{
    if n > 0 {
        lemma_ones_below_le(w, n - 1);
    }
}

/// The set bits of `w` at positions in `[lo, hi)`.
pub open spec fn ones_between(w: u64, lo: int, hi: int) -> int {
    ones_below(w, hi) - ones_below(w, lo)
}

/// The bits of `w` that the mask `low_mask(hi) ^ low_mask(lo)` keeps are
/// those at positions in `[lo, hi)`.
pub proof fn lemma_popcount_band(w: u64, lo: int, hi: int)
    requires
        0 <= lo <= hi <= 64,
    ensures
        popcount(w & (low_mask(hi) ^ low_mask(lo))) == ones_between(w, lo, hi),
{
    let mh = low_mask(hi);
    let ml = low_mask(lo);
    assert forall|i: int| 0 <= i < 64 implies #[trigger] bit_of(w & (mh ^ ml), i) == (lo <= i < hi && bit_of(w, i)) by {
        let iu = i as u64;
        lemma_mask_bit(0xffff_ffff_ffff_ffffu64, hi as u64, iu);
        lemma_mask_bit(0xffff_ffff_ffff_ffffu64, lo as u64, iu);
        assert(0xffff_ffff_ffff_ffffu64 & mh == mh) by (bit_vector);
        assert(0xffff_ffff_ffff_ffffu64 & ml == ml) by (bit_vector);
        assert((0xffff_ffff_ffff_ffffu64 >> iu) & 1u64 == 1u64) by (bit_vector)
            requires
                iu < 64,
        ;
        assert((((w & (mh ^ ml)) >> iu) & 1u64 == 1u64) == (((w >> iu) & 1u64 == 1u64) && (((mh >> iu)
            & 1u64 == 1u64) != ((ml >> iu) & 1u64 == 1u64)))) by (bit_vector);
    }
    lemma_ones_band_count(w, lo, hi, 64);
}

/// Counting the bits of a banded word position by position.
proof fn lemma_ones_band_count(w: u64, lo: int, hi: int, k: int)
    requires
        0 <= lo <= hi <= 64,
        0 <= k <= 64,
        forall|i: int| 0 <= i < 64 ==> #[trigger] bit_of(w & (low_mask(hi) ^ low_mask(lo)), i) == (lo <= i
            < hi && bit_of(w, i)),
    ensures
        ones_below(w & (low_mask(hi) ^ low_mask(lo)), k) == (if k <= lo {
            0
        } else if k <= hi {
            ones_between(w, lo, k)
        } else {
            ones_between(w, lo, hi)
        }),
    decreases k,
{
    if k > 0 {
        lemma_ones_band_count(w, lo, hi, k - 1);
        assert(bit_of(w & (low_mask(hi) ^ low_mask(lo)), k - 1) == (lo <= k - 1 < hi && bit_of(w, k - 1)));
    }
}

} // verus!
