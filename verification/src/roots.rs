//! Exact integer roots.

use vstd::prelude::*;

verus! {

/// The integer square root: the largest `r` with `r * r <= n`.
pub fn isqrt(n: u64) -> (r: u64)
    ensures
        r * r <= n,
        n < (r + 1) * (r + 1),
{
    if n < 2 {
        assert(n * n <= n && n < (n + 1) * (n + 1)) by (nonlinear_arith)
            requires
                n < 2,
        ;
        return n;
    }
    // invariant: lo * lo <= n < hi * hi
    let mut lo: u64 = 1;
    let mut hi: u64 = 0x1_0000_0000;
    assert(n < hi * hi);
    while hi - lo > 1
        invariant
            1 <= lo < hi <= 0x1_0000_0000,
            lo * lo <= n,
            n < hi * hi,
        decreases hi - lo,
    {
        let mid = lo + (hi - lo) / 2;
        assert(mid * mid <= 0xffff_ffff * 0xffff_ffff) by (nonlinear_arith)
            requires
                mid < 0x1_0000_0000,
        ;
        if mid * mid <= n {
            lo = mid;
        } else {
            hi = mid;
        }
    }
    lo
}

/// The integer cube root: the largest `r` with `r * r * r <= n`.
pub fn icbrt(n: u64) -> (r: u64)
    ensures
        r * r * r <= n,
        n < (r + 1) * (r + 1) * (r + 1),
{
    if n < 2 {
        assert(n * n * n <= n && n < (n + 1) * (n + 1) * (n + 1)) by (nonlinear_arith)
            requires
                n < 2,
        ;
        return n;
    }
    let mut lo: u64 = 1;
    let mut hi: u64 = 0x40_0000;
    assert(n < hi * hi * hi);
    while hi - lo > 1
        invariant
            1 <= lo < hi <= 0x40_0000,
            lo * lo * lo <= n,
            n < hi * hi * hi,
        decreases hi - lo,
    {
        let mid = lo + (hi - lo) / 2;
        let m = mid as u128;
        assert(m * m <= 0x40_0000 * 0x40_0000 && m * m * m <= 0x40_0000 * 0x40_0000 * 0x40_0000)
            by (nonlinear_arith)
            requires
                m <= 0x40_0000,
        ;
        if m * m * m <= n as u128 {
            lo = mid;
        } else {
            hi = mid;
        }
    }
    lo
}

/// The integer fourth root: the largest `r` with `r * r * r * r <= n`.
pub fn iroot4(n: u64) -> (r: u64)
    ensures
        r * r * r * r <= n,
        n < (r + 1) * (r + 1) * (r + 1) * (r + 1),
{
    if n < 2 {
        assert(n * n * n * n <= n && n < (n + 1) * (n + 1) * (n + 1) * (n + 1)) by (nonlinear_arith)
            requires
                n < 2,
        ;
        return n;
    }
    let mut lo: u64 = 1;
    let mut hi: u64 = 0x1_0000;
    assert(n < hi * hi * hi * hi);
    while hi - lo > 1
        invariant
            1 <= lo < hi <= 0x1_0000,
            lo * lo * lo * lo <= n,
            n < hi * hi * hi * hi,
        decreases hi - lo,
    {
        let mid = lo + (hi - lo) / 2;
        let m = mid as u128;
        assert(m * m <= 0x1_0000 * 0x1_0000 && m * m * m <= 0x1_0000 * 0x1_0000 * 0x1_0000
            && m * m * m * m <= 0x1_0000 * 0x1_0000 * 0x1_0000 * 0x1_0000) by (nonlinear_arith)
            requires
                m <= 0x1_0000,
        ;
        if m * m * m * m <= n as u128 {
            lo = mid;
        } else {
            hi = mid;
        }
    }
    lo
}


/// Squares are increasing on the naturals: the integer square root is unique.
pub proof fn lemma_sqrt_unique(n: int, a: int, b: int)
    requires
        a >= 0,
        b >= 0,
        a * a <= n < (a + 1) * (a + 1),
        b * b <= n < (b + 1) * (b + 1),
    ensures
        a == b,
{
    if a < b {
        assert((a + 1) * (a + 1) <= b * b) by (nonlinear_arith)
            requires
                0 <= a + 1 <= b,
        ;
    } else if b < a {
        assert((b + 1) * (b + 1) <= a * a) by (nonlinear_arith)
            requires
                0 <= b + 1 <= a,
        ;
    }
}

/// Fourth powers are increasing on the naturals: the integer fourth root is
/// unique.
pub proof fn lemma_root4_unique(n: int, a: int, b: int)
    requires
        a >= 0,
        b >= 0,
        a * a * a * a <= n < (a + 1) * (a + 1) * (a + 1) * (a + 1),
        b * b * b * b <= n < (b + 1) * (b + 1) * (b + 1) * (b + 1),
    ensures
        a == b,
{
    if a < b {
        assert((a + 1) * (a + 1) * (a + 1) * (a + 1) <= b * b * b * b) by (nonlinear_arith)
            requires
                0 <= a + 1 <= b,
        ;
    } else if b < a {
        assert((b + 1) * (b + 1) * (b + 1) * (b + 1) <= a * a * a * a) by (nonlinear_arith)
            requires
                0 <= b + 1 <= a,
        ;
    }
}

/// The bound x* of the hard leaves, from the fourth root `r4` of `x` and the
/// square root `s` of `x / y` (with `y` at least 1):
/// `max(1, min(max(r4, ceil(x / y^2)), y, s))`.
pub open spec fn x_star_spec(x: int, y: int, r4: int, s: int) -> int {
    let yy = if y >= 1 { y } else { 1 };
    let ceil_div = (x + yy * yy - 1) / (yy * yy);
    let a = if r4 >= ceil_div { r4 } else { ceil_div };
    let b = if a <= yy { a } else { yy };
    let c = if b <= s { b } else { s };
    if c >= 1 { c } else { 1 }
}

/// The least of three numbers.
pub open spec fn min3(a: int, b: int, c: int) -> int {
    if a <= b && a <= c {
        a
    } else if b <= c {
        b
    } else {
        c
    }
}

/// What x* is, for `x` with fourth root `r4`, `y` (taken as at least 1) and `s` the square
/// root of `x / y`: at least 1; at most `y` and at most `s` (unless it is
/// 1); at most the fourth root or `ceil(x / y^2)`; and at least every number
/// that is at most the fourth root, `y` and `s`, and every number
/// that is at most `ceil(x / y^2)`, `y` and `s`.
pub open spec fn x_star_law(x: int, y: int, r4: int, s: int, r: int) -> bool {
    let yy = if y >= 1 { y } else { 1int };
    &&& r >= 1
    &&& r == 1 || r <= yy
    &&& r == 1 || r <= s
    &&& r == 1 || r <= r4 || r * (yy * yy) < x + yy * yy
    &&& r >= min3(r4, yy, s)
    &&& forall|c: int| c * (yy * yy) < x + yy * yy ==> r >= #[trigger] min3(c, yy, s)
}

/// x* keeps to its law: it reaches the fourth root of `x` and
/// `ceil(x / y^2)`, each as far as `y` and `sqrt(x / y)` allow, and goes
/// no further than the larger of the two, `y` and `sqrt(x / y)`.
pub proof fn lemma_x_star_law(x: int, y: int, r4: int, s: int)
    requires
        x >= 0,
        r4 >= 0,
        s >= 0,
    ensures
        x_star_law(x, y, r4, s, x_star_spec(x, y, r4, s)),
{
    let yy = if y >= 1 { y } else { 1int };
    let q = yy * yy;
    assert(q >= 1) by (nonlinear_arith)
        requires
            yy >= 1,
            q == yy * yy,
    ;
    let cd = (x + q - 1) / q;
    let r = x_star_spec(x, y, r4, s);
    vstd::arithmetic::div_mod::lemma_fundamental_div_mod(x + q - 1, q);
    // r <= cd gives r * q < x + q
    if r <= cd {
        assert(r * q <= cd * q) by (nonlinear_arith)
            requires
                r <= cd,
                q >= 1,
        ;
        assert(cd * q == q * cd) by (nonlinear_arith);
    }
    assert forall|c: int| c * (yy * yy) < x + yy * yy implies r >= #[trigger] min3(c, yy, s) by {
        // c * q <= x + q - 1 gives c <= cd
        if c > cd {
            assert(c * q >= (cd + 1) * q) by (nonlinear_arith)
                requires
                    c >= cd + 1,
                    q >= 1,
            ;
            assert((cd + 1) * q == q * cd + q) by (nonlinear_arith);
        }
    }
}

/// x* = max(1, min(max(x^(1/4), ceil(x / y^2)), y, sqrt(x / y))), in
/// integer roots, with `y` taken as at least 1.
pub fn get_x_star(x: u64, y: u64) -> (r: u64)
    ensures
        forall|r4: int, s: int|
            r4 >= 0 && r4 * r4 * r4 * r4 <= x < (r4 + 1) * (r4 + 1) * (r4 + 1) * (r4 + 1) && s >= 0 && s * s <= (x as int)
                / (if y >= 1 { y as int } else { 1int }) < (s + 1) * (s + 1) ==> r == x_star_spec(x as int, y as int, r4, s),
        forall|r4: int, s: int|
            r4 >= 0 && r4 * r4 * r4 * r4 <= x < (r4 + 1) * (r4 + 1) * (r4 + 1) * (r4 + 1) && s >= 0 && s * s <= (x as int)
                / (if y >= 1 { y as int } else { 1int }) < (s + 1) * (s + 1) ==> #[trigger] x_star_law(
                x as int,
                y as int,
                r4,
                s,
                r as int,
            ),
{
    let y = if y > 1 { y } else { 1 };
    proof {
        assert((y as u128) * (y as u128) <= 0xffff_ffff_ffff_ffff * 0xffff_ffff_ffff_ffff) by (nonlinear_arith)
            requires
                y <= 0xffff_ffff_ffff_ffff,
        ;
    }
    let yy = y as u128 * y as u128;
    proof {
        assert(yy >= 1 && yy <= 0xffff_ffff_ffff_ffff * 0xffff_ffff_ffff_ffff) by (nonlinear_arith)
            requires
                yy == y * y,
                1 <= y <= 0xffff_ffff_ffff_ffff,
        ;
        assert(((x + yy - 1) as int) / (yy as int) <= x) by {
            vstd::arithmetic::div_mod::lemma_div_is_ordered_by_denominator((x + yy - 1) as int, 1, yy as int);
            if yy > 1 {
                vstd::arithmetic::div_mod::lemma_fundamental_div_mod((x + yy - 1) as int, yy as int);
                assert(((x + yy - 1) as int) / (yy as int) <= x) by (nonlinear_arith)
                    requires
                        x + yy - 1 == yy * ((x + yy - 1) as int / yy as int) + (x + yy - 1) as int % yy as int,
                        (x + yy - 1) as int % yy as int >= 0,
                        yy >= 2,
                        x >= 0,
                ;
            }
        }
    }
    let x_div_yy = ((x as u128 + yy - 1) / yy) as u64;
    let r4 = iroot4(x);
    let mut x_star = if r4 > x_div_yy {
        r4
    } else {
        x_div_yy
    };
    let sqrt_xy = isqrt(x / y);
    x_star = if x_star < y {
        x_star
    } else {
        y
    };
    x_star = if x_star < sqrt_xy {
        x_star
    } else {
        sqrt_xy
    };
    x_star = if x_star > 1 {
        x_star
    } else {
        1
    };
    proof {
        assert forall|r4b: int, sb: int|
            r4b >= 0 && r4b * r4b * r4b * r4b <= x < (r4b + 1) * (r4b + 1) * (r4b + 1) * (r4b + 1) && sb >= 0 && sb * sb
                <= (x as int) / (y as int) < (sb + 1) * (sb + 1) implies x_star == x_star_spec(x as int, y as int, r4b, sb) by {
            lemma_root4_unique(x as int, r4 as int, r4b);
            lemma_sqrt_unique((x / y) as int, sqrt_xy as int, sb);
        }
        assert forall|r4b: int, sb: int|
            r4b >= 0 && r4b * r4b * r4b * r4b <= x < (r4b + 1) * (r4b + 1) * (r4b + 1) * (r4b + 1) && sb >= 0 && sb * sb
                <= (x as int) / (y as int) < (sb + 1) * (sb + 1) implies #[trigger] x_star_law(
            x as int,
            y as int,
            r4b,
            sb,
            x_star as int,
        ) by {
            lemma_root4_unique(x as int, r4 as int, r4b);
            lemma_sqrt_unique((x / y) as int, sqrt_xy as int, sb);
            lemma_x_star_law(x as int, y as int, r4b, sb);
        }
    }
    x_star
}

} // verus!
