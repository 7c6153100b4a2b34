//! Fixed-point arithmetic shared by the motion model and the merge rule.
use vstd::prelude::*;

verus! {

/// Number of fixed-point steps in one unit of length, size, speed or second.
pub const SCALE: i64 = 1_000_000;

/// Division that rounds toward zero, as integer division does on magnitudes.
pub open spec fn trunc_div(n: int, d: int) -> int {
    if n >= 0 {
        n / d
    } else {
        -((-n) / d)
    }
}

/// The fixed-point product of `a` and `b`, rounded toward zero.
pub open spec fn fixed_product(a: int, b: int) -> int {
    trunc_div(a * b, SCALE as int)
}

/// `r` is the integer cube root of `n`, rounded down.
pub open spec fn is_cube_root(r: int, n: int) -> bool {
    0 <= r && r * r * r <= n && n < (r + 1) * (r + 1) * (r + 1)
}

/// The integer cube root of `n`, rounded down.
pub open spec fn cube_root(n: nat) -> int {
    choose|r: int| is_cube_root(r, n as int)
}

/// Cubing preserves order on non-negative integers.
pub proof fn lemma_cube_monotonic(a: int, b: int)
    requires
        0 <= a <= b,
    ensures
        a * a * a <= b * b * b,
{
    assert(a * a <= b * b) by (nonlinear_arith)
        requires
            0 <= a <= b,
    ;
    assert(a * a * a <= b * b * b) by (nonlinear_arith)
        requires
            0 <= a <= b,
            a * a <= b * b,
    ;
}

/// The cube root is unique: any two roots of the same number agree.
pub proof fn lemma_cube_root_unique(r: int, n: int)
    requires
        n >= 0,
        is_cube_root(r, n),
    ensures
        cube_root(n as nat) == r,
{
    let c = cube_root(n as nat);
    assert(is_cube_root(c, n));
    if c < r {
        lemma_cube_monotonic(c + 1, r);
    } else if r < c {
        lemma_cube_monotonic(r + 1, c);
    }
}

/// Every natural number has an integer cube root.
pub proof fn lemma_cube_root_exists(n: nat)
    ensures
        is_cube_root(cube_root(n), n as int),
    decreases n,
{
    if n == 0 {
        assert(is_cube_root(0, 0));
    } else {
        lemma_cube_root_exists((n - 1) as nat);
        let r = cube_root((n - 1) as nat);
        if (r + 1) * (r + 1) * (r + 1) <= n {
            lemma_cube_monotonic(r + 1, r + 2);
            assert((r + 1) * (r + 1) * (r + 1) < (r + 2) * (r + 2) * (r + 2)) by (nonlinear_arith)
                requires
                    r >= 0,
            ;
            assert(is_cube_root(r + 1, n as int));
        } else {
            assert(is_cube_root(r, n as int));
        }
    }
}

/// Fixed-point multiplication, rounding toward zero.
pub fn fixed_mul(a: i64, b: i64) -> (r: i64)
    requires
        i64::MIN < fixed_product(a as int, b as int) <= i64::MAX,
    ensures
        r == fixed_product(a as int, b as int),
{
    let ua: u128 = if a < 0 {
        (-(a as i128)) as u128
    } else {
        a as u128
    };
    let ub: u128 = if b < 0 {
        (-(b as i128)) as u128
    } else {
        b as u128
    };
    assert(ua * ub <= 0x8000_0000_0000_0000 * 0x8000_0000_0000_0000) by (nonlinear_arith)
        requires
            ua <= 0x8000_0000_0000_0000u128,
            ub <= 0x8000_0000_0000_0000u128,
    ;
    let m: u128 = ua * ub;
    let q: u128 = m / (SCALE as u128);
    let negative = (a < 0) != (b < 0);
    proof {
        let p = a as int * b as int;
        if a < 0 && b >= 0 {
            assert(p == -(ua * ub)) by (nonlinear_arith)
                requires
                    ua == -a,
                    ub == b,
                    p == a * b,
            ;
        } else if a >= 0 && b < 0 {
            assert(p == -(ua * ub)) by (nonlinear_arith)
                requires
                    ua == a,
                    ub == -b,
                    p == a * b,
            ;
        } else if a < 0 && b < 0 {
            assert(p == ua * ub) by (nonlinear_arith)
                requires
                    ua == -a,
                    ub == -b,
                    p == a * b,
            ;
        } else {
            assert(p == ua * ub);
        }
        if negative && m > 0 {
            assert(p < 0);
        }
    }
    if negative {
        -(q as i128) as i64
    } else {
        q as i64
    }
}

/// The integer cube root of `n`, rounded down, found by bisection.
pub fn cube_root_floor(n: u128) -> (r: u128)
    requires
        n < 0x1_0000_0000_0000_0000_0000_0000,
    ensures
        is_cube_root(r as int, n as int),
        r == cube_root(n as nat),
{
    let mut lo: u128 = 0;
    let mut hi: u128 = 0x1_0000_0000;
    assert(hi * hi * hi == 0x1_0000_0000_0000_0000_0000_0000) by (nonlinear_arith)
        requires
            hi == 0x1_0000_0000,
    ;
    while hi - lo > 1
        invariant
            lo < hi <= 0x1_0000_0000,
            lo * lo * lo <= n,
            n < hi * hi * hi,
        decreases hi - lo,
    {
        let mid: u128 = lo + (hi - lo) / 2;
        assert(mid * mid <= 0x1_0000_0000_0000_0000) by (nonlinear_arith)
            requires
                mid <= 0x1_0000_0000,
        ;
        assert(mid * mid * mid <= 0x1_0000_0000_0000_0000_0000_0000) by {
            lemma_cube_monotonic(mid as int, 0x1_0000_0000);
        }
        if mid * mid * mid <= n {
            lo = mid;
        } else {
            hi = mid;
        }
    }
    proof {
        lemma_cube_root_unique(lo as int, n as int);
    }
    lo
}

} // verus!
