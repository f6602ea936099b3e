//! The integer grid on which the simulation runs: units, limits, rounding
//! division and the integer square root.

use vstd::arithmetic::div_mod::lemma_fundamental_div_mod;
use vstd::arithmetic::div_mod::lemma_fundamental_div_mod_converse;
use vstd::prelude::*;

verus! {

/// Grid cells per world unit. Time uses the same scale: a time step counts
/// `1 / UNIT` seconds.
pub const UNIT: i64 = 1_048_576;

/// Largest magnitude of a coordinate, in grid cells. The world is the cube
/// whose coordinates all lie in `-WORLD_LIMIT ..= WORLD_LIMIT`.
pub const WORLD_LIMIT: i64 = 1_099_511_627_776;

/// Longest rest length a link may have, in grid cells. It exceeds the
/// diagonal of the world.
pub const MAX_REST_LENGTH: i64 = 4_398_046_511_104;

/// Longest time step, in `1 / UNIT` seconds.
pub const MAX_TIME_STEP: i64 = 1_073_741_824;

/// Whether `v` is a coordinate inside the world.
pub open spec fn in_range(v: int) -> bool {
    -WORLD_LIMIT <= v <= WORLD_LIMIT
}

/// The coordinate inside the world that is nearest to `v`.
pub open spec fn clamp_to_world(v: int) -> int {
    if v < -WORLD_LIMIT {
        -WORLD_LIMIT as int
    } else if v > WORLD_LIMIT {
        WORLD_LIMIT as int
    } else {
        v
    }
}

/// `n / d` rounded to the nearest integer, a half rounding up, for `d > 0`.
pub open spec fn round_div(n: int, d: int) -> int {
    (2 * n + d) / (2 * d)
}

/// Whether `r` is the square root of `n` rounded down.
pub open spec fn is_floor_sqrt(n: int, r: int) -> bool {
    &&& 0 <= r
    &&& r * r <= n
    &&& n < (r + 1) * (r + 1)
}

/// The square root of `n` rounded down to an integer, for `n >= 0`.
pub open spec fn floor_sqrt(n: int) -> int {
    choose|r: int| is_floor_sqrt(n, r)
}

proof fn lemma_floor_sqrt_witness(n: int) -> (r: int)
    requires
        n >= 0,
    ensures
        is_floor_sqrt(n, r),
    decreases n,
{
    if n == 0 {
        assert(is_floor_sqrt(0, 0)) by (nonlinear_arith);
        0
    } else {
        let below: int = lemma_floor_sqrt_witness(n - 1);
        let above: int = below + 1;
        if above * above <= n {
            assert(n < (above + 1) * (above + 1)) by (nonlinear_arith)
                requires
                    above >= 1,
                    n - 1 < above * above,
            ;
            above
        } else {
            below
        }
    }
}

/// Every natural number has a rounded-down square root.
pub proof fn lemma_floor_sqrt(n: int)
    requires
        n >= 0,
    ensures
        is_floor_sqrt(n, floor_sqrt(n)),
{
    let r: int = lemma_floor_sqrt_witness(n);
    assert(is_floor_sqrt(n, r));
}

/// The rounded-down square root is unique.
pub proof fn lemma_floor_sqrt_unique(n: int, r: int)
    requires
        is_floor_sqrt(n, r),
    ensures
        r == floor_sqrt(n),
{
    let s: int = floor_sqrt(n);
    assert(is_floor_sqrt(n, s));
    if r < s {
        assert((r + 1) * (r + 1) <= s * s) by (nonlinear_arith)
            requires
                0 <= r,
                r + 1 <= s,
        ;
    } else if s < r {
        assert((s + 1) * (s + 1) <= r * r) by (nonlinear_arith)
            requires
                0 <= s,
                s + 1 <= r,
        ;
    }
}

/// The rounded-down square root is zero exactly for zero.
pub proof fn lemma_floor_sqrt_zero(n: int)
    requires
        n >= 0,
    ensures
        floor_sqrt(n) == 0 <==> n == 0,
{
    lemma_floor_sqrt(n);
    let r: int = floor_sqrt(n);
    assert(r == 0 <==> n == 0) by (nonlinear_arith)
        requires
            is_floor_sqrt(n, r),
    ;
}

/// Brings a wide intermediate value back into the world.
pub fn clamp(v: i128) -> (r: i64)
    ensures
        r == clamp_to_world(v as int),
        in_range(r as int),
{
    if v < -(WORLD_LIMIT as i128) {
        -WORLD_LIMIT
    } else if v > WORLD_LIMIT as i128 {
        WORLD_LIMIT
    } else {
        v as i64
    }
}

/// `n / d` rounded towards negative infinity.
pub fn div_floor(n: i128, d: i128) -> (q: i128)
    requires
        d > 0,
        n > i128::MIN,
    ensures
        q == (n as int) / (d as int),
{
    if n >= 0 {
        n / d
    } else {
        let m: i128 = -n;
        let up: i128 = (m - 1) / d;
        proof {
            lemma_fundamental_div_mod((m - 1) as int, d as int);
            let rem: int = ((m - 1) as int) % (d as int);
            assert(d * up == up * d) by (nonlinear_arith);
            assert((-up - 1) * d == -(up * d) - d) by (nonlinear_arith);
            lemma_fundamental_div_mod_converse(n as int, d as int, -up - 1, d - rem - 1);
        }
        -up - 1
    }
}

/// `n / d` rounded to the nearest integer, a half rounding up.
pub fn div_round(n: i128, d: i128) -> (q: i128)
    requires
        d > 0,
        -0x2000_0000_0000_0000_0000_0000_0000_0000 <= n <= 0x2000_0000_0000_0000_0000_0000_0000_0000,
        d <= 0x2000_0000_0000_0000_0000_0000_0000_0000,
    ensures
        q == round_div(n as int, d as int),
{
    div_floor(2 * n + d, 2 * d)
}

/// The square root of `n` rounded down.
pub fn isqrt(n: u128) -> (r: u64)
    ensures
        r == floor_sqrt(n as int),
{
    let mut lo: u128 = 0;
    let mut hi: u128 = 0x1_0000_0000_0000_0000;
    while hi - lo > 1
        invariant
            lo < hi <= 0x1_0000_0000_0000_0000,
            lo * lo <= n,
            n < hi * hi,
        decreases hi - lo,
    {
        let mid: u128 = lo + (hi - lo) / 2;
        assert(mid * mid <= 0xffff_ffff_ffff_ffff * 0xffff_ffff_ffff_ffff) by (nonlinear_arith)
            requires
                0 <= mid <= 0xffff_ffff_ffff_ffff,
        ;
        if mid * mid <= n {
            lo = mid;
        } else {
            hi = mid;
        }
    }
    proof {
        lemma_floor_sqrt_unique(n as int, lo as int);
    }
    lo as u64
}

} // verus!
