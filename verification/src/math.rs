//! Integer square root and the normalization of a signed distance into an
//! 8-bit value.
//!
//! The distance field maps a pixel's minimum squared distance `d` to
//! `floor(127.5 + sign * (sqrt(d) - 0.5) * 128 / spread)`, clamped to
//! `[0, 255]`, where the sign is positive inside the shape and negative
//! outside. Multiplying numerator and denominator by `2 * spread` turns this
//! into exact integer arithmetic:
//!
//! `(255 * spread + sign * (256 * sqrt(d) - 128)) / (2 * spread)`
//!
//! whose floor needs only `floor(256 * sqrt(d)) = floor(sqrt(65536 * d))`
//! for the positive sign, and `ceil(256 * sqrt(d))` for the negative one.

use vstd::arithmetic::div_mod::lemma_fundamental_div_mod;
use vstd::arithmetic::div_mod::lemma_fundamental_div_mod_converse;
use vstd::arithmetic::div_mod::lemma_mod_bound;
use vstd::prelude::*;

verus! {

/// `r` is the integer square root of `n`.
pub open spec fn is_sqrt(n: int, r: int) -> bool {
    0 <= r && r * r <= n && n < (r + 1) * (r + 1)
}

/// The integer square root of `n`: the unique `r >= 0` with
/// `r * r <= n < (r + 1) * (r + 1)`.
pub open spec fn sqrt_floor(n: int) -> int {
    choose|r: int| #[trigger] is_sqrt(n, r)
}

/// Every nonnegative integer has an integer square root.
pub proof fn lemma_sqrt_exists(n: int)
    requires
        n >= 0,
    ensures
        exists|r: int| #[trigger] is_sqrt(n, r),
    decreases n,
{
    if n == 0 {
        assert(is_sqrt(0, 0));
    } else {
        lemma_sqrt_exists(n - 1);
        let r0 = choose|r: int| #[trigger] is_sqrt(n - 1, r);
        if n < (r0 + 1) * (r0 + 1) {
            assert(is_sqrt(n, r0));
        } else {
            assert(n == (r0 + 1) * (r0 + 1));
            assert((r0 + 1) * (r0 + 1) < (r0 + 2) * (r0 + 2)) by (nonlinear_arith)
                requires
                    r0 >= 0,
            ;
            assert(is_sqrt(n, r0 + 1));
        }
    }
}

/// The integer square root is unique.
pub proof fn lemma_sqrt_unique(n: int, r1: int, r2: int)
    requires
        is_sqrt(n, r1),
        is_sqrt(n, r2),
    ensures
        r1 == r2,
{
    assert(r1 == r2) by (nonlinear_arith)
        requires
            0 <= r1,
            0 <= r2,
            r1 * r1 <= n,
            n < (r1 + 1) * (r1 + 1),
            r2 * r2 <= n,
            n < (r2 + 1) * (r2 + 1),
    ;
}

/// `sqrt_floor` satisfies its defining property on nonnegative input.
pub proof fn lemma_sqrt_floor(n: int)
    requires
        n >= 0,
    ensures
        is_sqrt(n, sqrt_floor(n)),
{
    lemma_sqrt_exists(n);
}

/// Integer square root, by binary search.
pub fn isqrt(n: u64) -> (r: u64)
    requires
        n < 0x1_0000_0000,
    ensures
        r == sqrt_floor(n as int),
{
    let mut lo: u64 = 0;
    let mut hi: u64 = 0x1_0000;
    while lo + 1 < hi
        invariant
            lo < hi <= 0x1_0000,
            lo * lo <= n,
            n < hi * hi,
        decreases hi - lo,
    {
        let mid = lo + (hi - lo) / 2;
        proof {
            assert(mid * mid <= 0x1_0000 * 0x1_0000) by (nonlinear_arith)
                requires
                    0 <= mid <= 0x1_0000,
            ;
        }
        if mid * mid <= n {
            lo = mid;
        } else {
            hi = mid;
        }
    }
    proof {
        assert(is_sqrt(n as int, lo as int));
        lemma_sqrt_floor(n as int);
        lemma_sqrt_unique(n as int, lo as int, sqrt_floor(n as int));
    }
    lo
}

/// Clamps an integer into the 8-bit range.
pub open spec fn clamp_u8(v: int) -> int {
    if v < 0 {
        0
    } else if v > 255 {
        255
    } else {
        v
    }
}

/// The normalized 8-bit encoding of the signed distance of a pixel whose
/// minimum squared boundary distance is `d` and whose occupancy is `on`:
/// `floor(127.5 + sign * (sqrt(d) - 0.5) * 128 / spread)` clamped to
/// `[0, 255]`, with the sign positive for an "on" pixel.
///
/// A `spread` of zero makes the search window empty and the divisor zero;
/// there the encoding degenerates to the saturated extremes, 0 inside the
/// shape and 255 outside (the sentinel distance is `-0.5`, whose sign makes
/// the quotient's limit negative inside and positive outside).
pub open spec fn normalized(d: int, on: bool, spread: int) -> int {
    if spread <= 0 {
        if on {
            0
        } else {
            255
        }
    } else {
        let r = sqrt_floor(65536 * d);
        if on {
            clamp_u8((255 * spread - 128 + r) / (2 * spread))
        } else {
            let rc = if r * r == 65536 * d {
                r
            } else {
                r + 1
            };
            clamp_u8((255 * spread + 128 - rc) / (2 * spread))
        }
    }
}

/// Every normalized value lies in the 8-bit range.
pub proof fn lemma_normalized_in_range(d: int, on: bool, spread: int)
    ensures
        0 <= normalized(d, on, spread) <= 255,
{
}

/// Sign correctness: for two pixels at the same boundary distance `d`, one
/// inside the shape and one outside, the two normalized values are symmetric
/// about 127.5 up to the quantization of the floor: they sum to 254 or 255.
pub proof fn lemma_sign_symmetry(d: int, spread: int)
    requires
        1 <= spread,
        0 <= d <= spread * spread,
    ensures
        254 <= normalized(d, true, spread) + normalized(d, false, spread) <= 255,
{
    let n = 65536 * d;
    lemma_sqrt_floor(n);
    let r = sqrt_floor(n);
    let c = 2 * spread;
    let rc: int = if r * r == n {
        r
    } else {
        r + 1
    };
    assert(r <= 256 * spread) by (nonlinear_arith)
        requires
            r >= 0,
            r * r <= n,
            n <= 65536 * (spread * spread),
            spread >= 1,
    ;
    if rc == r + 1 {
        assert(r < 256 * spread) by (nonlinear_arith)
            requires
                r >= 0,
                r * r <= n,
                n <= 65536 * (spread * spread),
                r * r != n,
                r <= 256 * spread,
                spread >= 1,
        ;
    }
    let a = 255 * spread - 128 + r;
    let b = 255 * spread + 128 - rc;
    let q = a / c;
    let rho = a % c;
    lemma_fundamental_div_mod(a, c);
    lemma_mod_bound(a, c);
    assert(0 <= q <= 255) by (nonlinear_arith)
        requires
            a == c * q + rho,
            0 <= rho < c,
            0 <= a < 256 * c,
            c >= 2,
    ;
    assert(normalized(d, true, spread) == q);
    let delta = rc - r;
    assert(a + b == 255 * c - delta);
    if rho + delta == 0 {
        assert(b == (255 - q) * c + 0) by (nonlinear_arith)
            requires
                a == c * q + rho,
                a + b == 255 * c - delta,
                rho == 0,
                delta == 0,
        ;
        lemma_fundamental_div_mod_converse(b, c, 255 - q, 0);
        assert(normalized(d, false, spread) == clamp_u8(255 - q));
    } else {
        assert(b == (254 - q) * c + (c - rho - delta)) by (nonlinear_arith)
            requires
                a == c * q + rho,
                a + b == 255 * c - delta,
        ;
        assert(0 <= c - rho - delta < c);
        lemma_fundamental_div_mod_converse(b, c, 254 - q, c - rho - delta);
        assert(normalized(d, false, spread) == clamp_u8(254 - q));
        if q == 255 {
            assert(normalized(d, false, spread) == 0);
        }
    }
}

/// A nonpositive numerator divided by a positive divisor is nonpositive.
proof fn lemma_div_nonpos(x: int, d: int)
    requires
        x <= 0,
        d > 0,
    ensures
        x / d <= 0,
{
    lemma_fundamental_div_mod(x, d);
    lemma_mod_bound(x, d);
    assert(x / d <= 0) by (nonlinear_arith)
        requires
            x == d * (x / d) + (x % d),
            x <= 0,
            d > 0,
            0 <= x % d < d,
    ;
}

/// Computes the normalized 8-bit value for a squared distance `d` capped by
/// the sentinel `spread * spread`.
pub fn normalized_value(d: u32, on: bool, spread: u8) -> (v: u8)
    requires
        d <= spread * spread,
    ensures
        v == normalized(d as int, on, spread as int),
{
    if spread == 0 {
        if on {
            0
        } else {
            255
        }
    } else {
        let s = spread as u64;
        let n: u64 = 65536 * (d as u64);
        proof {
            assert(d <= 255 * 255) by (nonlinear_arith)
                requires
                    d <= spread * spread,
                    spread <= 255,
            ;
        }
        let r = isqrt(n);
        proof {
            lemma_sqrt_floor(n as int);
            assert(r < 0x1_0000) by (nonlinear_arith)
                requires
                    r * r <= n < 0x1_0000_0000,
                    r >= 0,
            ;
        }
        let c = 2 * s;
        if on {
            let num = 255 * s - 128 + r;
            let q = num / c;
            if q > 255 {
                255
            } else {
                q as u8
            }
        } else {
            let rc = if r * r == n {
                r
            } else {
                r + 1
            };
            let m = 255 * s + 128;
            if rc > m {
                proof {
                    lemma_div_nonpos(255 * spread + 128 - rc, 2 * spread as int);
                }
                0
            } else {
                let q = (m - rc) / c;
                if q > 255 {
                    255
                } else {
                    q as u8
                }
            }
        }
    }
}

} // verus!

