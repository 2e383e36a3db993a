//! Color samples and the integer Euclidean distance between them.
//!
//! The distance compares the red, green and blue channels only; the alpha
//! channel never influences dissimilarity, although it does take part in
//! cluster mean aggregation.

use vstd::prelude::*;

verus! {

/// One pixel's color: red, green, blue and alpha channels, 8 bits each.
#[derive(Clone, Copy, PartialEq, Eq, Structural, Debug)]
pub struct Rgba {
    pub r: u8,
    pub g: u8,
    pub b: u8,
    pub a: u8,
}

/// Squared Euclidean distance over the red, green and blue channels.
/// The alpha channel is deliberately excluded.
pub open spec fn sq_dist(a: Rgba, b: Rgba) -> int {
    (a.r - b.r) * (a.r - b.r) + (a.g - b.g) * (a.g - b.g) + (a.b - b.b) * (a.b - b.b)
}

/// Upper bound of `sq_dist`: three times 255 squared.
pub open spec fn sq_dist_max() -> int {
    195075
}

/// Floor of the square root of `n`.
pub open spec fn sqrt_floor(n: nat) -> nat
    decreases n,
{
    if n == 0 {
        0
    } else {
        let r = sqrt_floor((n - 1) as nat);
        if (r + 1) * (r + 1) <= n {
            (r + 1) as nat
        } else {
            r
        }
    }
}

/// The color distance: floor of the square root of the squared channel
/// differences, alpha excluded.
pub open spec fn spec_distance(a: Rgba, b: Rgba) -> nat {
    sqrt_floor(sq_dist(a, b) as nat)
}

/// The squared distance is a sum of squares: nonnegative, and at most
/// three times 255 squared.
pub proof fn lemma_sq_dist_bounds(a: Rgba, b: Rgba)
    ensures
        0 <= sq_dist(a, b) <= sq_dist_max(),
{
    assert(0 <= sq_dist(a, b) <= 195075) by (nonlinear_arith)
        requires
            -255 <= a.r - b.r <= 255,
            -255 <= a.g - b.g <= 255,
            -255 <= a.b - b.b <= 255,
            sq_dist(a, b) == (a.r - b.r) * (a.r - b.r) + (a.g - b.g) * (a.g - b.g) + (a.b - b.b)
                * (a.b - b.b),
    ;
}

/// `sqrt_floor(n)` really is the floor of the square root of `n`.
pub proof fn lemma_sqrt_floor_bounds(n: nat)
    ensures
        sqrt_floor(n) * sqrt_floor(n) <= n,
        n < (sqrt_floor(n) + 1) * (sqrt_floor(n) + 1),
    decreases n,
{
    let s = sqrt_floor(n);
    if n == 0 {
        assert(s == 0);
        assert(s * s <= n && n < (s + 1) * (s + 1)) by (nonlinear_arith)
            requires
                n == 0,
                s == 0,
        ;
    } else {
        let p = sqrt_floor((n - 1) as nat);
        lemma_sqrt_floor_bounds((n - 1) as nat);
        assert(p * p <= n - 1);
        assert(n - 1 < (p + 1) * (p + 1));
        if (p + 1) * (p + 1) <= n {
            assert(s == (p + 1) as nat);
            assert(s * s <= n && n < (s + 1) * (s + 1)) by (nonlinear_arith)
                requires
                    s == p + 1,
                    n - 1 < (p + 1) * (p + 1),
                    (p + 1) * (p + 1) <= n,
                    0 <= p,
            ;
        } else {
            assert(s == p);
            assert(s * s <= n && n < (s + 1) * (s + 1)) by (nonlinear_arith)
                requires
                    s == p,
                    p * p <= n - 1,
                    !((p + 1) * (p + 1) <= n),
                    1 <= n,
            ;
        }
    }
}

/// Any value bracketed the way `sqrt_floor(n)` is must equal it.
pub proof fn lemma_sqrt_floor_unique(n: nat, r: nat)
    requires
        r * r <= n,
        n < (r + 1) * (r + 1),
    ensures
        r == sqrt_floor(n),
{
    let s = sqrt_floor(n);
    lemma_sqrt_floor_bounds(n);
    assert(r == s) by (nonlinear_arith)
        requires
            r * r <= n,
            n < (r + 1) * (r + 1),
            s * s <= n,
            n < (s + 1) * (s + 1),
            0 <= r,
            0 <= s,
    ;
}

/// Floor integer square root by linear search from below.
fn isqrt(n: usize) -> (r: usize)
    requires
        n <= sq_dist_max(),
    ensures
        r as nat == sqrt_floor(n as nat),
{
    let mut r: usize = 0;
    loop
        invariant
            n <= 195075,
            r * r <= n,
            r <= 441,
        decreases n - r * r,
    {
        assert((r + 1) * (r + 1) <= 195364) by (nonlinear_arith)
            requires
                0 <= r <= 441,
        ;
        if (r + 1) * (r + 1) <= n {
            assert(r + 1 <= 441) by (nonlinear_arith)
                requires
                    (r + 1) * (r + 1) <= 195075,
                    0 <= r,
            ;
            assert(r * r < (r + 1) * (r + 1)) by (nonlinear_arith)
                requires
                    0 <= r,
            ;
            r = r + 1;
        } else {
            proof {
                assert((r as nat) * (r as nat) <= n as nat && (n as nat) < ((r as nat) + 1) * ((
                r as nat) + 1)) by (nonlinear_arith)
                    requires
                        r * r <= n,
                        !((r + 1) * (r + 1) <= n),
                        0 <= r,
                        0 <= n,
                ;
                lemma_sqrt_floor_unique(n as nat, r as nat);
            }
            return r;
        }
    }
}

/// Integer Euclidean distance between two colors over the red, green and
/// blue channels, the floor of the exact square root; alpha is ignored.
pub fn distance(pixel: &Rgba, center: &Rgba) -> (d: usize)
    ensures
        d as nat == spec_distance(*pixel, *center),
        d <= 441,
{
    let dr: usize = if pixel.r >= center.r {
        (pixel.r - center.r) as usize
    } else {
        (center.r - pixel.r) as usize
    };
    let dg: usize = if pixel.g >= center.g {
        (pixel.g - center.g) as usize
    } else {
        (center.g - pixel.g) as usize
    };
    let db: usize = if pixel.b >= center.b {
        (pixel.b - center.b) as usize
    } else {
        (center.b - pixel.b) as usize
    };
    assert(dr * dr == (pixel.r - center.r) * (pixel.r - center.r) && dr * dr <= 65025)
        by (nonlinear_arith)
        requires
            dr == pixel.r - center.r || dr == center.r - pixel.r,
            0 <= dr <= 255,
    ;
    assert(dg * dg == (pixel.g - center.g) * (pixel.g - center.g) && dg * dg <= 65025)
        by (nonlinear_arith)
        requires
            dg == pixel.g - center.g || dg == center.g - pixel.g,
            0 <= dg <= 255,
    ;
    assert(db * db == (pixel.b - center.b) * (pixel.b - center.b) && db * db <= 65025)
        by (nonlinear_arith)
        requires
            db == pixel.b - center.b || db == center.b - pixel.b,
            0 <= db <= 255,
    ;
    let sum: usize = dr * dr + dg * dg + db * db;
    assert(sum as int == sq_dist(*pixel, *center));
    let d = isqrt(sum);
    proof {
        lemma_sqrt_floor_bounds(sum as nat);
        assert(d <= 441) by (nonlinear_arith)
            requires
                d as nat == sqrt_floor(sum as nat),
                sqrt_floor(sum as nat) * sqrt_floor(sum as nat) <= sum as nat,
                sum <= 195075,
        ;
    }
    d
}

/// A color is at distance zero from itself.
pub proof fn lemma_distance_self_zero(a: Rgba)
    ensures
        spec_distance(a, a) == 0,
{
    assert(sq_dist(a, a) == 0);
    assert(sqrt_floor(0) == 0);
}

/// The color distance is symmetric in its two arguments.
pub proof fn lemma_distance_symmetric(a: Rgba, b: Rgba)
    ensures
        spec_distance(a, b) == spec_distance(b, a),
{
    assert(sq_dist(a, b) == sq_dist(b, a)) by (nonlinear_arith)
        requires
            sq_dist(a, b) == (a.r - b.r) * (a.r - b.r) + (a.g - b.g) * (a.g - b.g) + (a.b - b.b)
                * (a.b - b.b),
            sq_dist(b, a) == (b.r - a.r) * (b.r - a.r) + (b.g - a.g) * (b.g - a.g) + (b.b - a.b)
                * (b.b - a.b),
    ;
}

/// The distance is zero exactly when the red, green and blue channels match;
/// the alpha channels may differ freely.
pub proof fn lemma_distance_zero_iff(a: Rgba, b: Rgba)
    ensures
        spec_distance(a, b) == 0 <==> (a.r == b.r && a.g == b.g && a.b == b.b),
{
    lemma_sq_dist_bounds(a, b);
    let n = sq_dist(a, b) as nat;
    if spec_distance(a, b) == 0 {
        lemma_sqrt_floor_bounds(n);
        assert(sq_dist(a, b) == 0) by (nonlinear_arith)
            requires
                n < (sqrt_floor(n) + 1) * (sqrt_floor(n) + 1),
                sqrt_floor(n) == 0,
                n == sq_dist(a, b),
        ;
        assert(a.r == b.r && a.g == b.g && a.b == b.b) by (nonlinear_arith)
            requires
                (a.r - b.r) * (a.r - b.r) + (a.g - b.g) * (a.g - b.g) + (a.b - b.b) * (a.b - b.b)
                    == 0,
        ;
    } else {
        if a.r == b.r && a.g == b.g && a.b == b.b {
            assert(sq_dist(a, b) == 0) by (nonlinear_arith)
                requires
                    a.r == b.r,
                    a.g == b.g,
                    a.b == b.b,
                    sq_dist(a, b) == (a.r - b.r) * (a.r - b.r) + (a.g - b.g) * (a.g - b.g) + (
                    a.b - b.b) * (a.b - b.b),
            ;
            assert(sqrt_floor(0) == 0);
        }
    }
}

} // verus!
