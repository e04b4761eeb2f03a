//! Plane vectors and the integer arithmetic the physics is built on.
use vstd::prelude::*;

verus! {

/// A point, displacement or velocity in the plane.
#[derive(Clone, Copy, Debug, PartialEq, Eq, Structural)]
pub struct Vec2 {
    pub x: i64,
    pub y: i64,
}

impl Vec2 {
    pub fn new(x: i64, y: i64) -> (r: Vec2)
        ensures
            r.x == x,
            r.y == y,
    {
        Vec2 { x, y }
    }

    /// Squared Euclidean length.
    pub open spec fn norm_sq(self) -> int {
        self.x * self.x + self.y * self.y
    }
}

/// Squared distance between two points.
pub open spec fn dist_sq(a: Vec2, b: Vec2) -> int {
    (a.x - b.x) * (a.x - b.x) + (a.y - b.y) * (a.y - b.y)
}

/// The integer square root: the largest `r` with `r * r <= n`.
pub open spec fn floor_sqrt(n: nat) -> nat
    decreases n,
{
    if n == 0 {
        0
    } else {
        let r = floor_sqrt((n - 1) as nat);
        if (r + 1) * (r + 1) <= n {
            r + 1
        } else {
            r
        }
    }
}

/// The smallest `r` with `n <= r * r`.
pub open spec fn ceil_sqrt(n: nat) -> nat {
    let r = floor_sqrt(n);
    if r * r < n {
        r + 1
    } else {
        r
    }
}

/// `n / d` rounded toward zero, for a positive divisor.
pub open spec fn quot_toward_zero(n: int, d: int) -> int {
    if n >= 0 {
        n / d
    } else {
        -((-n) / d)
    }
}

/// `n / d` rounded away from zero, for a positive divisor.
pub open spec fn quot_away_from_zero(n: int, d: int) -> int {
    if n >= 0 {
        (n + d - 1) / d
    } else {
        -((-n + d - 1) / d)
    }
}

pub open spec fn abs(a: int) -> int {
    if a < 0 {
        -a
    } else {
        a
    }
}

/// `|q| * d <= |n|` for the quotient rounded toward zero.
pub proof fn lemma_quot_toward_zero(n: int, d: int)
    requires
        d > 0,
    ensures
        abs(quot_toward_zero(n, d)) * d <= abs(n),
        quot_toward_zero(n, d) * quot_toward_zero(n, d) * (d * d) <= n * n,
{
    let q = quot_toward_zero(n, d);
    let m = abs(n);
    assert((m / d) * d <= m) by (nonlinear_arith)
        requires
            d > 0,
            m >= 0,
    ;
    assert(abs(q) == m / d);
    assert(m / d >= 0) by (nonlinear_arith)
        requires
            d > 0,
            m >= 0,
    ;
    let a = abs(q);
    assert(a * a * (d * d) <= m * m) by (nonlinear_arith)
        requires
            a >= 0,
            a * d <= m,
            d > 0,
    ;
    assert(q * q == a * a) by (nonlinear_arith)
        requires
            a == q || a == -q,
    ;
    assert(n * n == m * m) by (nonlinear_arith)
        requires
            m == n || m == -n,
    ;
}

/// [`floor_sqrt`] is the integer square root.
pub proof fn lemma_floor_sqrt(n: nat)
    ensures
        floor_sqrt(n) * floor_sqrt(n) <= n,
        n < (floor_sqrt(n) + 1) * (floor_sqrt(n) + 1),
    decreases n,
{
    if n > 0 {
        lemma_floor_sqrt((n - 1) as nat);
        let r = floor_sqrt((n - 1) as nat);
        assert((r + 1) * (r + 1) < (r + 2) * (r + 2)) by (nonlinear_arith);
        let f = floor_sqrt(n);
        if (r + 1) * (r + 1) <= n {
            assert(f == r + 1);
            assert(f * f <= n);
            assert(n < (f + 1) * (f + 1));
        } else {
            assert(f == r);
            assert(f * f <= n);
            assert(n < (f + 1) * (f + 1));
        }
    } else {
        let f = floor_sqrt(n);
        assert(f == 0);
        assert(f * f <= n && n < (f + 1) * (f + 1)) by (nonlinear_arith)
            requires
                f == 0,
                n == 0,
        ;
    }
}

/// The integer square root is the only `r` with `r * r <= n < (r + 1) * (r + 1)`.
pub proof fn lemma_sqrt_unique(n: nat, r: nat)
    requires
        r * r <= n,
        n < (r + 1) * (r + 1),
    ensures
        r == floor_sqrt(n),
{
    lemma_floor_sqrt(n);
    let f = floor_sqrt(n);
    if r < f {
        assert((r + 1) * (r + 1) <= f * f) by (nonlinear_arith)
            requires
                r + 1 <= f,
        ;
    } else if f < r {
        assert((f + 1) * (f + 1) <= r * r) by (nonlinear_arith)
            requires
                f + 1 <= r,
        ;
    }
}

/// [`ceil_sqrt`] squared reaches `n`.
pub proof fn lemma_ceil_sqrt(n: nat)
    ensures
        n <= ceil_sqrt(n) * ceil_sqrt(n),
        n > 0 ==> ceil_sqrt(n) > 0,
{
    lemma_floor_sqrt(n);
}

/// Bound on the argument of [`isqrt`].
pub const ISQRT_LIMIT: u128 = 0x1000_0000_0000_0000_0000_0000_0000_0000;

/// The integer square root, by bisection.
pub fn isqrt(n: u128) -> (r: u128)
    requires
        n < ISQRT_LIMIT,
    ensures
        r == floor_sqrt(n as nat),
        r < 0x4000_0000_0000_0000,
{
    let mut lo: u128 = 0;
    let mut hi: u128 = 0x4000_0000_0000_0000;
    assert(hi * hi == ISQRT_LIMIT);
    while hi - lo > 1
        invariant
            lo < hi <= 0x4000_0000_0000_0000,
            lo * lo <= n,
            n < hi * hi,
        decreases hi - lo,
    {
        let mid = lo + (hi - lo) / 2;
        assert(mid * mid < ISQRT_LIMIT) by (nonlinear_arith)
            requires
                mid < 0x4000_0000_0000_0000u128,
        ;
        if mid * mid <= n {
            lo = mid;
        } else {
            hi = mid;
        }
    }
    proof {
        lemma_sqrt_unique(n as nat, lo as nat);
    }
    lo
}

/// The smallest `r` with `n <= r * r`.
pub fn ceil_isqrt(n: u128) -> (r: u128)
    requires
        n < ISQRT_LIMIT,
    ensures
        r == ceil_sqrt(n as nat),
        r <= 0x4000_0000_0000_0000,
{
    let r = isqrt(n);
    proof {
        lemma_floor_sqrt(n as nat);
    }
    if r * r < n {
        r + 1
    } else {
        r
    }
}

/// `n / d` rounded toward zero.
pub fn div_toward_zero(n: i128, d: i128) -> (q: i128)
    requires
        d > 0,
        n > i128::MIN,
    ensures
        q == quot_toward_zero(n as int, d as int),
{
    if n >= 0 {
        n / d
    } else {
        -((-n) / d)
    }
}

/// `n / d` rounded away from zero.
pub fn div_away_from_zero(n: i128, d: i128) -> (q: i128)
    requires
        d > 0,
        -0x4000_0000_0000_0000_0000_0000_0000_0000 < n < 0x4000_0000_0000_0000_0000_0000_0000_0000,
        d < 0x4000_0000_0000_0000_0000_0000_0000_0000,
    ensures
        q == quot_away_from_zero(n as int, d as int),
{
    if n >= 0 {
        (n + d - 1) / d
    } else {
        -((-n + d - 1) / d)
    }
}

} // verus!
