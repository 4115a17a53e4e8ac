//! Distance between coordinates.
//!
//! Route compactness is measured with an exact fixed-point metric: the
//! Euclidean distance between two coordinates in microdegree units, rounded
//! down to an integer. Keeping the metric in integers makes every ranking
//! comparison exact and reproducible; the ranker only ever compares
//! distances of city-scale routes against each other, so the unit itself is
//! a policy scale, not a contract.

use vstd::prelude::*;

use crate::model::Location;

verus! {

/// Largest value ever passed to the square root: the squared distance of
/// two opposite corners of the coordinate space, `2 * (360e6)^2`.
pub const MAX_SQUARE: u64 = 259_200_000_000_000_000;

/// Upper bound of a single leg distance: the integer square root of
/// [`MAX_SQUARE`] is below this.
pub const MAX_LEG: u64 = 509_116_883;

/// `r` is the integer square root of `n`, rounded down.
pub open spec fn is_isqrt(n: int, r: int) -> bool {
    &&& 0 <= r
    &&& r * r <= n
    &&& n < (r + 1) * (r + 1)
}

/// The integer square root of `n`, rounded down (meaningful for `n >= 0`).
pub closed spec fn isqrt(n: int) -> int {
    choose|r: int| is_isqrt(n, r)
}

/// An integer square root exists for every non-negative integer.
pub proof fn lemma_isqrt_exists(n: nat)
    ensures
        exists|r: int| is_isqrt(n as int, r),
    decreases n,
{
    if n == 0 {
        assert(is_isqrt(0, 0));
    } else {
        lemma_isqrt_exists((n - 1) as nat);
        let m: int = n - 1;
        let r = choose|r: int| is_isqrt(m, r);
        if (r + 1) * (r + 1) <= n {
            assert((r + 1) * (r + 1) < (r + 2) * (r + 2)) by (nonlinear_arith)
                requires
                    r >= 0,
            ;
            assert(is_isqrt(n as int, r + 1));
        } else {
            assert(is_isqrt(n as int, r));
        }
    }
}

/// The integer square root is unique.
pub proof fn lemma_isqrt_unique(n: int, a: int, b: int)
    requires
        is_isqrt(n, a),
        is_isqrt(n, b),
    ensures
        a == b,
{
    assert(a < b ==> (a + 1) * (a + 1) <= b * b) by (nonlinear_arith)
        requires
            0 <= a,
            0 <= b,
    ;
    assert(b < a ==> (b + 1) * (b + 1) <= a * a) by (nonlinear_arith)
        requires
            0 <= a,
            0 <= b,
    ;
}

/// Any witness of [`is_isqrt`] is the value of [`isqrt`].
pub proof fn lemma_isqrt_is(n: int, r: int)
    requires
        is_isqrt(n, r),
    ensures
        isqrt(n) == r,
{
    lemma_isqrt_unique(n, r, isqrt(n));
}

/// Integer square root by binary search.
pub fn isqrt64(n: u64) -> (r: u64)
    requires
        n <= MAX_SQUARE,
    ensures
        is_isqrt(n as int, r as int),
        r as int == isqrt(n as int),
        r <= MAX_LEG,
{
    let mut lo: u64 = 0;
    let mut hi: u64 = 600_000_000;
    assert(hi * hi > n);
    while lo + 1 < hi
        invariant
            lo < hi,
            hi <= 600_000_000,
            lo * lo <= n,
            n < hi * hi,
        decreases hi - lo,
    {
        let mid = lo + (hi - lo) / 2;
        proof {
            assert(mid * mid <= 600_000_000 * 600_000_000) by (nonlinear_arith)
                requires
                    0 <= mid <= 600_000_000,
            ;
        }
        if mid * mid <= n {
            lo = mid;
        } else {
            hi = mid;
        }
    }
    assert(is_isqrt(n as int, lo as int));
    proof {
        lemma_isqrt_is(n as int, lo as int);
        assert(lo <= MAX_LEG) by (nonlinear_arith)
            requires
                lo * lo <= MAX_SQUARE,
        ;
    }
    lo
}

/// Distance between two coordinates, in microdegree units rounded down.
pub open spec fn spec_distance(a: Location, b: Location) -> int {
    isqrt((a.x - b.x) * (a.x - b.x) + (a.y - b.y) * (a.y - b.y))
}

/// Compute the distance between two coordinates.
pub fn distance(a: &Location, b: &Location) -> (r: u64)
    requires
        a.wf(),
        b.wf(),
    ensures
        r as int == spec_distance(*a, *b),
        r <= MAX_LEG,
{
    let dx: i64 = a.x - b.x;
    let dy: i64 = a.y - b.y;
    proof {
        assert(dx * dx <= 360_000_000 * 360_000_000 && dx * dx >= 0) by (nonlinear_arith)
            requires
                -360_000_000 <= dx <= 360_000_000,
        ;
        assert(dy * dy <= 360_000_000 * 360_000_000 && dy * dy >= 0) by (nonlinear_arith)
            requires
                -360_000_000 <= dy <= 360_000_000,
        ;
    }
    let sq: u64 = ((dx * dx) as u64) + ((dy * dy) as u64);
    isqrt64(sq)
}

/// The distance between two coordinates on the globe is non-negative and
/// at most [`MAX_LEG`].
pub proof fn lemma_distance_bounds(a: Location, b: Location)
    requires
        a.wf(),
        b.wf(),
    ensures
        0 <= spec_distance(a, b) <= MAX_LEG,
{
    let dx = a.x - b.x;
    let dy = a.y - b.y;
    let n = dx * dx + dy * dy;
    assert(0 <= dx * dx <= 360_000_000 * 360_000_000) by (nonlinear_arith)
        requires
            -360_000_000 <= dx <= 360_000_000,
    ;
    assert(0 <= dy * dy <= 360_000_000 * 360_000_000) by (nonlinear_arith)
        requires
            -360_000_000 <= dy <= 360_000_000,
    ;
    lemma_isqrt_exists(n as nat);
    assert(is_isqrt(n, isqrt(n)));
    assert(isqrt(n) <= MAX_LEG) by (nonlinear_arith)
        requires
            isqrt(n) * isqrt(n) <= n,
            n <= MAX_SQUARE as int,
            isqrt(n) >= 0,
    ;
}

/// Distance is symmetric: measuring from `a` to `b` equals measuring from
/// `b` to `a`.
pub proof fn lemma_distance_symmetric(a: Location, b: Location)
    ensures
        spec_distance(a, b) == spec_distance(b, a),
{
    assert((a.x - b.x) * (a.x - b.x) == (b.x - a.x) * (b.x - a.x)) by (nonlinear_arith);
    assert((a.y - b.y) * (a.y - b.y) == (b.y - a.y) * (b.y - a.y)) by (nonlinear_arith);
}

/// The distance from a coordinate to itself is zero.
pub proof fn lemma_distance_self(a: Location)
    ensures
        spec_distance(a, a) == 0,
{
    assert(is_isqrt(0, 0));
    lemma_isqrt_is(0, 0);
}

} // verus!
