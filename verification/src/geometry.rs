//! Pixel geometry of the pointy-topped layout, in exact integer arithmetic.
//!
//! A border point is the middle of the edge between a tile and one of its
//! neighbours. In a layout whose cell centres are `HEX_SIZE + HEX_GAP` apart
//! per unit of the layout, two such points whose doubled hex coordinates
//! differ by `(dq, dr)` lie `sqrt(3 * spacing² * (dq² + dq·dr + dr²)) / 2`
//! pixels apart, so distances are compared without leaving the integers.

use crate::coordinate::HexCoordinate;
use vstd::prelude::*;

verus! {

/// Edge length of a hexagon, in pixels.
pub const HEX_SIZE: i32 = 40;

/// Twice the width of the gap between adjacent hexagons (the gap is 2.5 pixels).
pub const TWICE_HEX_GAP: i32 = 5;

/// Twice the layout's cell size `HEX_SIZE + HEX_GAP`.
pub const TWICE_SPACING: i32 = 2 * HEX_SIZE + TWICE_HEX_GAP;

/// The middle of the edge between a tile and one of its neighbours.
#[derive(Clone, Copy, Debug, PartialEq, Eq, Hash, Structural)]
pub struct BorderPoint {
    /// The tile whose territory the point bounds.
    pub tile: HexCoordinate,
    /// The adjacent cell on the other side of the edge.
    pub neighbor: HexCoordinate,
}

/// Twice the hex coordinates of the point: the sum of the two cells.
pub open spec fn twice_mid(p: BorderPoint) -> (int, int) {
    (p.tile.q + p.neighbor.q, p.tile.r + p.neighbor.r)
}

/// The two points lie at the same place.
pub open spec fn same_place(a: BorderPoint, b: BorderPoint) -> bool {
    twice_mid(a) == twice_mid(b)
}

/// Squared length of the hex-lattice vector `(dq, dr)`, in units of the
/// distance between adjacent cell centres.
pub open spec fn lattice_norm(dq: int, dr: int) -> int {
    dq * dq + dq * dr + dr * dr
}

/// The squared lattice length between the doubled midpoints of two points.
pub open spec fn norm_between(a: BorderPoint, b: BorderPoint) -> int {
    lattice_norm(twice_mid(a).0 - twice_mid(b).0, twice_mid(a).1 - twice_mid(b).1)
}

/// `d` is the integer part of the square root of `x`.
pub open spec fn is_floor_sqrt(x: int, d: int) -> bool {
    0 <= d && d * d <= x < (d + 1) * (d + 1)
}

/// The integer part of the square root of `x`.
pub open spec fn floor_sqrt(x: int) -> int {
    choose|d: int| is_floor_sqrt(x, d)
}

/// The whole pixels in the squared distance that belongs to a squared lattice length.
pub open spec fn squared_pixels(norm: int) -> int {
    3 * TWICE_SPACING * TWICE_SPACING * norm / 16
}

/// Distance in whole pixels that belongs to a squared lattice length, cut
/// off at the largest `i32`.
pub open spec fn pixels_of_norm(norm: int) -> int {
    let d = floor_sqrt(squared_pixels(norm));
    if d > i32::MAX {
        i32::MAX as int
    } else {
        d
    }
}

/// Distance between two border points in whole pixels, rounded down.
pub open spec fn pixel_distance(a: BorderPoint, b: BorderPoint) -> int {
    pixels_of_norm(norm_between(a, b))
}

/// Two points are further apart than one hexagon edge is long.
pub open spec fn beyond_edge(a: BorderPoint, b: BorderPoint) -> bool {
    pixel_distance(a, b) > HEX_SIZE
}

/// At most one integer is the integer part of a square root.
pub proof fn lemma_floor_sqrt_unique(x: int, d: int, e: int)
    requires
        is_floor_sqrt(x, d),
        is_floor_sqrt(x, e),
    ensures
        d == e,
{
    if d < e {
        assert((d + 1) * (d + 1) <= e * e) by (nonlinear_arith)
            requires
                0 <= d,
                d + 1 <= e,
        ;
    }
    if e < d {
        assert((e + 1) * (e + 1) <= d * d) by (nonlinear_arith)
            requires
                0 <= e,
                e + 1 <= d,
        ;
    }
}

/// A witness settles the value of `floor_sqrt`.
pub proof fn lemma_floor_sqrt_is(x: int, d: int)
    requires
        is_floor_sqrt(x, d),
    ensures
        floor_sqrt(x) == d,
{
    lemma_floor_sqrt_unique(x, d, floor_sqrt(x));
}

/// The squared lattice length is never negative, and zero only for the zero vector.
pub proof fn lemma_lattice_norm_sign(dq: int, dr: int)
    ensures
        lattice_norm(dq, dr) >= 0,
        lattice_norm(dq, dr) == 0 <==> (dq == 0 && dr == 0),
{
    assert(4 * (dq * dq + dq * dr + dr * dr) == (2 * dq + dr) * (2 * dq + dr) + 3 * (dr * dr))
        by (nonlinear_arith);
    assert((2 * dq + dr) * (2 * dq + dr) >= 0) by (nonlinear_arith);
    assert(dr * dr >= 0) by (nonlinear_arith);
    if dr != 0 {
        assert(dr * dr > 0) by (nonlinear_arith)
            requires
                dr != 0,
        ;
    } else if dq != 0 {
        assert((2 * dq + dr) * (2 * dq + dr) > 0) by (nonlinear_arith)
            requires
                dr == 0,
                dq != 0,
        ;
    }
}

/// The pixel distances of the four shortest lattice lengths: the same place,
/// adjacent edge middles of one hexagon, and those two and three edges apart.
pub proof fn lemma_pixels_of_small_norms()
    ensures
        pixels_of_norm(0) == 0,
        pixels_of_norm(1) == 36,
        pixels_of_norm(3) == 63,
        pixels_of_norm(4) == 73,
{
    assert(TWICE_SPACING == 85);
    assert(3 * TWICE_SPACING * TWICE_SPACING == 21675) by (nonlinear_arith)
        requires
            TWICE_SPACING == 85,
    ;
    assert(squared_pixels(0) == 0);
    assert(squared_pixels(1) == 1354);
    assert(squared_pixels(3) == 4064);
    assert(squared_pixels(4) == 5418);
    lemma_floor_sqrt_is(0, 0);
    lemma_floor_sqrt_is(1354, 36);
    lemma_floor_sqrt_is(4064, 63);
    lemma_floor_sqrt_is(5418, 73);
}

/// Every number that is not negative has an integer part of its square root.
pub proof fn lemma_floor_sqrt_exists(x: int)
    requires
        x >= 0,
    ensures
        is_floor_sqrt(x, floor_sqrt(x)),
    decreases x,
{
    if x == 0 {
        lemma_floor_sqrt_is(0, 0);
    } else {
        lemma_floor_sqrt_exists(x - 1);
        let d = floor_sqrt(x - 1);
        if (d + 1) * (d + 1) <= x {
            assert(x < (d + 2) * (d + 2)) by (nonlinear_arith)
                requires
                    0 <= d,
                    x - 1 < (d + 1) * (d + 1),
            ;
            assert(is_floor_sqrt(x, d + 1));
        } else {
            assert(d * d <= x);
            assert(is_floor_sqrt(x, d));
        }
    }
}

/// No two border points are exactly one hexagon edge apart in whole pixels:
/// points at the same place are 0 pixels apart, the nearest distinct ones 36,
/// and all others more than 40. Going beyond one edge length and reaching it
/// are therefore the same.
pub proof fn distance_never_equals_the_edge_length(a: BorderPoint, b: BorderPoint)
    ensures
        pixel_distance(a, b) != HEX_SIZE,
        beyond_edge(a, b) <==> pixel_distance(a, b) >= HEX_SIZE,
        beyond_edge(a, b) <==> norm_between(a, b) >= 2,
{
    let norm = norm_between(a, b);
    lemma_lattice_norm_sign(twice_mid(a).0 - twice_mid(b).0, twice_mid(a).1 - twice_mid(b).1);
    lemma_pixels_of_small_norms();
    assert(TWICE_SPACING == 85);
    assert(3 * TWICE_SPACING * TWICE_SPACING == 21675) by (nonlinear_arith)
        requires
            TWICE_SPACING == 85,
    ;
    if norm >= 2 {
        let squared = squared_pixels(norm);
        assert(3 * TWICE_SPACING * TWICE_SPACING * norm == 21675 * norm) by (nonlinear_arith)
            requires
                3 * TWICE_SPACING * TWICE_SPACING == 21675,
        ;
        assert(squared >= 2709);
        lemma_floor_sqrt_exists(squared);
        let d = floor_sqrt(squared);
        if d <= 40 {
            assert((d + 1) * (d + 1) <= 1681) by (nonlinear_arith)
                requires
                    0 <= d <= 40,
            ;
        }
    }
}

/// Integer part of the square root, by bisection.
pub fn integer_sqrt(x: u128) -> (d: u128)
    ensures
        is_floor_sqrt(x as int, d as int),
        d == floor_sqrt(x as int),
{
    let mut low: u128 = 0;
    let mut high: u128 = 0x1_0000_0000_0000_0000;
    assert(0x1_0000_0000_0000_0000 * 0x1_0000_0000_0000_0000
        == 0x1_0000_0000_0000_0000_0000_0000_0000_0000int) by (nonlinear_arith);
    while high - low > 1
        invariant
            low < high <= 0x1_0000_0000_0000_0000,
            low * low <= x < high * high,
        decreases high - low,
    {
        let mid: u128 = low + (high - low) / 2;
        assert(mid * mid < 0x1_0000_0000_0000_0000_0000_0000_0000_0000) by (nonlinear_arith)
            requires
                0 <= mid < 0x1_0000_0000_0000_0000,
        ;
        if mid * mid <= x {
            low = mid;
        } else {
            high = mid;
        }
    }
    proof {
        lemma_floor_sqrt_is(x as int, low as int);
    }
    low
}

/// Distance between two border points in whole pixels, rounded down.
pub fn pixel_distance_between(a: BorderPoint, b: BorderPoint) -> (d: i32)
    ensures
        d == pixel_distance(a, b),
        d >= 0,
{
    let dq: i128 = (a.tile.q as i128 + a.neighbor.q as i128) - (b.tile.q as i128
        + b.neighbor.q as i128);
    let dr: i128 = (a.tile.r as i128 + a.neighbor.r as i128) - (b.tile.r as i128
        + b.neighbor.r as i128);
    proof {
        lemma_lattice_norm_sign(dq as int, dr as int);
        assert(dq * dq <= 0x4_0000_0000_0000_0000 && dr * dr <= 0x4_0000_0000_0000_0000 && -0x4_0000_0000_0000_0000
            <= dq * dr <= 0x4_0000_0000_0000_0000) by (nonlinear_arith)
            requires
                -0x2_0000_0000 <= dq <= 0x2_0000_0000,
                -0x2_0000_0000 <= dr <= 0x2_0000_0000,
        ;
    }
    let norm: i128 = dq * dq + dq * dr + dr * dr;
    assert(TWICE_SPACING == 85);
    assert(3 * TWICE_SPACING * TWICE_SPACING == 21675) by (nonlinear_arith)
        requires
            TWICE_SPACING == 85,
    ;
    assert(3 * TWICE_SPACING * TWICE_SPACING * norm == 21675 * norm) by (nonlinear_arith)
        requires
            3 * TWICE_SPACING * TWICE_SPACING == 21675,
    ;
    let scaled: i128 = 21675 * norm / 16;
    let root: u128 = integer_sqrt(scaled as u128);
    if root > 0x7fff_ffff {
        0x7fff_ffff
    } else {
        root as i32
    }
}

} // verus!
