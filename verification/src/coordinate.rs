//! Axial hex coordinates: distance, the six neighbours of a cell and the disc
//! of cells around a centre. The coordinate arithmetic itself is done by the
//! `hexx` crate; this module states what those calls return and proves the
//! facts about the grid that the rest of the crate builds on.

use vstd::prelude::*;

verus! {

/// A cell of the hexagonal grid in axial coordinates.
#[derive(Clone, Copy, Debug, PartialEq, Eq, Hash, Structural)]
pub struct HexCoordinate {
    pub q: i32,
    pub r: i32,
}

/// The largest of three integers.
pub open spec fn max3(a: int, b: int, c: int) -> int {
    if a >= b && a >= c {
        a
    } else if b >= a && b >= c {
        b
    } else {
        c
    }
}

/// Absolute value.
pub open spec fn magnitude(x: int) -> int {
    if x < 0 {
        -x
    } else {
        x
    }
}

/// Number of steps along the grid between two cells: the largest absolute
/// difference over the three cube axes.
pub open spec fn hex_distance(a: HexCoordinate, b: HexCoordinate) -> int {
    let dq = a.q - b.q;
    let dr = a.r - b.r;
    max3(magnitude(dq), magnitude(dr), magnitude(-dq - dr))
}

/// The differences between the two cells on all three cube axes, and their
/// negations, are representable in 32 bits.
pub open spec fn distance_fits(a: HexCoordinate, b: HexCoordinate) -> bool {
    let dq = a.q - b.q;
    let dr = a.r - b.r;
    &&& i32::MIN < dq <= i32::MAX
    &&& i32::MIN < dr <= i32::MAX
    &&& i32::MIN < -dq - dr <= i32::MAX
}

/// The cell reached from `c` by the offset `(dq, dr)`.
pub open spec fn shifted(c: HexCoordinate, dq: int, dr: int) -> HexCoordinate {
    HexCoordinate { q: (c.q + dq) as i32, r: (c.r + dr) as i32 }
}

/// The six cells adjacent to `c`, counter-clockwise starting from `(+1, 0)`.
pub open spec fn neighbor_seq(c: HexCoordinate) -> Seq<HexCoordinate> {
    seq![
        shifted(c, 1, 0),
        shifted(c, 0, 1),
        shifted(c, -1, 1),
        shifted(c, -1, 0),
        shifted(c, 0, -1),
        shifted(c, 1, -1),
    ]
}

/// Every neighbour of `c` is representable.
pub open spec fn neighbors_fit(c: HexCoordinate) -> bool {
    &&& i32::MIN < c.q < i32::MAX
    &&& i32::MIN < c.r < i32::MAX
}

/// First row of the column at horizontal offset `x` in a disc of the given radius.
pub open spec fn column_start(radius: int, x: int) -> int {
    if -radius >= -x - radius {
        -radius
    } else {
        -x - radius
    }
}

/// Last row of the column at horizontal offset `x` in a disc of the given radius.
pub open spec fn column_end(radius: int, x: int) -> int {
    if radius <= radius - x {
        radius
    } else {
        radius - x
    }
}

/// The cells of one column of the disc around `center`, by ascending row.
pub open spec fn range_column(center: HexCoordinate, radius: int, x: int) -> Seq<HexCoordinate> {
    Seq::new(
        (column_end(radius, x) - column_start(radius, x) + 1) as nat,
        |i: int| shifted(center, x, column_start(radius, x) + i),
    )
}

/// The first `count` columns of the disc around `center`, left to right.
pub open spec fn range_columns(center: HexCoordinate, radius: int, count: nat) -> Seq<HexCoordinate>
    decreases count,
{
    if count == 0 {
        Seq::empty()
    } else {
        range_columns(center, radius, (count - 1) as nat) + range_column(
            center,
            radius,
            -radius + count - 1,
        )
    }
}

/// All cells within `radius` steps of `center`, column by column.
pub open spec fn range_seq(center: HexCoordinate, radius: nat) -> Seq<HexCoordinate> {
    range_columns(center, radius as int, 2 * radius + 1)
}

/// Number of cells in a disc of the given radius.
pub open spec fn range_count(radius: nat) -> nat {
    3 * radius * (radius + 1) + 1
}

/// Every cell of the disc around `center` is representable.
pub open spec fn disc_representable(center: HexCoordinate, radius: nat) -> bool {
    &&& i32::MIN <= center.q - radius
    &&& center.q + radius <= i32::MAX
    &&& i32::MIN <= center.r - radius
    &&& center.r + radius <= i32::MAX
}

/// The largest radius of a disc whose number of cells is a `u32`.
pub const MAX_RADIUS: u32 = 37_836;

/// The disc fits the machine: its size is a `u32` and all its cells are representable.
pub open spec fn range_fits(center: HexCoordinate, radius: u32) -> bool {
    &&& radius <= MAX_RADIUS
    &&& disc_representable(center, radius as nat)
}

/// The discs up to `MAX_RADIUS` are those whose number of cells is a `u32`.
pub proof fn max_radius_is_the_largest_that_fits(radius: nat)
    ensures
        radius <= MAX_RADIUS <==> range_count(radius) <= u32::MAX,
{
    let r = radius as int;
    if r <= 37_836 {
        assert(3 * r * (r + 1) + 1 <= 3 * 37_836 * 37_837 + 1) by (nonlinear_arith)
            requires
                0 <= r <= 37_836,
        ;
    } else {
        assert(3 * r * (r + 1) + 1 >= 3 * 37_837 * 37_838 + 1) by (nonlinear_arith)
            requires
                r >= 37_837,
        ;
    }
}

/// Calls `hexx::Hex::unsigned_distance_to`. Taken on trust from its source:
/// it subtracts the two cells and returns the largest absolute value among
/// the three cube axes of the difference. The precondition keeps every
/// subtraction and negation it makes within `i32`.
#[verifier::external_body]
fn hexx_distance(a: HexCoordinate, b: HexCoordinate) -> (d: u32)
    requires
        distance_fits(a, b),
    ensures
        d == hex_distance(a, b),
{
    hexx::Hex::new(a.q, a.r).unsigned_distance_to(hexx::Hex::new(b.q, b.r))
}

/// Calls `hexx::Hex::all_neighbors`. Taken on trust from its source: it adds
/// each of the six unit offsets of `Hex::NEIGHBORS_COORDS` to the cell, in
/// that array's order. The precondition keeps the additions within `i32`.
#[verifier::external_body]
fn hexx_all_neighbors(c: HexCoordinate) -> (out: [HexCoordinate; 6])
    requires
        neighbors_fit(c),
    ensures
        out@ == neighbor_seq(c),
{
    hexx::Hex::new(c.q, c.r).all_neighbors().map(|h| HexCoordinate { q: h.x, r: h.y })
}

/// Calls `hexx::Hex::range` and collects what it yields. Taken on trust from
/// its source: it walks the columns `-radius..=radius` and, in each, the rows
/// from `max(-radius, -x - radius)` to `min(radius, radius - x)`, yielding the
/// centre shifted by each such offset. The precondition keeps the cell count
/// that it computes within `u32` and the shifted cells within `i32`.
#[verifier::external_body]
fn hexx_range(center: HexCoordinate, radius: u32) -> (out: Vec<HexCoordinate>)
    requires
        range_fits(center, radius),
    ensures
        out@ == range_seq(center, radius as nat),
{
    hexx::Hex::new(center.q, center.r).range(radius).map(|h| HexCoordinate { q: h.x, r: h.y }).collect()
}

impl HexCoordinate {
    /// The cell at the given axial coordinates.
    pub fn new(q: i32, r: i32) -> (c: HexCoordinate)
        ensures
            c.q == q,
            c.r == r,
    {
        HexCoordinate { q, r }
    }

    /// Number of steps along the grid from `self` to `other`.
    pub fn distance(self, other: HexCoordinate) -> (d: u32)
        requires
            distance_fits(self, other),
        ensures
            d == hex_distance(self, other),
    {
        hexx_distance(self, other)
    }

    /// The six adjacent cells, in a fixed counter-clockwise order.
    pub fn neighbors(self) -> (out: [HexCoordinate; 6])
        requires
            neighbors_fit(self),
        ensures
            out@ == neighbor_seq(self),
    {
        hexx_all_neighbors(self)
    }

    /// All cells within `radius` steps of `self`.
    pub fn range(self, radius: u32) -> (out: Vec<HexCoordinate>)
        requires
            range_fits(self, radius),
        ensures
            out@ == range_seq(self, radius as nat),
    {
        hexx_range(self, radius)
    }
}

/// Number of rows in the column at horizontal offset `x`.
pub open spec fn column_len(radius: int, x: int) -> int {
    column_end(radius, x) - column_start(radius, x) + 1
}

/// `h` lies in one of the first `count` columns of the disc around `center`.
pub open spec fn in_columns(center: HexCoordinate, radius: int, count: nat, h: HexCoordinate) -> bool {
    let dq = h.q - center.q;
    let dr = h.r - center.r;
    &&& -radius <= dq < -radius + count
    &&& column_start(radius, dq) <= dr <= column_end(radius, dq)
}

/// Twice the number of cells in the first `count` columns of a disc.
pub open spec fn twice_cells(radius: int, count: int) -> int {
    if count <= radius + 1 {
        count * (2 * radius + 1 + count)
    } else {
        let m = count - (radius + 1);
        (radius + 1) * (3 * radius + 2) + 2 * m * (2 * radius + 1) - m * (m + 1)
    }
}

/// One more column adds its number of rows to the number of cells.
proof fn lemma_twice_cells_step(radius: int, count: int)
    requires
        0 <= radius,
        1 <= count <= 2 * radius + 1,
    ensures
        twice_cells(radius, count) == twice_cells(radius, count - 1) + 2 * column_len(
            radius,
            -radius + count - 1,
        ),
        column_len(radius, -radius + count - 1) >= 1,
{
    let x = -radius + count - 1;
    let len = column_len(radius, x);
    let now = twice_cells(radius, count);
    let before = twice_cells(radius, count - 1);
    if count <= radius + 1 {
        assert(len == radius + count);
        assert(now == before + 2 * len) by (nonlinear_arith)
            requires
                now == count * (2 * radius + 1 + count),
                before == (count - 1) * (2 * radius + 1 + (count - 1)),
                len == radius + count,
        ;
    } else {
        let m = count - (radius + 1);
        assert(len == 2 * radius + 1 - m);
        if count - 1 <= radius + 1 {
            assert(now == before + 2 * len) by (nonlinear_arith)
                requires
                    m == 1,
                    count == radius + 2,
                    now == (radius + 1) * (3 * radius + 2) + 2 * m * (2 * radius + 1) - m * (m
                        + 1),
                    before == (count - 1) * (2 * radius + 1 + (count - 1)),
                    len == 2 * radius + 1 - m,
            ;
        } else {
            let k = m - 1;
            assert(now == before + 2 * len) by (nonlinear_arith)
                requires
                    k == m - 1,
                    now == (radius + 1) * (3 * radius + 2) + 2 * m * (2 * radius + 1) - m * (m
                        + 1),
                    before == (radius + 1) * (3 * radius + 2) + 2 * k * (2 * radius + 1) - k * (k
                        + 1),
                    len == 2 * radius + 1 - m,
            ;
        }
    }
}

/// What the first `count` columns hold: how many cells, which ones, and each once.
proof fn lemma_columns(center: HexCoordinate, radius: int, count: nat)
    requires
        0 <= radius,
        count <= 2 * radius + 1,
        disc_representable(center, radius as nat),
    ensures
        2 * range_columns(center, radius, count).len() == twice_cells(radius, count as int),
        forall|i: int|
            0 <= i < range_columns(center, radius, count).len() ==> in_columns(
                center,
                radius,
                count,
                #[trigger] range_columns(center, radius, count)[i],
            ),
        forall|h: HexCoordinate|
            in_columns(center, radius, count, h) ==> #[trigger] range_columns(
                center,
                radius,
                count,
            ).contains(h),
        range_columns(center, radius, count).no_duplicates(),
    decreases count,
{
    if count > 0 {
        let before = (count - 1) as nat;
        lemma_columns(center, radius, before);
        lemma_twice_cells_step(radius, count as int);
        let x = -radius + count - 1;
        let prev = range_columns(center, radius, before);
        let col = range_column(center, radius, x);
        let all = range_columns(center, radius, count);
        let start = column_start(radius, x);
        assert(all == prev + col);
        assert(col.len() == column_len(radius, x));
        assert forall|i: int| 0 <= i < all.len() implies in_columns(
            center,
            radius,
            count,
            #[trigger] all[i],
        ) by {
            if i < prev.len() {
                assert(all[i] == prev[i]);
                assert(in_columns(center, radius, before, prev[i]));
            } else {
                assert(all[i] == col[i - prev.len()]);
            }
        }
        assert forall|h: HexCoordinate| in_columns(center, radius, count, h) implies all.contains(
            h,
        ) by {
            if h.q - center.q < x {
                assert(in_columns(center, radius, before, h));
                assert(prev.contains(h));
                let i = choose|i: int| 0 <= i < prev.len() && prev[i] == h;
                assert(all[i] == h);
            } else {
                let j = h.r - center.r - start;
                assert(col[j] == h);
                assert(all[prev.len() + j] == h);
            }
        }
        assert forall|i: int, j: int| 0 <= i < all.len() && 0 <= j < all.len() && i != j implies all[i]
            != all[j] by {
            if i < prev.len() {
                assert(all[i] == prev[i]);
                assert(in_columns(center, radius, before, prev[i]));
            } else {
                assert(all[i] == col[i - prev.len()]);
            }
            if j < prev.len() {
                assert(all[j] == prev[j]);
                assert(in_columns(center, radius, before, prev[j]));
            } else {
                assert(all[j] == col[j - prev.len()]);
            }
        }
    }
}

/// The sequence that `range` returns holds exactly `3R² + 3R + 1` cells, no
/// cell twice, and a cell belongs to it precisely when it lies within `R`
/// steps of the centre.
pub proof fn range_is_the_disc(center: HexCoordinate, radius: nat)
    requires
        disc_representable(center, radius),
    ensures
        range_seq(center, radius).len() == 3 * radius * radius + 3 * radius + 1,
        range_seq(center, radius).len() == range_count(radius),
        range_seq(center, radius).no_duplicates(),
        forall|h: HexCoordinate| #[trigger]
            range_seq(center, radius).contains(h) <==> hex_distance(center, h) <= radius,
{
    let r = radius as int;
    let count = (2 * radius + 1) as nat;
    let cells = range_seq(center, radius);
    lemma_columns(center, r, count);
    assert(twice_cells(r, 2 * r + 1) == 2 * (3 * r * r + 3 * r + 1)) by (nonlinear_arith)
        requires
            0 <= r,
    ;
    assert(3 * radius * (radius + 1) + 1 == 3 * radius * radius + 3 * radius + 1)
        by (nonlinear_arith);
    assert forall|h: HexCoordinate| #[trigger] cells.contains(h) <==> hex_distance(center, h)
        <= radius by {
        if cells.contains(h) {
            let i = choose|i: int| 0 <= i < cells.len() && cells[i] == h;
            assert(in_columns(center, r, count, cells[i]));
        }
        if hex_distance(center, h) <= radius {
            assert(in_columns(center, r, count, h));
        }
    }
}

/// Distance does not depend on the direction of travel.
pub proof fn distance_is_symmetric(a: HexCoordinate, b: HexCoordinate)
    ensures
        hex_distance(a, b) == hex_distance(b, a),
{
}

/// A cell is at distance zero from itself, and from no other cell.
pub proof fn distance_zero_iff_same(a: HexCoordinate, b: HexCoordinate)
    ensures
        hex_distance(a, a) == 0,
        hex_distance(a, b) == 0 <==> a == b,
        hex_distance(a, b) >= 0,
{
}

} // verus!
