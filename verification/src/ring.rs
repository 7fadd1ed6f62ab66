//! The six edge middles of one hexagon: how far apart they lie, and why
//! stitching them always walks once round the hexagon.

use crate::border::{closed, lemma_nearest_index, nearest_index, stitch_from};
use crate::coordinate::{neighbor_seq, neighbors_fit, HexCoordinate};
use crate::geometry::{
    beyond_edge, lattice_norm, lemma_pixels_of_small_norms, norm_between, pixel_distance,
    same_place, BorderPoint,
};
use vstd::prelude::*;

verus! {

/// The place of the neighbour among the six cells around the tile, counted
/// counter-clockwise from the right.
pub open spec fn ring_slot(p: BorderPoint) -> int {
    let dq = p.neighbor.q - p.tile.q;
    let dr = p.neighbor.r - p.tile.r;
    if dq == 1 && dr == 0 {
        0
    } else if dq == 0 && dr == 1 {
        1
    } else if dq == -1 && dr == 1 {
        2
    } else if dq == -1 && dr == 0 {
        3
    } else if dq == 0 && dr == -1 {
        4
    } else {
        5
    }
}

/// `p` is the middle of one of the six edges of the cell `at`.
pub open spec fn on_ring(at: HexCoordinate, p: BorderPoint) -> bool {
    &&& p.tile == at
    &&& 0 <= ring_slot(p) < 6
    &&& p.neighbor == neighbor_seq(at)[ring_slot(p)]
}

/// The middle of the edge of `at` in the given slot.
pub open spec fn ring_point(at: HexCoordinate, slot: int) -> BorderPoint {
    BorderPoint { tile: at, neighbor: neighbor_seq(at)[slot] }
}

/// Each slot of the ring holds its own point.
pub proof fn lemma_ring_slots(at: HexCoordinate)
    requires
        neighbors_fit(at),
    ensures
        forall|k: int|
            0 <= k < 6 ==> ring_slot(#[trigger] ring_point(at, k)) == k && on_ring(
                at,
                ring_point(at, k),
            ),
{
}

/// Two points on the ring of one cell in the same slot are the same point.
proof fn lemma_same_slot(at: HexCoordinate, a: BorderPoint, b: BorderPoint)
    requires
        on_ring(at, a),
        on_ring(at, b),
        ring_slot(a) == ring_slot(b),
    ensures
        a == b,
{
}

/// Two edge middles at the same place belong to the same edge: they are the
/// same point, or the same edge seen from its other side.
pub proof fn lemma_same_place_same_edge(
    first: HexCoordinate,
    second: HexCoordinate,
    a: BorderPoint,
    b: BorderPoint,
)
    requires
        neighbors_fit(first),
        neighbors_fit(second),
        on_ring(first, a),
        on_ring(second, b),
        same_place(a, b),
    ensures
        a == b || (a.tile == b.neighbor && a.neighbor == b.tile),
{
}

/// A slot number that has run over either end of `0..6` by less than one
/// turn, brought back into it.
pub open spec fn wrapped(slot: int) -> int {
    if slot >= 6 {
        slot - 6
    } else if slot < 0 {
        slot + 6
    } else {
        slot
    }
}

/// Number of edges between two slots of the ring, the short way round.
pub open spec fn ring_gap(i: int, j: int) -> int {
    let d = wrapped(i - j);
    if d <= 3 {
        d
    } else {
        6 - d
    }
}

/// Distance in whole pixels between the middles of two edges of one hexagon
/// that lie `gap` edges apart.
pub open spec fn pixels_across(gap: int) -> int {
    if gap == 0 {
        0
    } else if gap == 1 {
        36
    } else if gap == 2 {
        63
    } else {
        73
    }
}

/// The product of a small integer with another, without multiplying.
pub open spec fn small_times(x: int, y: int) -> int {
    if x == -2 {
        -y - y
    } else if x == -1 {
        -y
    } else if x == 0 {
        0
    } else if x == 1 {
        y
    } else {
        y + y
    }
}

/// The squared lattice length of a vector with small components, without multiplying.
proof fn lemma_small_norm(dq: int, dr: int)
    requires
        -2 <= dq <= 2,
        -2 <= dr <= 2,
    ensures
        lattice_norm(dq, dr) == small_times(dq, dq) + small_times(dq, dr) + small_times(dr, dr),
{
    assert(dq * dq == small_times(dq, dq)) by (nonlinear_arith)
        requires
            -2 <= dq <= 2,
    ;
    assert(dq * dr == small_times(dq, dr)) by (nonlinear_arith)
        requires
            -2 <= dq <= 2,
    ;
    assert(dr * dr == small_times(dr, dr)) by (nonlinear_arith)
        requires
            -2 <= dr <= 2,
    ;
}

/// The distance between two edge middles of one hexagon depends on how many
/// edges lie between them, and only neighbouring ones are within one edge
/// length of each other.
pub proof fn lemma_ring_distance(at: HexCoordinate, a: BorderPoint, b: BorderPoint)
    requires
        neighbors_fit(at),
        on_ring(at, a),
        on_ring(at, b),
    ensures
        pixel_distance(a, b) == pixels_across(ring_gap(ring_slot(a), ring_slot(b))),
        beyond_edge(a, b) <==> ring_gap(ring_slot(a), ring_slot(b)) >= 2,
{
    lemma_pixels_of_small_norms();
    let dq = a.neighbor.q - b.neighbor.q;
    let dr = a.neighbor.r - b.neighbor.r;
    assert(norm_between(a, b) == lattice_norm(dq, dr));
    lemma_small_norm(dq, dr);
}

/// The slot reached from `start` after at most six steps from edge to edge,
/// counter-clockwise or clockwise.
pub open spec fn arc_slot(start: int, forward: bool, steps: int) -> int {
    if forward {
        wrapped(start + steps)
    } else {
        wrapped(start - steps)
    }
}

/// Number of steps from `start` to the slot `x`.
pub open spec fn arc_steps(start: int, forward: bool, x: int) -> int {
    if forward {
        wrapped(x - start)
    } else {
        wrapped(start - x)
    }
}

/// Fewer than six steps in one direction never come back to a slot, six do,
/// and every slot is reached within six steps.
pub proof fn lemma_arc_slots(start: int, forward: bool)
    requires
        0 <= start < 6,
    ensures
        arc_slot(start, forward, 0) == start,
        arc_slot(start, forward, 6) == start,
        forall|i: int| 0 <= i <= 6 ==> 0 <= #[trigger] arc_slot(start, forward, i) < 6,
        forall|i: int, j: int|
            0 <= i < j < 6 ==> #[trigger] arc_slot(start, forward, i) != #[trigger] arc_slot(
                start,
                forward,
                j,
            ),
        forall|x: int|
            0 <= x < 6 ==> arc_slot(
                start,
                forward,
                #[trigger] arc_steps(start, forward, x),
            ) == x && 0 <= arc_steps(start, forward, x) < 6,
{
}

/// The two slots next to the one reached after `steps` steps are the one
/// before and the one after it on the walk.
proof fn lemma_arc_neighbors(start: int, forward: bool, steps: int, slot: int)
    requires
        0 <= start < 6,
        0 <= steps < 6,
        0 <= slot < 6,
    ensures
        ring_gap(arc_slot(start, forward, steps), arc_slot(start, forward, steps + 1)) == 1,
        ring_gap(arc_slot(start, forward, steps), slot) == 1 ==> slot == arc_slot(
            start,
            forward,
            steps + 1,
        ) || slot == arc_slot(start, forward, steps - 1),
        steps == 0 ==> arc_slot(start, forward, steps - 1) == arc_slot(start, !forward, 1),
        ring_gap(arc_slot(start, forward, steps), slot) == 0 <==> slot == arc_slot(
            start,
            forward,
            steps,
        ),
{
}

/// The chain runs once round the hexagon of `at`: from the edge in slot
/// `start`, edge by edge in one direction, and back to where it began.
pub open spec fn is_hexagon_walk(
    at: HexCoordinate,
    chain: Seq<BorderPoint>,
    start: int,
    forward: bool,
) -> bool {
    &&& chain.len() == 7
    &&& 0 <= start < 6
    &&& forall|i: int|
        0 <= i <= 6 ==> #[trigger] chain[i] == ring_point(at, arc_slot(start, forward, i))
}

/// The chain runs once round the hexagon of `at`, from some edge, in one of
/// the two directions.
pub open spec fn is_hexagon_outline(at: HexCoordinate, chain: Seq<BorderPoint>) -> bool {
    exists|start: int, forward: bool| is_hexagon_walk(at, chain, start, forward)
}

/// A chain round a hexagon has seven points: the middles of the six edges,
/// each once, and the first of them again at the end.
pub proof fn lemma_hexagon_outline(at: HexCoordinate, chain: Seq<BorderPoint>)
    requires
        neighbors_fit(at),
        is_hexagon_outline(at, chain),
    ensures
        chain.len() == 7,
        chain.last() == chain.first(),
        chain.take(6).no_duplicates(),
        forall|k: int| 0 <= k < 6 ==> chain.take(6).contains(#[trigger] ring_point(at, k)),
        forall|i: int| 0 <= i < 7 ==> on_ring(at, #[trigger] chain[i]),
        forall|i: int| 0 <= i < 6 ==> pixel_distance(#[trigger] chain[i], chain[i + 1]) == 36,
{
    let (start, forward) = choose|start: int, forward: bool|
        is_hexagon_walk(at, chain, start, forward);
    lemma_arc_slots(start, forward);
    lemma_ring_slots(at);
    let six = chain.take(6);
    assert forall|i: int| 0 <= i < 7 implies on_ring(at, #[trigger] chain[i]) && ring_slot(chain[i])
        == arc_slot(start, forward, i) by {
        assert(chain[i] == ring_point(at, arc_slot(start, forward, i)));
    }
    assert forall|i: int, j: int| 0 <= i < six.len() && 0 <= j < six.len() && i != j implies six[i]
        != six[j] by {
        assert(six[i] == chain[i] && six[j] == chain[j]);
    }
    assert forall|k: int| 0 <= k < 6 implies six.contains(#[trigger] ring_point(at, k)) by {
        let steps = arc_steps(start, forward, k);
        assert(chain[steps] == ring_point(at, arc_slot(start, forward, steps)));
        assert(six[steps] == ring_point(at, k));
    }
    assert forall|i: int| 0 <= i < 6 implies pixel_distance(#[trigger] chain[i], chain[i + 1])
        == 36 by {
        assert(on_ring(at, chain[i]) && on_ring(at, chain[i + 1]));
        lemma_ring_distance(at, chain[i], chain[i + 1]);
        lemma_arc_neighbors(start, forward, i, 0);
    }
}

/// A walk under way round the hexagon of `at`: the points walked so far run
/// edge by edge from slot `start`, the points left are other edge middles of
/// the same hexagon, and together they are all six, each once.
pub open spec fn ring_walk(
    at: HexCoordinate,
    walked: Seq<BorderPoint>,
    rest: Seq<BorderPoint>,
    start: int,
    forward: bool,
) -> bool {
    &&& neighbors_fit(at)
    &&& 0 <= start < 6
    &&& 1 <= walked.len() <= 6
    &&& forall|i: int|
        0 <= i < walked.len() ==> on_ring(at, #[trigger] walked[i]) && ring_slot(walked[i])
            == arc_slot(start, forward, i)
    &&& forall|j: int| 0 <= j < rest.len() ==> on_ring(at, #[trigger] rest[j])
    &&& rest.no_duplicates()
    &&& forall|i: int, j: int|
        0 <= i < walked.len() && 0 <= j < rest.len() ==> #[trigger] walked[i] != #[trigger] rest[j]
    &&& forall|k: int|
        0 <= k < 6 ==> walked.contains(#[trigger] ring_point(at, k)) || rest.contains(
            ring_point(at, k),
        )
}

/// While points are left, at most five have been walked.
proof fn lemma_walk_not_full(
    at: HexCoordinate,
    walked: Seq<BorderPoint>,
    rest: Seq<BorderPoint>,
    start: int,
    forward: bool,
)
    requires
        ring_walk(at, walked, rest, start, forward),
        rest.len() > 0,
    ensures
        walked.len() <= 5,
{
    if walked.len() == 6 {
        lemma_arc_slots(start, forward);
        let x = ring_slot(rest[0]);
        let k = arc_steps(start, forward, x);
        assert(on_ring(at, walked[k]));
        assert(ring_slot(walked[k]) == x);
        lemma_same_slot(at, walked[k], rest[0]);
    }
}

/// The nearest point left is the middle of the next edge on the walk, less
/// than one edge length away. A walk of one point takes its direction from it.
proof fn lemma_walk_goes_on(
    at: HexCoordinate,
    walked: Seq<BorderPoint>,
    rest: Seq<BorderPoint>,
    start: int,
    forward: bool,
) -> (onward: bool)
    requires
        ring_walk(at, walked, rest, start, forward),
        rest.len() > 0,
    ensures
        walked.len() >= 2 ==> onward == forward,
        0 <= nearest_index(walked.last(), rest) < rest.len(),
        ring_slot(rest[nearest_index(walked.last(), rest)]) == arc_slot(
            start,
            onward,
            walked.len() as int,
        ),
        !beyond_edge(walked.last(), rest[nearest_index(walked.last(), rest)]),
{
    let m = walked.len() - 1;
    let current = walked[m];
    lemma_walk_not_full(at, walked, rest, start, forward);
    lemma_nearest_index(current, rest);
    lemma_ring_slots(at);
    lemma_arc_slots(start, forward);
    let i = nearest_index(current, rest);
    let next = rest[i];
    let ahead = ring_point(at, arc_slot(start, forward, m + 1));
    assert(on_ring(at, current) && ring_slot(current) == arc_slot(start, forward, m));
    assert forall|k: int| 0 <= k < walked.len() implies walked[k] != ahead by {
        assert(ring_slot(walked[k]) == arc_slot(start, forward, k));
    }
    assert(rest.contains(ahead));
    let a = choose|a: int| 0 <= a < rest.len() && rest[a] == ahead;
    assert(on_ring(at, next));
    lemma_ring_distance(at, current, ahead);
    lemma_ring_distance(at, current, next);
    lemma_arc_neighbors(start, forward, m, ring_slot(next));
    assert(pixel_distance(current, rest[a]) == 36);
    assert(pixel_distance(current, next) <= 36);
    assert(walked[m] != rest[i]);
    if ring_slot(next) == ring_slot(current) {
        lemma_same_slot(at, current, next);
    }
    assert(ring_gap(ring_slot(current), ring_slot(next)) == 1);
    if ring_slot(next) == arc_slot(start, forward, m + 1) {
        forward
    } else {
        if m >= 1 {
            assert(ring_slot(walked[m - 1]) == arc_slot(start, forward, m - 1));
            assert(on_ring(at, walked[m - 1]));
            lemma_same_slot(at, walked[m - 1], next);
            assert(walked[m - 1] != rest[i]);
        }
        !forward
    }
}

/// Moving a point from the points left to the end of the walk keeps the walk a walk.
proof fn lemma_walk_step(
    at: HexCoordinate,
    walked: Seq<BorderPoint>,
    rest: Seq<BorderPoint>,
    start: int,
    forward: bool,
    onward: bool,
    i: int,
)
    requires
        ring_walk(at, walked, rest, start, forward),
        0 <= i < rest.len(),
        walked.len() <= 5,
        walked.len() >= 2 ==> onward == forward,
        ring_slot(rest[i]) == arc_slot(start, onward, walked.len() as int),
    ensures
        ring_walk(at, walked.push(rest[i]), rest.remove(i), start, onward),
{
    let next = rest[i];
    let left = rest.remove(i);
    let grown = walked.push(next);
    assert forall|x: int| 0 <= x < grown.len() implies on_ring(at, #[trigger] grown[x])
        && ring_slot(grown[x]) == arc_slot(start, onward, x) by {
        if x < walked.len() {
            assert(grown[x] == walked[x]);
        }
    }
    assert forall|y: int| 0 <= y < left.len() implies on_ring(at, #[trigger] left[y]) by {
        if y < i {
            assert(left[y] == rest[y]);
        } else {
            assert(left[y] == rest[y + 1]);
        }
    }
    assert forall|x: int, y: int| 0 <= x < left.len() && 0 <= y < left.len() && x != y implies left[x]
        != left[y] by {
        let x0 = if x < i {
            x
        } else {
            x + 1
        };
        let y0 = if y < i {
            y
        } else {
            y + 1
        };
        assert(left[x] == rest[x0] && left[y] == rest[y0]);
    }
    assert forall|x: int, y: int| 0 <= x < grown.len() && 0 <= y < left.len() implies #[trigger] grown[x]
        != #[trigger] left[y] by {
        let y0 = if y < i {
            y
        } else {
            y + 1
        };
        assert(left[y] == rest[y0]);
        if x < walked.len() {
            assert(grown[x] == walked[x]);
        }
    }
    assert forall|k: int| 0 <= k < 6 implies grown.contains(#[trigger] ring_point(at, k))
        || left.contains(ring_point(at, k)) by {
        let p = ring_point(at, k);
        if walked.contains(p) {
            let x = choose|x: int| 0 <= x < walked.len() && walked[x] == p;
            assert(grown[x] == p);
        } else {
            let y = choose|y: int| 0 <= y < rest.len() && rest[y] == p;
            if y == i {
                assert(grown[walked.len() as int] == p);
            } else if y < i {
                assert(left[y] == p);
            } else {
                assert(left[y - 1] == p);
            }
        }
    }
}

/// A walk that leaves no point over has gone round the whole hexagon.
proof fn lemma_walk_complete(
    at: HexCoordinate,
    walked: Seq<BorderPoint>,
    start: int,
    forward: bool,
)
    requires
        ring_walk(at, walked, Seq::empty(), start, forward),
    ensures
        is_hexagon_walk(at, closed(walked), start, forward),
{
    lemma_arc_slots(start, forward);
    if walked.len() < 6 {
        let missing = ring_point(at, arc_slot(start, forward, walked.len() as int));
        lemma_ring_slots(at);
        assert forall|x: int| 0 <= x < walked.len() implies walked[x] != missing by {
            assert(ring_slot(walked[x]) == arc_slot(start, forward, x));
        }
        assert(walked.contains(missing) || Seq::<BorderPoint>::empty().contains(missing));
        assert(false);
    }
    let outline = closed(walked);
    assert forall|x: int| 0 <= x <= 6 implies #[trigger] outline[x] == ring_point(
        at,
        arc_slot(start, forward, x),
    ) by {
        if x < 6 {
            assert(outline[x] == walked[x]);
            assert(on_ring(at, walked[x]));
        } else {
            assert(outline[6] == walked[0]);
            assert(on_ring(at, walked[0]));
        }
    }
}

/// From a walk under way, stitching goes on round the hexagon until its six
/// edge middles are used up, and closes one chain.
pub proof fn lemma_ring_walk(
    at: HexCoordinate,
    current: BorderPoint,
    chain: Seq<BorderPoint>,
    rest: Seq<BorderPoint>,
    start: int,
    forward: bool,
)
    requires
        ring_walk(at, chain.push(current), rest, start, forward),
        rest.len() > 0,
    ensures
        stitch_from(current, chain, rest).len() == 1,
        is_hexagon_walk(at, stitch_from(current, chain, rest)[0], start, true) || is_hexagon_walk(
            at,
            stitch_from(current, chain, rest)[0],
            start,
            false,
        ),
        chain.len() >= 1 ==> is_hexagon_walk(
            at,
            stitch_from(current, chain, rest)[0],
            start,
            forward,
        ),
    decreases rest.len(),
{
    let walked = chain.push(current);
    assert(walked.last() == current);
    let onward = lemma_walk_goes_on(at, walked, rest, start, forward);
    lemma_walk_not_full(at, walked, rest, start, forward);
    let i = nearest_index(current, rest);
    let next = rest[i];
    let left = rest.remove(i);
    lemma_walk_step(at, walked, rest, start, forward, onward, i);
    let grown = walked.push(next);
    if left.len() == 0 {
        assert(left =~= Seq::empty());
        lemma_walk_complete(at, grown, start, onward);
        assert(stitch_from(current, chain, rest) =~= seq![closed(grown)]);
    } else {
        lemma_ring_walk(at, next, walked, left, start, onward);
        assert(stitch_from(current, chain, rest) == stitch_from(next, walked, left));
    }
}

} // verus!
