//! Territory outlines: the points where a team's tiles touch foreign tiles
//! or the rim of the board, stitched into closed polylines by always moving
//! on to the nearest point that is left.

use crate::board::{tiles_lie_in_range, Board, BoardView, Team, Tile};
use crate::border_laws::{outline_exists_iff_team_owns_a_tile, stitched_chains_are_closed};
use crate::coordinate::{neighbor_seq, neighbors_fit, HexCoordinate};
use crate::geometry::{
    beyond_edge, pixel_distance, pixel_distance_between, same_place, BorderPoint, HEX_SIZE,
};
use crate::palette::{border_bucket, border_color, ColorBucket};
use vstd::prelude::*;

verus! {

/// An outline: the points of one stitched chain, ending where it began.
pub type BorderPolyline = Vec<BorderPoint>;

/// A straight piece of an outline, from one boundary point to the next.
#[derive(Clone, Copy, Debug, PartialEq, Eq, Hash, Structural)]
pub struct BorderSegment {
    pub from: BorderPoint,
    pub to: BorderPoint,
}

/// Everything needed to draw the outlines of one team: the colour bucket
/// and the segments of all its chains, chain after chain.
#[derive(Clone, Debug)]
pub struct TeamBorder {
    pub team: Team,
    pub color: ColorBucket,
    pub segments: Vec<BorderSegment>,
}

/// A team's border to the contracts.
pub ghost struct TeamBorderView {
    pub team: Team,
    pub color: ColorBucket,
    pub segments: Seq<BorderSegment>,
}

impl View for TeamBorder {
    type V = TeamBorderView;

    open spec fn view(&self) -> TeamBorderView {
        TeamBorderView { team: self.team, color: self.color, segments: self.segments@ }
    }
}

/// The points that the first `count` neighbours of the cell `at` contribute
/// because they lie off the board, in neighbour order.
pub open spec fn rim_points_upto(board: BoardView, at: HexCoordinate, count: nat) -> Seq<BorderPoint>
    decreases count,
{
    if count == 0 {
        Seq::empty()
    } else {
        let before = rim_points_upto(board, at, (count - 1) as nat);
        let cell = neighbor_seq(at)[count - 1];
        if board.in_range(cell) {
            before
        } else {
            before.push(BorderPoint { tile: at, neighbor: cell })
        }
    }
}

/// The points between the cell `at` and its neighbours off the board.
pub open spec fn rim_points(board: BoardView, at: HexCoordinate) -> Seq<BorderPoint> {
    rim_points_upto(board, at, 6)
}

/// The tile lies next to the cell `at` and belongs to another team than `team`.
pub open spec fn is_foreign_neighbor(team: Team, at: HexCoordinate, tile: Tile) -> bool {
    neighbor_seq(at).contains(tile.coordinate) && tile.team != team
}

/// The points that the first `count` tiles of the board contribute as
/// foreign neighbours of the cell `at`, in board order.
pub open spec fn frontier_points_upto(
    board: BoardView,
    team: Team,
    at: HexCoordinate,
    count: nat,
) -> Seq<BorderPoint>
    decreases count,
{
    if count == 0 {
        Seq::empty()
    } else {
        let before = frontier_points_upto(board, team, at, (count - 1) as nat);
        let tile = board.tiles[count - 1];
        if is_foreign_neighbor(team, at, tile) {
            before.push(BorderPoint { tile: at, neighbor: tile.coordinate })
        } else {
            before
        }
    }
}

/// The points between the cell `at` and the adjacent tiles of other teams.
pub open spec fn frontier_points(board: BoardView, team: Team, at: HexCoordinate) -> Seq<
    BorderPoint,
> {
    frontier_points_upto(board, team, at, board.tiles.len())
}

/// All boundary points around one tile of `team`: first those on the rim of
/// the board, then those against foreign tiles.
pub open spec fn tile_boundary(board: BoardView, team: Team, at: HexCoordinate) -> Seq<BorderPoint> {
    rim_points(board, at) + frontier_points(board, team, at)
}

/// The boundary points around those of the first `count` tiles that `team` owns.
pub open spec fn boundary_points_upto(board: BoardView, team: Team, count: nat) -> Seq<BorderPoint>
    decreases count,
{
    if count == 0 {
        Seq::empty()
    } else {
        let before = boundary_points_upto(board, team, (count - 1) as nat);
        let tile = board.tiles[count - 1];
        if tile.team == team {
            before + tile_boundary(board, team, tile.coordinate)
        } else {
            before
        }
    }
}

/// The boundary points of the territory of `team`, tile by tile in board order.
pub open spec fn boundary_points(board: BoardView, team: Team) -> Seq<BorderPoint> {
    boundary_points_upto(board, team, board.tiles.len())
}

/// Some point of the sequence lies at the place of `p`.
pub open spec fn occupied(points: Seq<BorderPoint>, p: BorderPoint) -> bool {
    exists|i: int| 0 <= i < points.len() && same_place(#[trigger] points[i], p)
}

/// The sequence without the points that lie where an earlier point lies.
pub open spec fn distinct_places(points: Seq<BorderPoint>) -> Seq<BorderPoint>
    decreases points.len(),
{
    if points.len() == 0 {
        Seq::empty()
    } else {
        let kept = distinct_places(points.drop_last());
        if occupied(kept, points.last()) {
            kept
        } else {
            kept.push(points.last())
        }
    }
}

/// Index of the first point among those nearest to `from`.
pub open spec fn nearest_index(from: BorderPoint, points: Seq<BorderPoint>) -> int
    decreases points.len(),
{
    if points.len() <= 1 {
        0
    } else {
        let best = nearest_index(from, points.drop_last());
        if pixel_distance(from, points.last()) < pixel_distance(from, points[best]) {
            points.len() - 1
        } else {
            best
        }
    }
}

/// A chain with a copy of its first point appended.
pub open spec fn closed(chain: Seq<BorderPoint>) -> Seq<BorderPoint> {
    chain.push(chain[0])
}

/// The chains that stitching produces from the point `current` on, when
/// `chain` holds the points already walked in the chain under way and `rest`
/// the points not yet visited.
///
/// The walk moves to the nearest point left. If that uses up the points, the
/// chain takes the point and closes. If the point lies further away than one
/// hexagon edge, the chain closes without it and the point starts the next
/// chain. Otherwise the chain goes on from it.
pub open spec fn stitch_from(
    current: BorderPoint,
    chain: Seq<BorderPoint>,
    rest: Seq<BorderPoint>,
) -> Seq<Seq<BorderPoint>>
    decreases rest.len(),
    via stitch_from_terminates
{
    if rest.len() == 0 {
        Seq::empty()
    } else {
        let i = nearest_index(current, rest);
        let next = rest[i];
        let left = rest.remove(i);
        let grown = chain.push(current);
        if left.len() == 0 {
            seq![closed(grown.push(next))]
        } else if beyond_edge(current, next) {
            seq![closed(grown)] + stitch_from(next, Seq::empty(), left)
        } else {
            stitch_from(next, grown, left)
        }
    }
}

#[via_fn]
proof fn stitch_from_terminates(current: BorderPoint, chain: Seq<BorderPoint>, rest: Seq<BorderPoint>) {
    if rest.len() > 0 {
        lemma_nearest_index(current, rest);
    }
}

/// The closed chains that stitching makes of the points, starting from the
/// first; none where there is no point at all.
pub open spec fn stitched(points: Seq<BorderPoint>) -> Option<Seq<Seq<BorderPoint>>> {
    if points.len() == 0 {
        None
    } else {
        Some(stitch_from(points[0], Seq::empty(), points.drop_first()))
    }
}

/// The outlines of the territory of `team`.
pub open spec fn borders_of(board: BoardView, team: Team) -> Option<Seq<Seq<BorderPoint>>> {
    stitched(distinct_places(boundary_points(board, team)))
}

/// The chains as sequences of points.
pub open spec fn chains_view(chains: Seq<BorderPolyline>) -> Seq<Seq<BorderPoint>> {
    chains.map_values(|c: BorderPolyline| c@)
}

/// The outcome of an extraction as sequences of points.
pub open spec fn outlines_view(outlines: Option<Vec<BorderPolyline>>) -> Option<
    Seq<Seq<BorderPoint>>,
> {
    match outlines {
        Some(chains) => Some(chains_view(chains@)),
        None => None,
    }
}

/// `i` is the first index among the points nearest to `from`.
pub open spec fn is_first_nearest(from: BorderPoint, points: Seq<BorderPoint>, i: int) -> bool {
    &&& 0 <= i < points.len()
    &&& forall|j: int|
        0 <= j < points.len() ==> pixel_distance(from, points[i]) <= pixel_distance(
            from,
            #[trigger] points[j],
        )
    &&& forall|j: int|
        0 <= j < i ==> pixel_distance(from, points[i]) < pixel_distance(from, #[trigger] points[j])
}

/// `nearest_index` picks a nearest point, and the first of them.
pub proof fn lemma_nearest_index(from: BorderPoint, points: Seq<BorderPoint>)
    requires
        points.len() > 0,
    ensures
        is_first_nearest(from, points, nearest_index(from, points)),
    decreases points.len(),
{
    if points.len() > 1 {
        let front = points.drop_last();
        lemma_nearest_index(from, front);
        let best = nearest_index(from, front);
        assert(front[best] == points[best]);
        let i = nearest_index(from, points);
        assert forall|j: int| 0 <= j < points.len() implies pixel_distance(from, points[i])
            <= pixel_distance(from, #[trigger] points[j]) by {
            if j < front.len() {
                assert(front[j] == points[j]);
            }
        }
        assert forall|j: int| 0 <= j < i implies pixel_distance(from, points[i]) < pixel_distance(
            from,
            #[trigger] points[j],
        ) by {
            assert(front[j] == points[j]);
        }
    }
}

/// Whether two border points lie at the same place.
pub fn at_same_place(a: BorderPoint, b: BorderPoint) -> (same: bool)
    ensures
        same == same_place(a, b),
{
    a.tile.q as i64 + a.neighbor.q as i64 == b.tile.q as i64 + b.neighbor.q as i64 && a.tile.r as i64
        + a.neighbor.r as i64 == b.tile.r as i64 + b.neighbor.r as i64
}

/// Whether `cell` is one of the six cells in `cells`.
fn among(cells: &[HexCoordinate; 6], cell: HexCoordinate) -> (found: bool)
    ensures
        found == cells@.contains(cell),
{
    let mut k: usize = 0;
    while k < 6
        invariant
            k <= 6,
            cells@.len() == 6,
            forall|j: int| 0 <= j < k ==> cells@[j] != cell,
        decreases 6 - k,
    {
        if cells[k] == cell {
            return true;
        }
        k += 1;
    }
    false
}

/// The boundary points around the tile of `team` at `at`.
pub fn boundary_of_tile(board: &Board, team: Team, at: HexCoordinate) -> (points: Vec<BorderPoint>)
    requires
        board.wf(),
        neighbors_fit(at),
    ensures
        points@ == tile_boundary(board@, team, at),
{
    let around = at.neighbors();
    let mut points: Vec<BorderPoint> = Vec::new();
    let mut k: usize = 0;
    while k < 6
        invariant
            k <= 6,
            board.wf(),
            around@ == neighbor_seq(at),
            points@ == rim_points_upto(board@, at, k as nat),
        decreases 6 - k,
    {
        let cell = around[k];
        if !board.contains(cell) {
            points.push(BorderPoint { tile: at, neighbor: cell });
        }
        k += 1;
    }
    let tiles = board.tiles();
    let ghost rim = points@;
    let mut i: usize = 0;
    while i < tiles.len()
        invariant
            i <= tiles.len(),
            tiles@ == board@.tiles,
            around@ == neighbor_seq(at),
            points@ == rim + frontier_points_upto(board@, team, at, i as nat),
        decreases tiles.len() - i,
    {
        let tile = tiles[i];
        if among(&around, tile.coordinate) && tile.team != team {
            points.push(BorderPoint { tile: at, neighbor: tile.coordinate });
            assert(points@ =~= rim + frontier_points_upto(board@, team, at, (i + 1) as nat));
        }
        i += 1;
    }
    points
}

/// The boundary points of the territory of `team`, tile by tile in board order.
pub fn collect_boundary_points(board: &Board, team: Team) -> (points: Vec<BorderPoint>)
    requires
        board.wf(),
    ensures
        points@ == boundary_points(board@, team),
{
    let tiles = board.tiles();
    let mut points: Vec<BorderPoint> = Vec::new();
    let mut i: usize = 0;
    while i < tiles.len()
        invariant
            i <= tiles.len(),
            board.wf(),
            tiles@ == board@.tiles,
            points@ == boundary_points_upto(board@, team, i as nat),
        decreases tiles.len() - i,
    {
        let tile = tiles[i];
        if tile.team == team {
            proof {
                tiles_lie_in_range(board@, i as int);
            }
            let mut around = boundary_of_tile(board, team, tile.coordinate);
            points.append(&mut around);
        }
        i += 1;
    }
    points
}

/// Whether some point of `points` lies at the place of `p`.
fn is_occupied(points: &Vec<BorderPoint>, p: BorderPoint) -> (found: bool)
    ensures
        found == occupied(points@, p),
{
    let mut i: usize = 0;
    while i < points.len()
        invariant
            i <= points.len(),
            forall|j: int| 0 <= j < i ==> !same_place(#[trigger] points@[j], p),
        decreases points.len() - i,
    {
        if at_same_place(points[i], p) {
            return true;
        }
        i += 1;
    }
    false
}

/// Drops every point that lies where an earlier point of the list lies.
pub fn deduplicate(points: &Vec<BorderPoint>) -> (kept: Vec<BorderPoint>)
    ensures
        kept@ == distinct_places(points@),
{
    let mut kept: Vec<BorderPoint> = Vec::new();
    let mut i: usize = 0;
    assert(points@.take(0) =~= Seq::<BorderPoint>::empty());
    while i < points.len()
        invariant
            i <= points.len(),
            kept@ == distinct_places(points@.take(i as int)),
        decreases points.len() - i,
    {
        assert(points@.take(i + 1).drop_last() =~= points@.take(i as int));
        if !is_occupied(&kept, points[i]) {
            kept.push(points[i]);
        }
        i += 1;
    }
    assert(points@.take(i as int) =~= points@);
    kept
}

/// Index of the first point among those nearest to `from`.
pub fn nearest(from: BorderPoint, points: &Vec<BorderPoint>) -> (best: usize)
    requires
        points@.len() > 0,
    ensures
        best == nearest_index(from, points@),
        is_first_nearest(from, points@, best as int),
{
    let mut best: usize = 0;
    let mut least: i32 = pixel_distance_between(from, points[0]);
    let mut i: usize = 1;
    assert(points@.take(1).len() == 1);
    while i < points.len()
        invariant
            1 <= i <= points.len(),
            best < i,
            best == nearest_index(from, points@.take(i as int)),
            least == pixel_distance(from, points@[best as int]),
        decreases points.len() - i,
    {
        assert(points@.take(i + 1).drop_last() =~= points@.take(i as int));
        let d = pixel_distance_between(from, points[i]);
        if d < least {
            best = i;
            least = d;
        }
        i += 1;
    }
    proof {
        assert(points@.take(i as int) =~= points@);
        lemma_nearest_index(from, points@);
    }
    best
}

/// Stitches the points into closed chains. The walk starts at the first
/// point and always moves to the nearest point left; a chain ends where the
/// nearest point is more than one hexagon edge away, and that point starts
/// the next chain. None where there is no point.
pub fn stitch(points: Vec<BorderPoint>) -> (outlines: Option<Vec<BorderPolyline>>)
    ensures
        outlines_view(outlines) == stitched(points@),
        outlines is None <==> points@.len() == 0,
        outlines is Some ==> outlines->0@.len() == stitched(points@)->0.len(),
        outlines is Some ==> forall|k: int|
            0 <= k < outlines->0@.len() ==> (#[trigger] outlines->0@[k])@ == stitched(
                points@,
            )->0[k],
        outlines is Some ==> forall|k: int|
            0 <= k < outlines->0@.len() ==> (#[trigger] outlines->0@[k])@.len() >= 2
                && outlines->0@[k]@.last() == outlines->0@[k]@.first(),
{
    proof {
        if points@.len() > 0 {
            stitched_chains_are_closed(points@[0], Seq::empty(), points@.drop_first());
        }
    }
    let mut rest = points;
    if rest.len() == 0 {
        return None;
    }
    let ghost target = stitch_from(points@[0], Seq::empty(), points@.drop_first());
    let mut current = rest.remove(0);
    assert(rest@ =~= points@.drop_first());
    let mut chains: Vec<BorderPolyline> = Vec::new();
    let mut chain: BorderPolyline = Vec::new();
    assert(chains_view(chains@) + target =~= target);
    while rest.len() > 0
        invariant
            chains_view(chains@) + stitch_from(current, chain@, rest@) == target,
        decreases rest.len(),
    {
        proof {
            lemma_nearest_index(current, rest@);
        }
        let ghost before = chains_view(chains@);
        let ghost grown = chain@.push(current);
        let ghost tail = stitch_from(current, chain@, rest@);
        let i = nearest(current, &rest);
        let next = rest[i];
        let far = pixel_distance_between(current, next) > HEX_SIZE;
        chain.push(current);
        current = rest.remove(i);
        if rest.len() == 0 {
            chain.push(current);
        }
        if far || rest.len() == 0 {
            let start = chain[0];
            chain.push(start);
            let ghost finished = chain@;
            chains.push(chain);
            chain = Vec::new();
            proof {
                assert(chains_view(chains@) =~= before.push(finished));
                let after = stitch_from(current, chain@, rest@);
                assert(tail =~= seq![finished] + after);
                assert(before.push(finished) + after =~= before + tail);
            }
        }
    }
    assert(chains_view(chains@) + Seq::<Seq<BorderPoint>>::empty() =~= chains_view(chains@));
    assert forall|k: int| 0 <= k < chains@.len() implies (#[trigger] chains@[k])@ == target[k]
        && chains@[k]@.len() >= 2 && chains@[k]@.last() == chains@[k]@.first() by {
        assert(chains_view(chains@)[k] == chains@[k]@);
    }
    Some(chains)
}

/// The outlines of the territory of `team`: closed polylines through the
/// middles of the edges that separate its tiles from foreign tiles and from
/// the rim of the board. None where the territory has no boundary point.
pub fn extract_borders(board: &Board, team: Team) -> (outlines: Option<Vec<BorderPolyline>>)
    requires
        board.wf(),
    ensures
        outlines_view(outlines) == borders_of(board@, team),
        outlines is None <==> board@.tiles_of_team(team).len() == 0,
        outlines is Some ==> outlines->0@.len() == borders_of(board@, team)->0.len(),
        outlines is Some ==> forall|k: int|
            0 <= k < outlines->0@.len() ==> (#[trigger] outlines->0@[k])@ == borders_of(
                board@,
                team,
            )->0[k],
        outlines is Some ==> forall|k: int|
            0 <= k < outlines->0@.len() ==> (#[trigger] outlines->0@[k])@.len() >= 2
                && outlines->0@[k]@.last() == outlines->0@[k]@.first(),
{
    proof {
        outline_exists_iff_team_owns_a_tile(board@, team);
        let points = distinct_places(boundary_points(board@, team));
        if points.len() > 0 {
            stitched_chains_are_closed(points[0], Seq::empty(), points.drop_first());
        }
    }
    let points = collect_boundary_points(board, team);
    let distinct = deduplicate(&points);
    stitch(distinct)
}

/// The segments between consecutive points of a chain.
pub open spec fn segments_of(chain: Seq<BorderPoint>) -> Seq<BorderSegment> {
    Seq::new(
        if chain.len() == 0 {
            0
        } else {
            (chain.len() - 1) as nat
        },
        |i: int| BorderSegment { from: chain[i], to: chain[i + 1] },
    )
}

/// The segments of the first `count` chains, chain after chain.
pub open spec fn segments_upto(chains: Seq<Seq<BorderPoint>>, count: nat) -> Seq<BorderSegment>
    decreases count,
{
    if count == 0 {
        Seq::empty()
    } else {
        segments_upto(chains, (count - 1) as nat) + segments_of(chains[count - 1])
    }
}

/// What there is to draw for `team`: nothing where it has no outline,
/// otherwise one entry with its colour and all its segments.
pub open spec fn team_border_of(board: BoardView, team: Team) -> Seq<TeamBorderView> {
    match borders_of(board, team) {
        None => Seq::empty(),
        Some(chains) => seq![
            TeamBorderView {
                team,
                color: border_bucket(team),
                segments: segments_upto(chains, chains.len()),
            },
        ],
    }
}

/// The borders to draw on a board: those of the allies, then those of the enemies.
pub open spec fn borders_to_draw(board: BoardView) -> Seq<TeamBorderView> {
    team_border_of(board, Team::Ally) + team_border_of(board, Team::Enemy)
}

/// The segments between consecutive points of a chain.
pub fn segments(chain: &Vec<BorderPoint>) -> (pieces: Vec<BorderSegment>)
    ensures
        pieces@ == segments_of(chain@),
{
    let mut pieces: Vec<BorderSegment> = Vec::new();
    if chain.len() == 0 {
        assert(pieces@ =~= segments_of(chain@));
        return pieces;
    }
    let mut i: usize = 0;
    while i + 1 < chain.len()
        invariant
            i + 1 <= chain.len(),
            pieces@.len() == i,
            forall|j: int|
                0 <= j < i ==> #[trigger] pieces@[j] == (BorderSegment {
                    from: chain@[j],
                    to: chain@[j + 1],
                }),
        decreases chain.len() - i,
    {
        pieces.push(BorderSegment { from: chain[i], to: chain[i + 1] });
        i += 1;
    }
    assert(pieces@ =~= segments_of(chain@));
    pieces
}

/// The border of one team, ready to draw; none where it has no outline.
pub fn team_border(board: &Board, team: Team) -> (border: Option<TeamBorder>)
    requires
        board.wf(),
    ensures
        match border {
            Some(b) => team_border_of(board@, team) == seq![b@],
            None => team_border_of(board@, team).len() == 0,
        },
{
    match extract_borders(board, team) {
        None => None,
        Some(chains) => {
            let mut pieces: Vec<BorderSegment> = Vec::new();
            let mut k: usize = 0;
            while k < chains.len()
                invariant
                    k <= chains.len(),
                    pieces@ == segments_upto(chains_view(chains@), k as nat),
                decreases chains.len() - k,
            {
                assert(chains_view(chains@)[k as int] == chains@[k as int]@);
                let mut more = segments(&chains[k]);
                pieces.append(&mut more);
                k += 1;
            }
            Some(TeamBorder { team, color: border_color(team), segments: pieces })
        },
    }
}

/// The borders to draw on a board: those of the allies, then those of the
/// enemies, each only where the team has an outline.
pub fn draw_borders(board: &Board) -> (borders: Vec<TeamBorder>)
    requires
        board.wf(),
    ensures
        borders@.map_values(|b: TeamBorder| b@) == borders_to_draw(board@),
{
    let mut borders: Vec<TeamBorder> = Vec::new();
    match team_border(board, Team::Ally) {
        Some(b) => {
            borders.push(b);
        },
        None => {},
    }
    match team_border(board, Team::Enemy) {
        Some(b) => {
            borders.push(b);
        },
        None => {},
    }
    assert(borders@.map_values(|b: TeamBorder| b@) =~= borders_to_draw(board@));
    borders
}

} // verus!
