//! What holds of the outlines: which points bound a territory, when there is
//! an outline at all, what stitching does with the points it is given, and
//! what the outline of a lone tile looks like.

use crate::board::{board_covers_its_disc, tiles_lie_in_range, BoardView, Team, Tile};
use crate::border::{
    borders_of, boundary_points, boundary_points_upto, closed, distinct_places, frontier_points,
    frontier_points_upto, is_foreign_neighbor, lemma_nearest_index, nearest_index, occupied,
    rim_points, rim_points_upto, stitch_from, stitched, tile_boundary,
};
use crate::coordinate::{neighbor_seq, neighbors_fit, HexCoordinate};
use crate::geometry::{beyond_edge, same_place, BorderPoint};
use crate::ring::{
    lemma_arc_slots, lemma_hexagon_outline, lemma_ring_slots, lemma_ring_walk,
    lemma_same_place_same_edge, is_hexagon_outline, on_ring, ring_point, ring_slot, ring_walk,
    wrapped,
};
use vstd::prelude::*;

verus! {

/// Some tile of another team than `team` lies at `cell`.
pub open spec fn foreign_at(board: BoardView, team: Team, cell: HexCoordinate) -> bool {
    exists|j: int|
        0 <= j < board.tiles.len() && (#[trigger] board.tiles[j]).coordinate == cell
            && board.tiles[j].team != team
}

/// The edge of `p` separates its tile from the rim or from foreign ground.
pub open spec fn is_boundary_edge(board: BoardView, team: Team, p: BorderPoint) -> bool {
    !board.in_range(p.neighbor) || foreign_at(board, team, p.neighbor)
}

/// The rim points of a cell are the middles of its edges towards cells off
/// the board, each once.
proof fn lemma_rim_points(board: BoardView, at: HexCoordinate, count: nat)
    requires
        neighbors_fit(at),
        count <= 6,
    ensures
        forall|i: int|
            0 <= i < rim_points_upto(board, at, count).len() ==> {
                let p = #[trigger] rim_points_upto(board, at, count)[i];
                on_ring(at, p) && ring_slot(p) < count && !board.in_range(p.neighbor)
            },
        forall|k: int|
            0 <= k < count && !board.in_range(neighbor_seq(at)[k]) ==> rim_points_upto(
                board,
                at,
                count,
            ).contains(#[trigger] ring_point(at, k)),
        rim_points_upto(board, at, count).no_duplicates(),
    decreases count,
{
    if count > 0 {
        let prior = (count - 1) as nat;
        lemma_rim_points(board, at, prior);
        lemma_ring_slots(at);
        let before = rim_points_upto(board, at, prior);
        let all = rim_points_upto(board, at, count);
        let last = ring_point(at, count - 1);
        assert forall|i: int| 0 <= i < all.len() implies {
            let p = #[trigger] all[i];
            on_ring(at, p) && ring_slot(p) < count && !board.in_range(p.neighbor)
        } by {
            if i < before.len() {
                assert(all[i] == before[i]);
            } else {
                assert(all[i] == last);
            }
        }
        assert forall|k: int|
            0 <= k < count && !board.in_range(neighbor_seq(at)[k]) implies all.contains(
            #[trigger] ring_point(at, k),
        ) by {
            if k < prior {
                assert(before.contains(ring_point(at, k)));
                let i = choose|i: int| 0 <= i < before.len() && before[i] == ring_point(at, k);
                assert(all[i] == ring_point(at, k));
            } else {
                assert(all[all.len() - 1] == last);
            }
        }
        assert forall|i: int, j: int| 0 <= i < all.len() && 0 <= j < all.len() && i != j implies all[i]
            != all[j] by {
            if i < before.len() {
                assert(all[i] == before[i]);
            }
            if j < before.len() {
                assert(all[j] == before[j]);
            }
        }
    }
}

/// The frontier points of a cell are the middles of its edges towards tiles
/// of other teams, each once.
proof fn lemma_frontier_points(board: BoardView, team: Team, at: HexCoordinate, count: nat)
    requires
        board.wf(),
        neighbors_fit(at),
        count <= board.tiles.len(),
    ensures
        forall|i: int|
            0 <= i < frontier_points_upto(board, team, at, count).len() ==> {
                let p = #[trigger] frontier_points_upto(board, team, at, count)[i];
                &&& on_ring(at, p)
                &&& exists|j: int|
                    0 <= j < count && (#[trigger] board.tiles[j]).coordinate == p.neighbor
                        && board.tiles[j].team != team
            },
        forall|j: int|
            0 <= j < count && is_foreign_neighbor(team, at, #[trigger] board.tiles[j])
                ==> frontier_points_upto(board, team, at, count).contains(
                BorderPoint { tile: at, neighbor: board.tiles[j].coordinate },
            ),
        frontier_points_upto(board, team, at, count).no_duplicates(),
    decreases count,
{
    if count > 0 {
        let prior = (count - 1) as nat;
        lemma_frontier_points(board, team, at, prior);
        lemma_ring_slots(at);
        board_covers_its_disc(board);
        let before = frontier_points_upto(board, team, at, prior);
        let all = frontier_points_upto(board, team, at, count);
        let tile = board.tiles[count - 1];
        let last = BorderPoint { tile: at, neighbor: tile.coordinate };
        if is_foreign_neighbor(team, at, tile) {
            let k = choose|k: int| 0 <= k < 6 && neighbor_seq(at)[k] == tile.coordinate;
            assert(last == ring_point(at, k));
        }
        assert forall|i: int| 0 <= i < all.len() implies {
            let p = #[trigger] all[i];
            &&& on_ring(at, p)
            &&& exists|j: int|
                0 <= j < count && (#[trigger] board.tiles[j]).coordinate == p.neighbor
                    && board.tiles[j].team != team
        } by {
            if i < before.len() {
                assert(all[i] == before[i]);
                let p = before[i];
                let j = choose|j: int|
                    0 <= j < prior && (#[trigger] board.tiles[j]).coordinate == p.neighbor
                        && board.tiles[j].team != team;
                assert(board.tiles[j].coordinate == p.neighbor);
            } else {
                assert(all[i] == last);
                assert(board.tiles[count - 1].coordinate == last.neighbor);
            }
        }
        assert forall|j: int|
            0 <= j < count && is_foreign_neighbor(team, at, #[trigger] board.tiles[j]) implies all.contains(
            BorderPoint { tile: at, neighbor: board.tiles[j].coordinate },
        ) by {
            let p = BorderPoint { tile: at, neighbor: board.tiles[j].coordinate };
            if j < prior {
                assert(before.contains(p));
                let i = choose|i: int| 0 <= i < before.len() && before[i] == p;
                assert(all[i] == p);
            } else {
                assert(all[all.len() - 1] == p);
            }
        }
        assert forall|i: int, j: int| 0 <= i < all.len() && 0 <= j < all.len() && i != j implies all[i]
            != all[j] by {
            if i < before.len() {
                assert(all[i] == before[i]);
                let p = before[i];
                let x = choose|x: int|
                    0 <= x < prior && (#[trigger] board.tiles[x]).coordinate == p.neighbor
                        && board.tiles[x].team != team;
                assert(board.tiles[x].coordinate != board.tiles[count - 1].coordinate);
            }
            if j < before.len() {
                assert(all[j] == before[j]);
                let p = before[j];
                let x = choose|x: int|
                    0 <= x < prior && (#[trigger] board.tiles[x]).coordinate == p.neighbor
                        && board.tiles[x].team != team;
                assert(board.tiles[x].coordinate != board.tiles[count - 1].coordinate);
            }
        }
    }
}

/// The boundary points around a tile are the middles of exactly those of its
/// six edges beyond which lies the rim of the board or a tile of another
/// team, each once.
pub proof fn tile_boundary_is_its_foreign_edges(board: BoardView, team: Team, at: HexCoordinate)
    requires
        board.wf(),
        neighbors_fit(at),
    ensures
        forall|i: int|
            0 <= i < tile_boundary(board, team, at).len() ==> on_ring(
                at,
                #[trigger] tile_boundary(board, team, at)[i],
            ) && is_boundary_edge(board, team, tile_boundary(board, team, at)[i]),
        forall|k: int|
            0 <= k < 6 && is_boundary_edge(board, team, #[trigger] ring_point(at, k))
                ==> tile_boundary(board, team, at).contains(ring_point(at, k)),
        tile_boundary(board, team, at).no_duplicates(),
{
    let rim = rim_points(board, at);
    let frontier = frontier_points(board, team, at);
    let all = tile_boundary(board, team, at);
    lemma_rim_points(board, at, 6);
    lemma_frontier_points(board, team, at, board.tiles.len());
    board_covers_its_disc(board);
    lemma_ring_slots(at);
    assert forall|i: int| 0 <= i < all.len() implies on_ring(at, #[trigger] all[i])
        && is_boundary_edge(board, team, all[i]) by {
        if i < rim.len() {
            assert(all[i] == rim[i]);
        } else {
            let p = frontier[i - rim.len()];
            assert(all[i] == p);
            let j = choose|j: int|
                0 <= j < board.tiles.len() && (#[trigger] board.tiles[j]).coordinate == p.neighbor
                    && board.tiles[j].team != team;
            assert(board.tiles[j].coordinate == p.neighbor);
        }
    }
    assert forall|k: int|
        0 <= k < 6 && is_boundary_edge(board, team, #[trigger] ring_point(at, k)) implies all.contains(
        ring_point(at, k),
    ) by {
        let p = ring_point(at, k);
        if !board.in_range(p.neighbor) {
            assert(rim.contains(p));
            let i = choose|i: int| 0 <= i < rim.len() && rim[i] == p;
            assert(all[i] == p);
        } else {
            let j = choose|j: int|
                0 <= j < board.tiles.len() && (#[trigger] board.tiles[j]).coordinate == p.neighbor
                    && board.tiles[j].team != team;
            assert(neighbor_seq(at)[k] == board.tiles[j].coordinate);
            assert(is_foreign_neighbor(team, at, board.tiles[j]));
            assert(frontier.contains(p));
            let i = choose|i: int| 0 <= i < frontier.len() && frontier[i] == p;
            assert(all[rim.len() + i] == p);
        }
    }
    assert forall|i: int, j: int| 0 <= i < all.len() && 0 <= j < all.len() && i != j implies all[i]
        != all[j] by {
        if i < rim.len() {
            assert(all[i] == rim[i]);
        } else {
            let p = frontier[i - rim.len()];
            assert(all[i] == p);
            let x = choose|x: int|
                0 <= x < board.tiles.len() && (#[trigger] board.tiles[x]).coordinate == p.neighbor
                    && board.tiles[x].team != team;
            assert(board.has_tile(p.neighbor));
        }
        if j < rim.len() {
            assert(all[j] == rim[j]);
        } else {
            let p = frontier[j - rim.len()];
            assert(all[j] == p);
            let x = choose|x: int|
                0 <= x < board.tiles.len() && (#[trigger] board.tiles[x]).coordinate == p.neighbor
                    && board.tiles[x].team != team;
            assert(board.has_tile(p.neighbor));
        }
    }
}

/// The boundary points of a territory are those of its tiles.
pub proof fn lemma_boundary_points_upto(board: BoardView, team: Team, count: nat)
    requires
        count <= board.tiles.len(),
    ensures
        forall|i: int|
            0 <= i < boundary_points_upto(board, team, count).len() ==> exists|j: int|
                0 <= j < count && (#[trigger] board.tiles[j]).team == team && tile_boundary(
                    board,
                    team,
                    board.tiles[j].coordinate,
                ).contains(#[trigger] boundary_points_upto(board, team, count)[i]),
        forall|j: int, p: BorderPoint|
            0 <= j < count && (#[trigger] board.tiles[j]).team == team && #[trigger] tile_boundary(
                board,
                team,
                board.tiles[j].coordinate,
            ).contains(p) ==> boundary_points_upto(board, team, count).contains(p),
    decreases count,
{
    if count > 0 {
        let prior = (count - 1) as nat;
        lemma_boundary_points_upto(board, team, prior);
        let before = boundary_points_upto(board, team, prior);
        let all = boundary_points_upto(board, team, count);
        let tile = board.tiles[count - 1];
        let around = tile_boundary(board, team, tile.coordinate);
        assert forall|i: int| 0 <= i < all.len() implies exists|j: int|
            0 <= j < count && (#[trigger] board.tiles[j]).team == team && tile_boundary(
                board,
                team,
                board.tiles[j].coordinate,
            ).contains(#[trigger] all[i]) by {
            if i < before.len() {
                assert(all[i] == before[i]);
                let j = choose|j: int|
                    0 <= j < prior && (#[trigger] board.tiles[j]).team == team && tile_boundary(
                        board,
                        team,
                        board.tiles[j].coordinate,
                    ).contains(before[i]);
                assert(board.tiles[j].team == team);
            } else {
                assert(all[i] == around[i - before.len()]);
                assert(around.contains(all[i]));
                assert(board.tiles[count - 1].team == team);
            }
        }
        assert forall|j: int, p: BorderPoint|
            0 <= j < count && (#[trigger] board.tiles[j]).team == team && #[trigger] tile_boundary(
                board,
                team,
                board.tiles[j].coordinate,
            ).contains(p) implies all.contains(p) by {
            if j < prior {
                assert(before.contains(p));
                let i = choose|i: int| 0 <= i < before.len() && before[i] == p;
                assert(all[i] == p);
            } else {
                let i = choose|i: int| 0 <= i < around.len() && around[i] == p;
                assert(all[before.len() + i] == p);
            }
        }
    }
}

/// The boundary points of the first `count` tiles each belong to a tile of
/// the team among them, and no point comes twice.
proof fn lemma_boundary_points_differ(board: BoardView, team: Team, count: nat)
    requires
        board.wf(),
        count <= board.tiles.len(),
    ensures
        forall|i: int|
            0 <= i < boundary_points_upto(board, team, count).len() ==> exists|j: int|
                0 <= j < count && (#[trigger] board.tiles[j]).team == team
                    && board.tiles[j].coordinate == (#[trigger] boundary_points_upto(
                    board,
                    team,
                    count,
                )[i]).tile,
        boundary_points_upto(board, team, count).no_duplicates(),
    decreases count,
{
    if count > 0 {
        let prior = (count - 1) as nat;
        lemma_boundary_points_differ(board, team, prior);
        board_covers_its_disc(board);
        let before = boundary_points_upto(board, team, prior);
        let all = boundary_points_upto(board, team, count);
        let tile = board.tiles[count - 1];
        let around = tile_boundary(board, team, tile.coordinate);
        tiles_lie_in_range(board, count - 1);
        tile_boundary_is_its_foreign_edges(board, team, tile.coordinate);
        assert forall|i: int| 0 <= i < all.len() implies exists|j: int|
            0 <= j < count && (#[trigger] board.tiles[j]).team == team && board.tiles[j].coordinate
                == (#[trigger] all[i]).tile by {
            if i < before.len() {
                assert(all[i] == before[i]);
                let j = choose|j: int|
                    0 <= j < prior && (#[trigger] board.tiles[j]).team == team
                        && board.tiles[j].coordinate == before[i].tile;
                assert(board.tiles[j].team == team);
            } else {
                assert(all[i] == around[i - before.len()]);
                assert(on_ring(tile.coordinate, around[i - before.len()]));
                assert(board.tiles[count - 1].team == team);
            }
        }
        assert forall|x: int, y: int| 0 <= x < all.len() && 0 <= y < all.len() && x != y implies all[x]
            != all[y] by {
            if x < before.len() {
                assert(all[x] == before[x]);
                let j = choose|j: int|
                    0 <= j < prior && (#[trigger] board.tiles[j]).team == team
                        && board.tiles[j].coordinate == before[x].tile;
                assert(board.tiles[j].coordinate != board.tiles[count - 1].coordinate);
            } else {
                assert(all[x] == around[x - before.len()]);
                assert(on_ring(tile.coordinate, around[x - before.len()]));
            }
            if y < before.len() {
                assert(all[y] == before[y]);
                let j = choose|j: int|
                    0 <= j < prior && (#[trigger] board.tiles[j]).team == team
                        && board.tiles[j].coordinate == before[y].tile;
                assert(board.tiles[j].coordinate != board.tiles[count - 1].coordinate);
            } else {
                assert(all[y] == around[y - before.len()]);
                assert(on_ring(tile.coordinate, around[y - before.len()]));
            }
        }
    }
}

/// Dropping the points that repeat a place keeps the first point, and
/// leaves nothing only where there was nothing.
pub proof fn lemma_distinct_places_keeps_first(points: Seq<BorderPoint>)
    requires
        points.len() > 0,
    ensures
        distinct_places(points).len() > 0,
        distinct_places(points)[0] == points[0],
    decreases points.len(),
{
    if points.len() > 1 {
        lemma_distinct_places_keeps_first(points.drop_last());
    } else {
        assert(points.drop_last().len() == 0);
        assert(distinct_places(points.drop_last()).len() == 0);
    }
}

/// Points of which no two lie at the same place all survive deduplication.
pub proof fn lemma_distinct_places_keeps_all(points: Seq<BorderPoint>)
    requires
        forall|i: int, j: int|
            0 <= i < j < points.len() ==> !same_place(#[trigger] points[i], #[trigger] points[j]),
    ensures
        distinct_places(points) == points,
    decreases points.len(),
{
    if points.len() > 0 {
        let front = points.drop_last();
        assert forall|i: int, j: int| 0 <= i < j < front.len() implies !same_place(
            #[trigger] front[i],
            #[trigger] front[j],
        ) by {
            assert(front[i] == points[i] && front[j] == points[j]);
        }
        lemma_distinct_places_keeps_all(front);
        if occupied(front, points.last()) {
            let i = choose|i: int| 0 <= i < front.len() && same_place(#[trigger] front[i], points.last());
            assert(front[i] == points[i]);
            assert(same_place(points[i], points[points.len() - 1]));
        }
        assert(front.push(points.last()) =~= points);
    }
}

/// No two boundary points of a territory lie at the same place: a boundary
/// edge has a tile of the team on one side only. Deduplication therefore
/// drops nothing on a well-formed board.
pub proof fn boundary_points_lie_apart(board: BoardView, team: Team)
    requires
        board.wf(),
    ensures
        forall|i: int, j: int|
            0 <= i < j < boundary_points(board, team).len() ==> !same_place(
                #[trigger] boundary_points(board, team)[i],
                #[trigger] boundary_points(board, team)[j],
            ),
        distinct_places(boundary_points(board, team)) == boundary_points(board, team),
{
    let points = boundary_points(board, team);
    lemma_boundary_points_upto(board, team, board.tiles.len());
    lemma_boundary_points_differ(board, team, board.tiles.len());
    board_covers_its_disc(board);
    assert forall|i: int, j: int| 0 <= i < j < points.len() implies !same_place(
        #[trigger] points[i],
        #[trigger] points[j],
    ) by {
        let a = points[i];
        let b = points[j];
        let x = choose|x: int|
            0 <= x < board.tiles.len() && (#[trigger] board.tiles[x]).team == team && tile_boundary(
                board,
                team,
                board.tiles[x].coordinate,
            ).contains(points[i]);
        let y = choose|y: int|
            0 <= y < board.tiles.len() && (#[trigger] board.tiles[y]).team == team && tile_boundary(
                board,
                team,
                board.tiles[y].coordinate,
            ).contains(points[j]);
        let first = board.tiles[x].coordinate;
        let second = board.tiles[y].coordinate;
        tiles_lie_in_range(board, x);
        tiles_lie_in_range(board, y);
        tile_boundary_is_its_foreign_edges(board, team, first);
        tile_boundary_is_its_foreign_edges(board, team, second);
        let u = choose|u: int|
            0 <= u < tile_boundary(board, team, first).len() && tile_boundary(board, team, first)[u]
                == a;
        let v = choose|v: int|
            0 <= v < tile_boundary(board, team, second).len() && tile_boundary(
                board,
                team,
                second,
            )[v] == b;
        assert(on_ring(first, a) && is_boundary_edge(board, team, a));
        assert(on_ring(second, b) && is_boundary_edge(board, team, b));
        if same_place(a, b) {
            lemma_same_place_same_edge(first, second, a, b);
            assert(a != b);
            assert(b.neighbor == first);
            assert(board.has_tile(first));
            if foreign_at(board, team, b.neighbor) {
                let z = choose|z: int|
                    0 <= z < board.tiles.len() && (#[trigger] board.tiles[z]).coordinate
                        == b.neighbor && board.tiles[z].team != team;
                assert(board.tiles[z].coordinate == board.tiles[x].coordinate);
                assert(z == x);
            }
            assert(false);
        }
    }
    lemma_distinct_places_keeps_all(points);
}

/// `team` owns some tile of the board.
pub open spec fn owns_a_tile(board: BoardView, team: Team) -> bool {
    exists|i: int| 0 <= i < board.tiles.len() && (#[trigger] board.tiles[i]).team == team
}

/// A team owns a tile precisely when the list of its tiles is not empty.
pub proof fn lemma_owns_a_tile(board: BoardView, team: Team)
    ensures
        owns_a_tile(board, team) <==> board.tiles_of_team(team).len() > 0,
{
    let owned = |t: Tile| t.team == team;
    let mine = board.tiles.filter(owned);
    if owns_a_tile(board, team) {
        let i = choose|i: int| 0 <= i < board.tiles.len() && (#[trigger] board.tiles[i]).team == team;
        assert(owned(board.tiles[i]));
        board.tiles.lemma_filter_contains(owned, i);
        assert(mine.contains(board.tiles[i]));
    }
    if mine.len() > 0 {
        board.tiles.lemma_filter_pred(owned, 0);
        assert(owned(mine[0]));
        assert(mine.contains(mine[0]));
        board.tiles.lemma_filter_contains_rev(owned, mine[0]);
        assert(board.tiles.contains(mine[0]));
        let i = choose|i: int| 0 <= i < board.tiles.len() && board.tiles[i] == mine[0];
        assert(board.tiles[i].team == team);
    }
}

/// Among the first `count` tiles, one of `team` that lies furthest to the right.
proof fn rightmost_tile(board: BoardView, team: Team, count: nat) -> (best: int)
    requires
        count <= board.tiles.len(),
        exists|i: int| 0 <= i < count && (#[trigger] board.tiles[i]).team == team,
    ensures
        0 <= best < count,
        board.tiles[best].team == team,
        forall|i: int|
            0 <= i < count && (#[trigger] board.tiles[i]).team == team
                ==> board.tiles[i].coordinate.q <= board.tiles[best].coordinate.q,
    decreases count,
{
    let last = count - 1;
    if exists|i: int| 0 <= i < last && (#[trigger] board.tiles[i]).team == team {
        let earlier = rightmost_tile(board, team, last as nat);
        if board.tiles[last].team == team && board.tiles[last].coordinate.q
            > board.tiles[earlier].coordinate.q {
            last
        } else {
            earlier
        }
    } else {
        let i = choose|i: int| 0 <= i < count && (#[trigger] board.tiles[i]).team == team;
        assert(i == last);
        last
    }
}

/// A territory has an outline precisely when it has a tile: extraction finds
/// nothing for a team that owns no tile, and something for every other.
pub proof fn outline_exists_iff_team_owns_a_tile(board: BoardView, team: Team)
    requires
        board.wf(),
    ensures
        borders_of(board, team) is None <==> board.tiles_of_team(team).len() == 0,
        borders_of(board, team) is None <==> !owns_a_tile(board, team),
{
    lemma_owns_a_tile(board, team);
    lemma_boundary_points_upto(board, team, board.tiles.len());
    let points = boundary_points(board, team);
    if owns_a_tile(board, team) {
        let best = rightmost_tile(board, team, board.tiles.len());
        let at = board.tiles[best].coordinate;
        tiles_lie_in_range(board, best);
        tile_boundary_is_its_foreign_edges(board, team, at);
        lemma_ring_slots(at);
        board_covers_its_disc(board);
        let p = ring_point(at, 0);
        assert(p.neighbor.q == at.q + 1);
        if board.in_range(p.neighbor) {
            assert(board.has_tile(p.neighbor));
            let j = choose|j: int|
                0 <= j < board.tiles.len() && (#[trigger] board.tiles[j]).coordinate == p.neighbor;
            assert(board.tiles[j].team != team);
            assert(foreign_at(board, team, p.neighbor));
        }
        assert(is_boundary_edge(board, team, p));
        assert(tile_boundary(board, team, at).contains(p));
        assert(board.tiles[best].team == team);
        assert(points.contains(p));
        lemma_distinct_places_keeps_first(points);
    } else {
        if points.len() > 0 {
            let j = choose|j: int|
                0 <= j < board.tiles.len() && (#[trigger] board.tiles[j]).team == team
                    && tile_boundary(board, team, board.tiles[j].coordinate).contains(points[0]);
            assert(board.tiles[j].team == team);
        }
        assert(distinct_places(points).len() == 0);
    }
}

/// Every chain that stitching makes ends where it began, and the chain
/// under way keeps the points it already has.
pub proof fn stitched_chains_are_closed(
    current: BorderPoint,
    chain: Seq<BorderPoint>,
    rest: Seq<BorderPoint>,
)
    ensures
        forall|k: int|
            0 <= k < stitch_from(current, chain, rest).len() ==> {
                let c = #[trigger] stitch_from(current, chain, rest)[k];
                c.len() >= 2 && c.last() == c.first()
            },
        rest.len() > 0 ==> stitch_from(current, chain, rest).len() >= 1 && chain.push(
            current,
        ).is_prefix_of(stitch_from(current, chain, rest)[0]),
    decreases rest.len(),
{
    if rest.len() > 0 {
        lemma_nearest_index(current, rest);
        let i = nearest_index(current, rest);
        let next = rest[i];
        let left = rest.remove(i);
        let grown = chain.push(current);
        let all = stitch_from(current, chain, rest);
        if left.len() == 0 {
            assert(all[0] == closed(grown.push(next)));
            assert(grown =~= all[0].subrange(0, grown.len() as int));
        } else if beyond_edge(current, next) {
            stitched_chains_are_closed(next, Seq::empty(), left);
            let later = stitch_from(next, Seq::empty(), left);
            assert(all[0] == closed(grown));
            assert(grown =~= all[0].subrange(0, grown.len() as int));
            assert forall|k: int| 0 <= k < all.len() implies {
                let c = #[trigger] all[k];
                c.len() >= 2 && c.last() == c.first()
            } by {
                if k > 0 {
                    assert(all[k] == later[k - 1]);
                }
            }
        } else {
            stitched_chains_are_closed(next, grown, left);
            let first = stitch_from(next, grown, left)[0];
            assert(grown.push(next) =~= first.subrange(0, grown.len() + 1 as int));
            assert(grown =~= first.subrange(0, grown.len() as int));
        }
    }
}

/// The points that the chains walk: each chain without the copy of its first
/// point at its end, chain after chain.
pub open spec fn walked_points(chains: Seq<Seq<BorderPoint>>) -> Seq<BorderPoint>
    decreases chains.len(),
{
    if chains.len() == 0 {
        Seq::empty()
    } else {
        walked_points(chains.drop_last()) + chains.last().drop_last()
    }
}

/// The points walked by a chain and the chains after it are those of the
/// chain followed by those of the others.
proof fn lemma_walked_points_prepend(first: Seq<BorderPoint>, later: Seq<Seq<BorderPoint>>)
    ensures
        walked_points(seq![first] + later) == first.drop_last() + walked_points(later),
    decreases later.len(),
{
    let all = seq![first] + later;
    if later.len() == 0 {
        assert(all.drop_last() =~= Seq::<Seq<BorderPoint>>::empty());
        assert(walked_points(all.drop_last()) =~= Seq::<BorderPoint>::empty());
        assert(all.last() == first);
        assert(walked_points(all) =~= first.drop_last() + walked_points(later));
    } else {
        lemma_walked_points_prepend(first, later.drop_last());
        assert(all.drop_last() =~= seq![first] + later.drop_last());
        assert(all.last() == later.last());
        assert(walked_points(all) =~= first.drop_last() + walked_points(later));
    }
}

/// Moving a point from the points left to the end of the chain changes
/// nothing about which points there are.
proof fn lemma_move_point(grown: Seq<BorderPoint>, rest: Seq<BorderPoint>, i: int)
    requires
        0 <= i < rest.len(),
    ensures
        (grown.push(rest[i]) + rest.remove(i)).to_multiset() == (grown + rest).to_multiset(),
{
    broadcast use vstd::multiset::group_multiset_axioms;

    vstd::seq_lib::lemma_multiset_commutative(grown.push(rest[i]), rest.remove(i));
    vstd::seq_lib::lemma_multiset_commutative(grown, rest);
    vstd::seq_lib::to_multiset_build(grown, rest[i]);
    vstd::seq_lib::to_multiset_remove(rest, i);
    rest.to_multiset_ensures();
    assert(rest.to_multiset().count(rest[i]) > 0);
    assert((grown.push(rest[i]) + rest.remove(i)).to_multiset() =~= (grown + rest).to_multiset());
}

/// Stitching loses no point and makes none up: the chains walk exactly the
/// points they were given, each as often as it was given.
pub proof fn stitching_walks_every_point_once(
    current: BorderPoint,
    chain: Seq<BorderPoint>,
    rest: Seq<BorderPoint>,
)
    requires
        rest.len() > 0,
    ensures
        walked_points(stitch_from(current, chain, rest)).to_multiset() == (chain.push(current)
            + rest).to_multiset(),
    decreases rest.len(),
{
    lemma_nearest_index(current, rest);
    let i = nearest_index(current, rest);
    let next = rest[i];
    let left = rest.remove(i);
    let grown = chain.push(current);
    let all = stitch_from(current, chain, rest);
    lemma_move_point(grown, rest, i);
    if left.len() == 0 {
        let only = closed(grown.push(next));
        lemma_walked_points_prepend(only, Seq::empty());
        assert(seq![only] + Seq::<Seq<BorderPoint>>::empty() =~= seq![only]);
        assert(walked_points(Seq::<Seq<BorderPoint>>::empty()) =~= Seq::<BorderPoint>::empty());
        assert(only.drop_last() =~= grown.push(next));
        assert(walked_points(all) =~= grown.push(next) + left);
    } else if beyond_edge(current, next) {
        let later = stitch_from(next, Seq::empty(), left);
        stitching_walks_every_point_once(next, Seq::empty(), left);
        lemma_walked_points_prepend(closed(grown), later);
        assert(closed(grown).drop_last() =~= grown);
        vstd::seq_lib::lemma_multiset_commutative(grown, walked_points(later));
        vstd::seq_lib::lemma_multiset_commutative(grown, Seq::<BorderPoint>::empty().push(next) + left);
        assert(grown + (Seq::<BorderPoint>::empty().push(next) + left) =~= grown.push(next) + left);
    } else {
        stitching_walks_every_point_once(next, grown, left);
    }
}

/// Extraction depends on nothing but the board and the team: whatever two
/// runs on the same board return, it is the same chains of the same points
/// in the same order.
pub proof fn extraction_is_repeatable(
    board: BoardView,
    team: Team,
    first: Option<Seq<Seq<BorderPoint>>>,
    second: Option<Seq<Seq<BorderPoint>>>,
)
    requires
        first == borders_of(board, team),
        second == borders_of(board, team),
    ensures
        first == second,
{
}

/// The boundary points of a team that owns the tile `only` and no other are
/// those around that tile.
proof fn lemma_boundary_of_lone_tile(board: BoardView, team: Team, only: int, count: nat)
    requires
        count <= board.tiles.len(),
        0 <= only < board.tiles.len(),
        forall|j: int|
            0 <= j < board.tiles.len() ==> ((#[trigger] board.tiles[j]).team == team <==> j == only),
    ensures
        boundary_points_upto(board, team, count) == (if count <= only {
            Seq::empty()
        } else {
            tile_boundary(board, team, board.tiles[only].coordinate)
        }),
    decreases count,
{
    if count > 0 {
        lemma_boundary_of_lone_tile(board, team, only, (count - 1) as nat);
        let before = boundary_points_upto(board, team, (count - 1) as nat);
        let tile = board.tiles[count - 1];
        if count - 1 == only {
            assert(before + tile_boundary(board, team, tile.coordinate) =~= tile_boundary(
                board,
                team,
                tile.coordinate,
            ));
        } else {
            assert(tile.team != team);
        }
    }
}

/// The outline of a territory of one tile is one closed chain round that
/// tile: the middles of its six edges, walked edge by edge from one of them
/// and back to it.
pub proof fn lone_tile_has_a_hexagon_outline(board: BoardView, team: Team, only: int)
    requires
        board.wf(),
        0 <= only < board.tiles.len(),
        forall|j: int|
            0 <= j < board.tiles.len() ==> ((#[trigger] board.tiles[j]).team == team <==> j == only),
    ensures
        borders_of(board, team) is Some,
        borders_of(board, team)->0.len() == 1,
        is_hexagon_outline(board.tiles[only].coordinate, borders_of(board, team)->0[0]),
        borders_of(board, team)->0[0].len() == 7,
        borders_of(board, team)->0[0].last() == borders_of(board, team)->0[0].first(),
        borders_of(board, team)->0[0].take(6).no_duplicates(),
        forall|k: int|
            0 <= k < 6 ==> borders_of(board, team)->0[0].take(6).contains(
                #[trigger] ring_point(board.tiles[only].coordinate, k),
            ),
{
    let at = board.tiles[only].coordinate;
    let points = boundary_points(board, team);
    tiles_lie_in_range(board, only);
    board_covers_its_disc(board);
    lemma_boundary_of_lone_tile(board, team, only, board.tiles.len());
    assert(points == tile_boundary(board, team, at));
    tile_boundary_is_its_foreign_edges(board, team, at);
    lemma_ring_slots(at);
    // Every edge of the tile is a boundary edge.
    assert forall|k: int| 0 <= k < 6 implies points.contains(#[trigger] ring_point(at, k)) by {
        let p = ring_point(at, k);
        if board.in_range(p.neighbor) {
            assert(board.has_tile(p.neighbor));
            let j = choose|j: int|
                0 <= j < board.tiles.len() && (#[trigger] board.tiles[j]).coordinate == p.neighbor;
            assert(j != only);
            assert(board.tiles[j].team != team);
            assert(foreign_at(board, team, p.neighbor));
        }
        assert(is_boundary_edge(board, team, p));
    }
    // No two of them lie at the same place.
    assert forall|i: int, j: int| 0 <= i < j < points.len() implies !same_place(
        #[trigger] points[i],
        #[trigger] points[j],
    ) by {
        assert(on_ring(at, points[i]) && on_ring(at, points[j]));
        assert(points[i] != points[j]);
    }
    lemma_distinct_places_keeps_all(points);
    assert(points.contains(ring_point(at, 0)));
    assert(points.len() > 0);
    let current = points[0];
    let rest = points.drop_first();
    let start = ring_slot(current);
    let walked = Seq::<BorderPoint>::empty().push(current);
    assert(on_ring(at, current));
    lemma_arc_slots(start, true);
    assert forall|j: int| 0 <= j < rest.len() implies on_ring(at, #[trigger] rest[j]) by {
        assert(rest[j] == points[j + 1]);
    }
    assert forall|x: int, y: int| 0 <= x < rest.len() && 0 <= y < rest.len() && x != y implies rest[x]
        != rest[y] by {
        assert(rest[x] == points[x + 1] && rest[y] == points[y + 1]);
    }
    assert forall|x: int, y: int| 0 <= x < walked.len() && 0 <= y < rest.len() implies #[trigger] walked[x]
        != #[trigger] rest[y] by {
        assert(rest[y] == points[y + 1]);
        assert(walked[x] == points[0]);
    }
    assert forall|k: int| 0 <= k < 6 implies walked.contains(#[trigger] ring_point(at, k))
        || rest.contains(ring_point(at, k)) by {
        let p = ring_point(at, k);
        let x = choose|x: int| 0 <= x < points.len() && points[x] == p;
        if x == 0 {
            assert(walked[0] == p);
        } else {
            assert(rest[x - 1] == p);
        }
    }
    let other = ring_point(at, wrapped(start + 1));
    assert(other != current);
    assert(walked.contains(other) || rest.contains(other));
    if walked.contains(other) {
        let x = choose|x: int| 0 <= x < walked.len() && walked[x] == other;
        assert(walked[x] == current);
    }
    assert(rest.len() > 0);
    assert(ring_walk(at, walked, rest, start, true));
    lemma_ring_walk(at, current, Seq::empty(), rest, start, true);
    let chains = stitch_from(current, Seq::empty(), rest);
    assert(stitched(points) == Some(chains));
    lemma_hexagon_outline(at, chains[0]);
}

} // verus!
