use hex_territory::board::{Board, Team};
use hex_territory::border::{
    at_same_place, boundary_of_tile, collect_boundary_points, deduplicate, draw_borders,
    extract_borders, nearest, segments, stitch, team_border, BorderSegment,
};
use hex_territory::coordinate::HexCoordinate;
use hex_territory::geometry::{integer_sqrt, pixel_distance_between, BorderPoint, HEX_SIZE};
use hex_territory::palette::ColorBucket;

fn hex(q: i32, r: i32) -> HexCoordinate {
    HexCoordinate::new(q, r)
}

fn edge(tile: (i32, i32), neighbor: (i32, i32)) -> BorderPoint {
    BorderPoint { tile: hex(tile.0, tile.1), neighbor: hex(neighbor.0, neighbor.1) }
}

/// The middle of the edge of `tile` in the given slot, counted
/// counter-clockwise from the right.
fn slot(tile: (i32, i32), k: usize) -> BorderPoint {
    let offsets = [(1, 0), (0, 1), (-1, 1), (-1, 0), (0, -1), (1, -1)];
    edge(tile, (tile.0 + offsets[k].0, tile.1 + offsets[k].1))
}

fn ring(tile: (i32, i32), slots: &[usize]) -> Vec<BorderPoint> {
    slots.iter().map(|k| slot(tile, *k)).collect()
}

#[test]
fn integer_sqrt_rounds_down() {
    assert_eq!(integer_sqrt(0), 0);
    assert_eq!(integer_sqrt(1), 1);
    assert_eq!(integer_sqrt(3), 1);
    assert_eq!(integer_sqrt(4), 2);
    assert_eq!(integer_sqrt(99), 9);
    assert_eq!(integer_sqrt(100), 10);
    assert_eq!(integer_sqrt(1354), 36);
    assert_eq!(integer_sqrt(1u128 << 79), 777_472_127_993);
    assert_eq!(integer_sqrt((1u128 << 80) - 1), (1u128 << 40) - 1);
    assert_eq!(integer_sqrt(u128::MAX), (1u128 << 64) - 1);
}

#[test]
fn pixel_distance_between_edge_middles_of_one_hexagon() {
    let at = (2, -3);
    assert_eq!(pixel_distance_between(slot(at, 0), slot(at, 0)), 0);
    assert_eq!(pixel_distance_between(slot(at, 0), slot(at, 1)), 36);
    assert_eq!(pixel_distance_between(slot(at, 0), slot(at, 5)), 36);
    assert_eq!(pixel_distance_between(slot(at, 0), slot(at, 2)), 63);
    assert_eq!(pixel_distance_between(slot(at, 4), slot(at, 2)), 63);
    assert_eq!(pixel_distance_between(slot(at, 0), slot(at, 3)), 73);
    assert_eq!(pixel_distance_between(slot(at, 1), slot(at, 4)), 73);
}

#[test]
fn pixel_distance_between_far_points() {
    // Doubled midpoints (-6, -1) and (5, 0): squared lattice length 133.
    assert_eq!(pixel_distance_between(slot((-3, 0), 4), slot((3, 0), 3)), 424);
    // Doubled midpoints differ by (4, 4): squared lattice length 48, exactly 255 pixels.
    assert_eq!(pixel_distance_between(edge((0, 0), (1, 0)), edge((2, 2), (3, 2))), 255);
}

#[test]
fn pixel_distance_stops_at_the_largest_i32() {
    let low = edge((i32::MIN, i32::MIN), (i32::MIN, i32::MIN));
    let high = edge((i32::MAX, i32::MAX), (i32::MAX, i32::MAX));
    assert_eq!(pixel_distance_between(low, high), i32::MAX);
    assert_eq!(pixel_distance_between(high, low), i32::MAX);
}

#[test]
fn adjacent_edge_middles_are_within_one_edge_length() {
    assert!(pixel_distance_between(slot((0, 0), 2), slot((0, 0), 3)) <= HEX_SIZE);
    assert!(pixel_distance_between(slot((0, 0), 2), slot((0, 0), 4)) > HEX_SIZE);
}

#[test]
fn same_place_is_the_same_edge_from_either_side() {
    assert!(at_same_place(edge((0, 0), (1, 0)), edge((1, 0), (0, 0))));
    assert!(at_same_place(edge((0, 0), (1, 0)), edge((0, 0), (1, 0))));
    assert!(!at_same_place(edge((0, 0), (1, 0)), edge((0, 0), (0, 1))));
    assert!(!at_same_place(edge((0, 0), (1, 0)), edge((1, 0), (2, 0))));
}

#[test]
fn deduplicate_keeps_the_first_of_each_place() {
    let points = vec![
        edge((0, 0), (1, 0)),
        edge((0, 0), (0, 1)),
        edge((1, 0), (0, 0)),
        edge((0, 0), (0, 1)),
        edge((0, 0), (-1, 0)),
    ];
    assert_eq!(
        deduplicate(&points),
        vec![edge((0, 0), (1, 0)), edge((0, 0), (0, 1)), edge((0, 0), (-1, 0))]
    );
    assert_eq!(deduplicate(&Vec::new()), Vec::new());
}

#[test]
fn nearest_takes_the_first_of_the_closest() {
    let from = slot((0, 0), 0);
    assert_eq!(nearest(from, &ring((0, 0), &[3, 5, 1, 2])), 1);
    assert_eq!(nearest(from, &ring((0, 0), &[3, 1, 5, 2])), 1);
    assert_eq!(nearest(from, &ring((0, 0), &[3, 2, 4])), 1);
    assert_eq!(nearest(from, &ring((0, 0), &[3])), 0);
}

#[test]
fn stitch_of_nothing_is_none() {
    assert_eq!(stitch(Vec::new()), None);
}

#[test]
fn stitch_of_one_point_has_no_chain() {
    assert_eq!(stitch(vec![slot((0, 0), 0)]), Some(Vec::new()));
}

#[test]
fn stitch_of_two_near_points_closes_one_chain() {
    let a = slot((0, 0), 0);
    let b = slot((0, 0), 1);
    assert_eq!(stitch(vec![a, b]), Some(vec![vec![a, b, a]]));
}

#[test]
fn stitch_of_two_far_points_keeps_both_in_one_chain() {
    let a = slot((0, 0), 0);
    let b = slot((0, 0), 3);
    assert_eq!(stitch(vec![a, b]), Some(vec![vec![a, b, a]]));
}

#[test]
fn stitch_starts_a_new_chain_after_a_jump() {
    let a = ring((0, 0), &[0, 1]);
    let b = ring((4, 0), &[0, 1]);
    let points = vec![a[0], a[1], b[0], b[1]];
    // From a[1], at doubled midpoint (0, 1), b[1] at (8, 1) is nearer than b[0] at (9, 0):
    // the squared lattice lengths are 64 and 73.
    assert_eq!(pixel_distance_between(a[1], b[1]), 294);
    assert_eq!(pixel_distance_between(a[1], b[0]), 314);
    assert_eq!(
        stitch(points),
        Some(vec![vec![a[0], a[1], a[0]], vec![b[1], b[0], b[1]]])
    );
}

#[test]
fn stitch_walks_round_a_hexagon_whatever_the_order() {
    let at = (1, -2);
    assert_eq!(
        stitch(ring(at, &[0, 1, 2, 3, 4, 5])),
        Some(vec![ring(at, &[0, 1, 2, 3, 4, 5, 0])])
    );
    assert_eq!(
        stitch(ring(at, &[0, 5, 2, 3, 4, 1])),
        Some(vec![ring(at, &[0, 5, 4, 3, 2, 1, 0])])
    );
    assert_eq!(
        stitch(ring(at, &[3, 2, 4, 1, 5, 0])),
        Some(vec![ring(at, &[3, 2, 1, 0, 5, 4, 3])])
    );
    assert_eq!(
        stitch(ring(at, &[4, 0, 2, 5, 1, 3])),
        Some(vec![ring(at, &[4, 5, 0, 1, 2, 3, 4])])
    );
}

#[test]
fn boundary_of_tile_lists_rim_then_foreign_neighbors() {
    let mut board = Board::build(1);
    board.set_team(hex(1, 0), Team::Ally);
    assert_eq!(boundary_of_tile(&board, Team::Ally, hex(1, 0)), ring((1, 0), &[0, 1, 5, 3, 2, 4]));
}

#[test]
fn boundary_of_tile_skips_neighbors_of_the_same_team() {
    let mut board = Board::build(2);
    board.set_team(hex(0, 0), Team::Enemy);
    board.set_team(hex(1, 0), Team::Enemy);
    board.set_team(hex(0, 1), Team::Ally);
    // Board order of the neighbours of the origin: (-1,0), (-1,1), (0,-1), (0,1), (1,-1).
    assert_eq!(boundary_of_tile(&board, Team::Enemy, hex(0, 0)), ring((0, 0), &[3, 2, 4, 1, 5]));
}

#[test]
fn collect_boundary_points_goes_tile_by_tile() {
    let mut board = Board::build(5);
    board.set_team(hex(-3, 0), Team::Ally);
    board.set_team(hex(3, 0), Team::Ally);
    let mut expected = ring((-3, 0), &[3, 2, 4, 1, 5, 0]);
    expected.extend(ring((3, 0), &[3, 2, 4, 1, 5, 0]));
    assert_eq!(collect_boundary_points(&board, Team::Ally), expected);
    assert_eq!(collect_boundary_points(&board, Team::Enemy), Vec::new());
}

#[test]
fn single_ally_tile_on_radius_one_board_has_a_closed_hexagon() {
    let mut board = Board::build(1);
    board.set_team(hex(0, 0), Team::Ally);
    let outlines = extract_borders(&board, Team::Ally).expect("the allies own a tile");
    assert_eq!(outlines.len(), 1);
    let chain = &outlines[0];
    assert_eq!(chain.len(), 7);
    assert_eq!(chain[0], chain[6]);
    assert_eq!(*chain, ring((0, 0), &[3, 2, 1, 0, 5, 4, 3]));
    for k in 0..6 {
        assert!(chain[..6].contains(&slot((0, 0), k)));
        assert_eq!(pixel_distance_between(chain[k], chain[k + 1]), 36);
    }
}

#[test]
fn two_distant_ally_tiles_have_two_closed_hexagons() {
    let mut board = Board::build(5);
    board.set_team(hex(-3, 0), Team::Ally);
    board.set_team(hex(3, 0), Team::Ally);
    assert!(hex(-3, 0).distance(hex(3, 0)) > 2);
    let outlines = extract_borders(&board, Team::Ally).expect("the allies own tiles");
    assert_eq!(
        outlines,
        vec![ring((-3, 0), &[3, 2, 1, 0, 5, 4, 3]), ring((3, 0), &[3, 2, 1, 0, 5, 4, 3])]
    );
}

#[test]
fn lone_tile_on_the_rim_has_a_closed_hexagon() {
    let mut board = Board::build(1);
    board.set_team(hex(1, 0), Team::Enemy);
    assert_eq!(
        extract_borders(&board, Team::Enemy),
        Some(vec![ring((1, 0), &[0, 1, 2, 3, 4, 5, 0])])
    );
}

#[test]
fn lone_tile_anywhere_has_one_chain_of_six_edges() {
    let cells = hex(0, 0).range(3);
    for cell in cells {
        let mut board = Board::build(3);
        board.set_team(cell, Team::Ally);
        let outlines = extract_borders(&board, Team::Ally).expect("the allies own a tile");
        assert_eq!(outlines.len(), 1);
        assert_eq!(outlines[0].len(), 7);
        assert_eq!(outlines[0][0], outlines[0][6]);
        for k in 0..6 {
            assert!(outlines[0][..6].contains(&slot((cell.q, cell.r), k)));
        }
    }
}

#[test]
fn team_without_tiles_has_no_border() {
    let mut board = Board::build(3);
    assert_eq!(extract_borders(&board, Team::Ally), None);
    assert_eq!(extract_borders(&board, Team::Enemy), None);
    board.set_team(hex(0, 0), Team::Ally);
    assert_eq!(extract_borders(&board, Team::Enemy), None);
    assert!(extract_borders(&board, Team::Ally).is_some());
    assert!(extract_borders(&board, Team::Neutral).is_some());
}

#[test]
fn extraction_twice_gives_the_same_polylines() {
    let mut board = Board::build(4);
    for cell in [hex(0, 0), hex(1, 0), hex(1, 1), hex(-2, 3), hex(4, -4), hex(-4, 0)] {
        board.set_team(cell, Team::Ally);
    }
    board.set_team(hex(0, 1), Team::Enemy);
    let first = extract_borders(&board, Team::Ally);
    let second = extract_borders(&board, Team::Ally);
    assert!(first.is_some());
    assert_eq!(first, second);
    assert_eq!(extract_borders(&board, Team::Enemy), extract_borders(&board, Team::Enemy));
}

#[test]
fn every_chain_is_closed_and_every_boundary_point_is_used_once() {
    let mut board = Board::build(4);
    for cell in [hex(0, 0), hex(1, 0), hex(1, 1), hex(-2, 3), hex(4, -4), hex(-4, 0), hex(2, 0)] {
        board.set_team(cell, Team::Ally);
    }
    let points = collect_boundary_points(&board, Team::Ally);
    let outlines = extract_borders(&board, Team::Ally).expect("the allies own tiles");
    let mut walked = Vec::new();
    for chain in &outlines {
        assert!(chain.len() >= 2);
        assert_eq!(chain.first(), chain.last());
        walked.extend_from_slice(&chain[..chain.len() - 1]);
    }
    assert_eq!(walked.len(), points.len());
    for p in &points {
        assert_eq!(walked.iter().filter(|w| *w == p).count(), 1);
    }
}

#[test]
fn two_adjacent_tiles_share_no_boundary_point() {
    let mut board = Board::build(2);
    board.set_team(hex(0, 0), Team::Ally);
    board.set_team(hex(1, 0), Team::Ally);
    let points = collect_boundary_points(&board, Team::Ally);
    assert_eq!(points.len(), 10);
    assert!(!points.contains(&edge((0, 0), (1, 0))));
    assert!(!points.contains(&edge((1, 0), (0, 0))));
    assert_eq!(deduplicate(&points), points);
}

#[test]
fn two_adjacent_tiles_are_outlined_by_one_chain() {
    let mut board = Board::build(2);
    board.set_team(hex(0, 0), Team::Ally);
    board.set_team(hex(1, 0), Team::Ally);
    let a = (0, 0);
    let b = (1, 0);
    assert_eq!(
        extract_borders(&board, Team::Ally),
        Some(vec![vec![
            slot(a, 3),
            slot(a, 2),
            slot(a, 1),
            slot(b, 2),
            slot(b, 1),
            slot(b, 0),
            slot(b, 5),
            slot(b, 4),
            slot(a, 5),
            slot(a, 4),
            slot(a, 3),
        ]])
    );
}

#[test]
fn segments_join_consecutive_points() {
    let chain = ring((0, 0), &[0, 1, 2, 0]);
    assert_eq!(
        segments(&chain),
        vec![
            BorderSegment { from: chain[0], to: chain[1] },
            BorderSegment { from: chain[1], to: chain[2] },
            BorderSegment { from: chain[2], to: chain[3] },
        ]
    );
    assert_eq!(segments(&Vec::new()), Vec::new());
    assert_eq!(segments(&ring((0, 0), &[0])), Vec::new());
}

#[test]
fn team_border_has_the_team_colour_and_all_segments() {
    let mut board = Board::build(5);
    board.set_team(hex(-3, 0), Team::Enemy);
    board.set_team(hex(3, 0), Team::Enemy);
    let border = team_border(&board, Team::Enemy).expect("the enemies own tiles");
    assert_eq!(border.team, Team::Enemy);
    assert_eq!(border.color, ColorBucket::EnemyBorder);
    let mut expected = segments(&ring((-3, 0), &[3, 2, 1, 0, 5, 4, 3]));
    expected.extend(segments(&ring((3, 0), &[3, 2, 1, 0, 5, 4, 3])));
    assert_eq!(border.segments.len(), 12);
    assert_eq!(border.segments, expected);
    assert!(team_border(&board, Team::Ally).is_none());
}

#[test]
fn draw_borders_lists_allies_before_enemies() {
    let mut board = Board::build(2);
    assert!(draw_borders(&board).is_empty());
    board.set_team(hex(1, 0), Team::Enemy);
    let only_enemy = draw_borders(&board);
    assert_eq!(only_enemy.len(), 1);
    assert_eq!(only_enemy[0].team, Team::Enemy);
    board.set_team(hex(-1, 0), Team::Ally);
    let both = draw_borders(&board);
    assert_eq!(both.len(), 2);
    assert_eq!(both[0].team, Team::Ally);
    assert_eq!(both[0].color, ColorBucket::AllyBorder);
    assert_eq!(both[0].segments.len(), 6);
    assert_eq!(both[1].team, Team::Enemy);
    assert_eq!(both[1].color, ColorBucket::EnemyBorder);
    assert_eq!(both[1].segments, only_enemy[0].segments);
}
