use hex_territory::board::{Board, Team, Tile, TileVariant, HEX_RADIUS};
use hex_territory::coordinate::HexCoordinate;

fn hex(q: i32, r: i32) -> HexCoordinate {
    HexCoordinate::new(q, r)
}

#[test]
fn build_makes_one_neutral_land_tile_per_cell() {
    let board = Board::build(HEX_RADIUS);
    assert_eq!(board.radius(), 5);
    assert_eq!(board.tiles().len(), 91);
    let cells = hex(0, 0).range(5);
    for (tile, cell) in board.tiles().iter().zip(cells.iter()) {
        assert_eq!(
            *tile,
            Tile {
                coordinate: *cell,
                variant: TileVariant::Land,
                team: Team::Neutral,
                capture_progress: 0
            }
        );
    }
}

#[test]
fn build_of_radius_zero_has_the_origin_only() {
    let board = Board::build(0);
    assert_eq!(board.tiles().len(), 1);
    assert_eq!(board.tiles()[0].coordinate, hex(0, 0));
}

#[test]
fn tile_at_finds_cells_on_the_board_only() {
    let board = Board::build(2);
    assert_eq!(board.tile_at(hex(1, 1)).map(|t| t.coordinate), Some(hex(1, 1)));
    assert_eq!(board.tile_at(hex(-2, 2)).map(|t| t.coordinate), Some(hex(-2, 2)));
    assert_eq!(board.tile_at(hex(2, 1)), None);
    assert_eq!(board.tile_at(hex(0, 3)), None);
    assert_eq!(board.tile_at(hex(-3, 0)), None);
}

#[test]
fn contains_is_the_distance_test() {
    let board = Board::build(3);
    for q in -5..=5 {
        for r in -5..=5 {
            let cell = hex(q, r);
            assert_eq!(board.contains(cell), hex(0, 0).distance(cell) <= 3);
        }
    }
}

#[test]
fn position_of_is_the_index_in_board_order() {
    let board = Board::build(1);
    assert_eq!(board.position_of(hex(-1, 0)), Some(0));
    assert_eq!(board.position_of(hex(0, 0)), Some(3));
    assert_eq!(board.position_of(hex(1, 0)), Some(6));
    assert_eq!(board.position_of(hex(1, 1)), None);
}

#[test]
fn set_team_changes_one_tile() {
    let mut board = Board::build(2);
    assert!(board.set_team(hex(1, -1), Team::Ally));
    assert_eq!(board.tile_at(hex(1, -1)).map(|t| t.team), Some(Team::Ally));
    let others = board.tiles().iter().filter(|t| t.team == Team::Neutral).count();
    assert_eq!(others, 18);
    assert_eq!(board.tiles().len(), 19);
}

#[test]
fn set_team_off_the_board_changes_nothing() {
    let mut board = Board::build(2);
    let before = board.tiles().clone();
    assert!(!board.set_team(hex(3, 0), Team::Enemy));
    assert_eq!(*board.tiles(), before);
}

#[test]
fn set_capture_progress_changes_the_counter_only() {
    let mut board = Board::build(1);
    assert!(board.set_capture_progress(hex(0, 1), 7));
    assert_eq!(
        board.tile_at(hex(0, 1)),
        Some(Tile {
            coordinate: hex(0, 1),
            variant: TileVariant::Land,
            team: Team::Neutral,
            capture_progress: 7
        })
    );
    assert!(!board.set_capture_progress(hex(2, 2), 1));
}

#[test]
fn tiles_of_team_keeps_board_order() {
    let mut board = Board::build(2);
    board.set_team(hex(1, 0), Team::Ally);
    board.set_team(hex(-2, 1), Team::Ally);
    board.set_team(hex(0, 0), Team::Enemy);
    let allies: Vec<HexCoordinate> =
        board.tiles_of_team(Team::Ally).iter().map(|t| t.coordinate).collect();
    assert_eq!(allies, vec![hex(-2, 1), hex(1, 0)]);
    assert_eq!(board.tiles_of_team(Team::Enemy).len(), 1);
    assert_eq!(board.tiles_of_team(Team::Neutral).len(), 16);
}

#[test]
fn tiles_of_team_is_empty_for_a_team_without_tiles() {
    let board = Board::build(3);
    assert!(board.tiles_of_team(Team::Ally).is_empty());
    assert_eq!(board.tiles_of_team(Team::Neutral).len(), 37);
}
