use hex_territory::board::{Board, Team};
use hex_territory::coordinate::HexCoordinate;
use hex_territory::highlight::{
    compute_highlights, contains_hex, has_action, highlight_level, highlight_tiles, overlay_tint,
    overlays_for, place_overlays, Action, Overlay, Placement, Selection,
};
use hex_territory::palette::{
    border_color, rgba, tile_color, unused_action_color, used_action_color, ColorBucket, Highlight,
};

fn hex(q: i32, r: i32) -> HexCoordinate {
    HexCoordinate::new(q, r)
}

fn hexes(cells: &[(i32, i32)]) -> Vec<HexCoordinate> {
    cells.iter().map(|c| hex(c.0, c.1)).collect()
}

fn selection(
    team: Team,
    moves: &[(i32, i32)],
    attacks: &[(i32, i32)],
    actions: &[Action],
) -> Option<Selection> {
    Some(Selection {
        team,
        move_hexes: hexes(moves),
        attack_hexes: hexes(attacks),
        actions: actions.to_vec(),
    })
}

#[test]
fn no_selection_leaves_every_tile_at_base_and_no_overlay() {
    let mut board = Board::build(2);
    board.set_team(hex(0, 0), Team::Ally);
    board.set_team(hex(1, 1), Team::Enemy);
    let state = compute_highlights(&board, &None, Some(hex(0, 1)));
    assert!(state.overlays.is_empty());
    assert_eq!(state.tiles.len(), 19);
    for (mark, tile) in state.tiles.iter().zip(board.tiles().iter()) {
        assert_eq!(mark.coordinate, tile.coordinate);
        assert_eq!(mark.level, Highlight::Base);
        assert_eq!(mark.color, tile_color(tile.team, Highlight::Base));
    }
    let without_hover = compute_highlights(&board, &None, None);
    assert_eq!(without_hover.tiles, state.tiles);
}

#[test]
fn available_actions_highlight_strongly_and_used_ones_weakly() {
    let sel = selection(Team::Ally, &[(1, 0), (0, 1)], &[(-1, 0), (0, 1)], &[Action::Move]);
    assert_eq!(highlight_level(&sel, None, hex(1, 0)), Highlight::Strong);
    assert_eq!(highlight_level(&sel, None, hex(-1, 0)), Highlight::Weak);
    assert_eq!(highlight_level(&sel, None, hex(0, 1)), Highlight::Strong);
    assert_eq!(highlight_level(&sel, None, hex(0, 0)), Highlight::Base);

    let sel = selection(Team::Ally, &[(1, 0), (0, 1)], &[(-1, 0), (0, 1)], &[Action::Attack]);
    assert_eq!(highlight_level(&sel, None, hex(1, 0)), Highlight::Weak);
    assert_eq!(highlight_level(&sel, None, hex(-1, 0)), Highlight::Strong);
    assert_eq!(highlight_level(&sel, None, hex(0, 1)), Highlight::Strong);

    let sel = selection(Team::Ally, &[(1, 0), (0, 1)], &[(-1, 0), (0, 1)], &[]);
    assert_eq!(highlight_level(&sel, None, hex(1, 0)), Highlight::Weak);
    assert_eq!(highlight_level(&sel, None, hex(-1, 0)), Highlight::Weak);
    assert_eq!(highlight_level(&sel, None, hex(0, 1)), Highlight::Weak);

    let sel =
        selection(Team::Ally, &[(1, 0)], &[(-1, 0)], &[Action::Attack, Action::Move]);
    assert_eq!(highlight_level(&sel, None, hex(1, 0)), Highlight::Strong);
    assert_eq!(highlight_level(&sel, None, hex(-1, 0)), Highlight::Strong);
}

#[test]
fn hovered_tile_is_strong_when_a_unit_is_selected() {
    let sel = selection(Team::Enemy, &[(1, 0)], &[], &[]);
    assert_eq!(highlight_level(&sel, Some(hex(2, 2)), hex(2, 2)), Highlight::Strong);
    assert_eq!(highlight_level(&sel, Some(hex(1, 0)), hex(1, 0)), Highlight::Strong);
    assert_eq!(highlight_level(&sel, Some(hex(2, 2)), hex(1, 0)), Highlight::Weak);
    assert_eq!(highlight_level(&sel, Some(hex(2, 2)), hex(0, 0)), Highlight::Base);
    assert_eq!(highlight_level(&None, Some(hex(2, 2)), hex(2, 2)), Highlight::Base);
}

#[test]
fn highlight_tiles_colours_by_owner_and_level() {
    let mut board = Board::build(1);
    board.set_team(hex(0, 0), Team::Ally);
    board.set_team(hex(1, 0), Team::Enemy);
    let sel = selection(Team::Ally, &[(0, 0), (1, 0)], &[(-1, 0), (0, 1)], &[Action::Move]);
    let marks = highlight_tiles(&board, &sel, Some(hex(0, -1)));
    let by_cell = |c: HexCoordinate| marks.iter().find(|m| m.coordinate == c).copied().unwrap();
    assert_eq!(marks.len(), 7);
    assert_eq!(by_cell(hex(0, 0)).color, ColorBucket::AllyCapitalStrongHighlight);
    assert_eq!(by_cell(hex(1, 0)).color, ColorBucket::EnemyCapitalStrongHighlight);
    assert_eq!(by_cell(hex(-1, 0)).color, ColorBucket::NeutralWeakHighlight);
    assert_eq!(by_cell(hex(0, 1)).level, Highlight::Weak);
    assert_eq!(by_cell(hex(0, -1)).color, ColorBucket::NeutralStrongHighlight);
    assert_eq!(by_cell(hex(-1, 1)).color, ColorBucket::Neutral);
    assert_eq!(by_cell(hex(1, -1)).level, Highlight::Base);
}

#[test]
fn disjoint_reaches_give_only_centered_overlays() {
    let board = Board::build(3);
    let sel = selection(
        Team::Ally,
        &[(1, 0), (2, 0)],
        &[(0, 1), (0, 2)],
        &[Action::Move, Action::Attack],
    );
    let overlays = place_overlays(&board, &sel);
    assert_eq!(
        overlays,
        vec![
            Overlay {
                coordinate: hex(1, 0),
                action: Action::Move,
                placement: Placement::Centered,
                tint: ColorBucket::AllyUsedAction
            },
            Overlay {
                coordinate: hex(2, 0),
                action: Action::Move,
                placement: Placement::Centered,
                tint: ColorBucket::AllyUsedAction
            },
            Overlay {
                coordinate: hex(0, 1),
                action: Action::Attack,
                placement: Placement::Centered,
                tint: ColorBucket::AllyUsedAction
            },
            Overlay {
                coordinate: hex(0, 2),
                action: Action::Attack,
                placement: Placement::Centered,
                tint: ColorBucket::AllyUsedAction
            },
        ]
    );
}

#[test]
fn shared_cell_gets_two_overlays_pushed_apart() {
    let board = Board::build(3);
    let sel = selection(Team::Enemy, &[(1, 0), (1, 1)], &[(1, 1), (0, 2)], &[Action::Attack]);
    let overlays = place_overlays(&board, &sel);
    let shared: Vec<Overlay> =
        overlays.iter().filter(|o| o.coordinate == hex(1, 1)).copied().collect();
    assert_eq!(
        shared,
        vec![
            Overlay {
                coordinate: hex(1, 1),
                action: Action::Move,
                placement: Placement::ShiftedRight,
                tint: ColorBucket::EnemyUnusedAction
            },
            Overlay {
                coordinate: hex(1, 1),
                action: Action::Attack,
                placement: Placement::ShiftedLeft,
                tint: ColorBucket::EnemyUsedAction
            },
        ]
    );
    assert_eq!(overlays.len(), 4);
    assert_eq!(overlays[0].placement, Placement::Centered);
    assert_eq!(overlays[3].placement, Placement::Centered);
    let shared_flags: Vec<bool> = overlays.iter().map(|o| o.is_shared()).collect();
    assert_eq!(shared_flags, vec![false, true, true, false]);
}

#[test]
fn cells_off_the_board_get_no_overlay() {
    let board = Board::build(2);
    let sel = selection(
        Team::Ally,
        &[(2, 0), (3, 0), (2, 1), (0, -3)],
        &[(3, 0), (-2, 2), (-3, 3), (5, 5)],
        &[Action::Move],
    );
    let overlays = place_overlays(&board, &sel);
    let cells: Vec<HexCoordinate> = overlays.iter().map(|o| o.coordinate).collect();
    assert_eq!(cells, vec![hex(2, 0), hex(-2, 2)]);
    for o in &overlays {
        assert!(hex(0, 0).distance(o.coordinate) <= 2);
        assert_eq!(o.placement, Placement::Centered);
    }
    let state = compute_highlights(&board, &sel, None);
    assert_eq!(state.overlays, overlays);
}

#[test]
fn overlays_for_one_action_follow_its_reach() {
    let board = Board::build(1);
    let sel = Selection {
        team: Team::Neutral,
        move_hexes: hexes(&[(0, 1), (4, 4), (0, 0)]),
        attack_hexes: hexes(&[(0, 0)]),
        actions: vec![Action::Attack],
    };
    assert_eq!(
        overlays_for(&board, &sel, Action::Move),
        vec![
            Overlay {
                coordinate: hex(0, 1),
                action: Action::Move,
                placement: Placement::Centered,
                tint: ColorBucket::AllyUnusedAction
            },
            Overlay {
                coordinate: hex(0, 0),
                action: Action::Move,
                placement: Placement::ShiftedRight,
                tint: ColorBucket::AllyUnusedAction
            },
        ]
    );
    assert_eq!(
        overlays_for(&board, &sel, Action::Attack),
        vec![Overlay {
            coordinate: hex(0, 0),
            action: Action::Attack,
            placement: Placement::ShiftedLeft,
            tint: ColorBucket::AllyUsedAction
        }]
    );
}

#[test]
fn overlay_tint_goes_by_team_and_availability() {
    let ally = selection(Team::Ally, &[], &[], &[Action::Move]).unwrap();
    assert_eq!(overlay_tint(&ally, Action::Move), ColorBucket::AllyUsedAction);
    assert_eq!(overlay_tint(&ally, Action::Attack), ColorBucket::AllyUnusedAction);
    let enemy = selection(Team::Enemy, &[], &[], &[Action::Attack]).unwrap();
    assert_eq!(overlay_tint(&enemy, Action::Move), ColorBucket::EnemyUnusedAction);
    assert_eq!(overlay_tint(&enemy, Action::Attack), ColorBucket::EnemyUsedAction);
    let neutral = selection(Team::Neutral, &[], &[], &[]).unwrap();
    assert_eq!(overlay_tint(&neutral, Action::Move), ColorBucket::AllyUnusedAction);
}

#[test]
fn compute_highlights_puts_tiles_and_overlays_together() {
    let mut board = Board::build(2);
    board.set_team(hex(0, 0), Team::Ally);
    let sel = selection(Team::Ally, &[(1, 0)], &[(1, 0), (0, 1)], &[Action::Move, Action::Attack]);
    let state = compute_highlights(&board, &sel, None);
    assert_eq!(state.tiles, highlight_tiles(&board, &sel, None));
    assert_eq!(state.overlays, place_overlays(&board, &sel));
    assert_eq!(state.overlays.len(), 3);
    let strong = state.tiles.iter().filter(|m| m.level == Highlight::Strong).count();
    assert_eq!(strong, 2);
}

#[test]
fn list_lookups() {
    let cells = hexes(&[(1, 2), (3, 4)]);
    assert!(contains_hex(&cells, hex(3, 4)));
    assert!(!contains_hex(&cells, hex(4, 3)));
    assert!(!contains_hex(&Vec::new(), hex(0, 0)));
    assert!(has_action(&vec![Action::Attack], Action::Attack));
    assert!(!has_action(&vec![Action::Attack], Action::Move));
    assert!(!has_action(&Vec::new(), Action::Move));
}

#[test]
fn palette_colours() {
    assert_eq!(rgba(ColorBucket::BackgroundHex), (25, 25, 25, 255));
    assert_eq!(rgba(ColorBucket::Neutral), (40, 40, 40, 255));
    assert_eq!(rgba(ColorBucket::NeutralWeakHighlight), (60, 60, 60, 255));
    assert_eq!(rgba(ColorBucket::NeutralStrongHighlight), (90, 90, 90, 255));
    assert_eq!(rgba(ColorBucket::AllySprite), (70, 130, 250, 255));
    assert_eq!(rgba(ColorBucket::AllyUnusedAction), (100, 150, 250, 255));
    assert_eq!(rgba(ColorBucket::AllyUsedAction), (100, 150, 250, 50));
    assert_eq!(rgba(ColorBucket::AllyBorder), (70, 130, 250, 100));
    assert_eq!(rgba(ColorBucket::AllyCapital), (70, 70, 200, 255));
    assert_eq!(rgba(ColorBucket::AllyCapitalWeakHighlight), (100, 100, 240, 255));
    assert_eq!(rgba(ColorBucket::AllyCapitalStrongHighlight), (150, 150, 255, 255));
    assert_eq!(rgba(ColorBucket::EnemySprite), (250, 130, 70, 255));
    assert_eq!(rgba(ColorBucket::EnemyUnusedAction), (250, 150, 100, 255));
    assert_eq!(rgba(ColorBucket::EnemyUsedAction), (250, 150, 100, 50));
    assert_eq!(rgba(ColorBucket::EnemyBorder), (200, 70, 70, 100));
    assert_eq!(rgba(ColorBucket::EnemyCapital), (200, 70, 70, 255));
    assert_eq!(rgba(ColorBucket::EnemyCapitalWeakHighlight), (240, 100, 100, 255));
    assert_eq!(rgba(ColorBucket::EnemyCapitalStrongHighlight), (255, 150, 150, 255));
}

#[test]
fn palette_buckets_by_team() {
    assert_eq!(tile_color(Team::Neutral, Highlight::Base), ColorBucket::Neutral);
    assert_eq!(tile_color(Team::Ally, Highlight::Base), ColorBucket::AllyCapital);
    assert_eq!(tile_color(Team::Enemy, Highlight::Weak), ColorBucket::EnemyCapitalWeakHighlight);
    assert_eq!(tile_color(Team::Ally, Highlight::Strong), ColorBucket::AllyCapitalStrongHighlight);
    assert_eq!(border_color(Team::Neutral), ColorBucket::Neutral);
    assert_eq!(border_color(Team::Ally), ColorBucket::AllyBorder);
    assert_eq!(border_color(Team::Enemy), ColorBucket::EnemyBorder);
    assert_eq!(unused_action_color(Team::Ally), ColorBucket::AllyUnusedAction);
    assert_eq!(unused_action_color(Team::Enemy), ColorBucket::EnemyUnusedAction);
    assert_eq!(unused_action_color(Team::Neutral), ColorBucket::AllyUnusedAction);
    assert_eq!(used_action_color(Team::Ally), ColorBucket::AllyUsedAction);
    assert_eq!(used_action_color(Team::Enemy), ColorBucket::EnemyUsedAction);
    assert_eq!(used_action_color(Team::Neutral), ColorBucket::AllyUsedAction);
}
