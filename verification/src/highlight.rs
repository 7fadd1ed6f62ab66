//! What a selection shows on the board: the emphasis of every tile and the
//! overlays that mark where the selected unit can move or attack.

use crate::board::{Board, BoardView, Team, Tile};
use crate::coordinate::HexCoordinate;
use crate::palette::{
    tile_bucket, tile_color, unused_action_bucket, unused_action_color, used_action_bucket,
    used_action_color, ColorBucket, Highlight,
};
use vstd::prelude::*;

verus! {

/// What a unit can do in a turn.
#[derive(Clone, Copy, Debug, PartialEq, Eq, Hash, Structural)]
pub enum Action {
    Move,
    Attack,
}

/// The selected unit, as far as highlighting is concerned: its team, the
/// cells of the board it can move to and attack, and the actions it still
/// has available this turn.
#[derive(Clone, Debug)]
pub struct Selection {
    pub team: Team,
    pub move_hexes: Vec<HexCoordinate>,
    pub attack_hexes: Vec<HexCoordinate>,
    pub actions: Vec<Action>,
}

/// A selection to the contracts.
pub ghost struct SelectionView {
    pub team: Team,
    pub move_hexes: Seq<HexCoordinate>,
    pub attack_hexes: Seq<HexCoordinate>,
    pub actions: Seq<Action>,
}

impl View for Selection {
    type V = SelectionView;

    open spec fn view(&self) -> SelectionView {
        SelectionView {
            team: self.team,
            move_hexes: self.move_hexes@,
            attack_hexes: self.attack_hexes@,
            actions: self.actions@,
        }
    }
}

/// Where an overlay sits on its tile. Overlays that share a tile are pushed
/// apart so that neither hides the other.
#[derive(Clone, Copy, Debug, PartialEq, Eq, Hash, Structural)]
pub enum Placement {
    Centered,
    ShiftedRight,
    ShiftedLeft,
}

/// A marker on a tile that the selected unit can act upon.
#[derive(Clone, Copy, Debug, PartialEq, Eq, Hash, Structural)]
pub struct Overlay {
    pub coordinate: HexCoordinate,
    pub action: Action,
    pub placement: Placement,
    pub tint: ColorBucket,
}

/// The emphasis of one tile and the bucket it is drawn in.
#[derive(Clone, Copy, Debug, PartialEq, Eq, Hash, Structural)]
pub struct TileHighlight {
    pub coordinate: HexCoordinate,
    pub level: Highlight,
    pub color: ColorBucket,
}

/// Everything a selection shows: one entry per tile in board order, and the overlays.
#[derive(Clone, Debug)]
pub struct HighlightState {
    pub tiles: Vec<TileHighlight>,
    pub overlays: Vec<Overlay>,
}

impl Overlay {
    /// The overlay shares its tile with the overlay of the other action:
    /// the tile is reached both by moving and by attacking.
    pub open spec fn shares_tile(self) -> bool {
        self.placement != Placement::Centered
    }

    /// Whether the overlay shares its tile with the overlay of the other action.
    pub fn is_shared(&self) -> (shared: bool)
        ensures
            shared == self.shares_tile(),
    {
        self.placement != Placement::Centered
    }
}

impl SelectionView {
    /// The unit has not yet used `action` this turn.
    pub open spec fn available(self, action: Action) -> bool {
        self.actions.contains(action)
    }

    /// The cells that `action` reaches.
    pub open spec fn hexes(self, action: Action) -> Seq<HexCoordinate> {
        match action {
            Action::Move => self.move_hexes,
            Action::Attack => self.attack_hexes,
        }
    }

    /// The cells that the other action reaches.
    pub open spec fn other_hexes(self, action: Action) -> Seq<HexCoordinate> {
        match action {
            Action::Move => self.attack_hexes,
            Action::Attack => self.move_hexes,
        }
    }

    /// Some available action reaches `cell`.
    pub open spec fn strongly_marks(self, cell: HexCoordinate) -> bool {
        ||| self.available(Action::Attack) && self.attack_hexes.contains(cell)
        ||| self.available(Action::Move) && self.move_hexes.contains(cell)
    }

    /// Some action that is used up reaches `cell`.
    pub open spec fn weakly_marks(self, cell: HexCoordinate) -> bool {
        ||| !self.available(Action::Attack) && self.attack_hexes.contains(cell)
        ||| !self.available(Action::Move) && self.move_hexes.contains(cell)
    }

    /// The tint of the overlays of `action`: the unused-action colour of the
    /// unit's team where the action is not available, the used-action colour
    /// where it is.
    pub open spec fn tint(self, action: Action) -> ColorBucket {
        if self.available(action) {
            used_action_bucket(self.team)
        } else {
            unused_action_bucket(self.team)
        }
    }

    /// Where the overlay of `action` sits on `cell`: in the middle, unless
    /// the other action reaches the cell too; then a move overlay moves to
    /// the right and an attack overlay to the left.
    pub open spec fn placement(self, action: Action, cell: HexCoordinate) -> Placement {
        if self.other_hexes(action).contains(cell) {
            match action {
                Action::Move => Placement::ShiftedRight,
                Action::Attack => Placement::ShiftedLeft,
            }
        } else {
            Placement::Centered
        }
    }

    /// The overlay of `action` on `cell`.
    pub open spec fn overlay(self, action: Action, cell: HexCoordinate) -> Overlay {
        Overlay {
            coordinate: cell,
            action,
            placement: self.placement(action, cell),
            tint: self.tint(action),
        }
    }
}

/// The selection behind a reference, to the contracts.
pub open spec fn selection_view(selection: Option<Selection>) -> Option<SelectionView> {
    match selection {
        Some(s) => Some(s@),
        None => None,
    }
}

/// The emphasis of the tile at `cell`. Without a selection every tile is at
/// its base. With one, the hovered cell and the reach of every available
/// action are strong; of the rest, the reach of used-up actions is weak.
pub open spec fn highlight_of(
    selection: Option<SelectionView>,
    hovered: Option<HexCoordinate>,
    cell: HexCoordinate,
) -> Highlight {
    match selection {
        None => Highlight::Base,
        Some(s) => if hovered == Some(cell) || s.strongly_marks(cell) {
            Highlight::Strong
        } else if s.weakly_marks(cell) {
            Highlight::Weak
        } else {
            Highlight::Base
        },
    }
}

/// The entry of `tile` in the highlight state.
pub open spec fn tile_highlight_of(
    selection: Option<SelectionView>,
    hovered: Option<HexCoordinate>,
    tile: Tile,
) -> TileHighlight {
    let level = highlight_of(selection, hovered, tile.coordinate);
    TileHighlight { coordinate: tile.coordinate, level, color: tile_bucket(tile.team, level) }
}

/// The overlays of `action` for the first `count` cells of its reach: one
/// for each cell that lies on the board, in the order of the reach.
pub open spec fn overlays_upto(
    board: BoardView,
    selection: SelectionView,
    action: Action,
    count: nat,
) -> Seq<Overlay>
    decreases count,
{
    if count == 0 {
        Seq::empty()
    } else {
        let before = overlays_upto(board, selection, action, (count - 1) as nat);
        let cell = selection.hexes(action)[count - 1];
        if board.in_range(cell) {
            before.push(selection.overlay(action, cell))
        } else {
            before
        }
    }
}

/// All overlays of `action`.
pub open spec fn action_overlays(board: BoardView, selection: SelectionView, action: Action) -> Seq<
    Overlay,
> {
    overlays_upto(board, selection, action, selection.hexes(action).len())
}

/// The overlays a selection shows: those of moving, then those of attacking;
/// none without a selection.
pub open spec fn overlays_of(board: BoardView, selection: Option<SelectionView>) -> Seq<Overlay> {
    match selection {
        None => Seq::empty(),
        Some(s) => action_overlays(board, s, Action::Move) + action_overlays(
            board,
            s,
            Action::Attack,
        ),
    }
}

/// The overlays among `overlays` that sit on `cell`.
pub open spec fn overlays_at(overlays: Seq<Overlay>, cell: HexCoordinate) -> Seq<Overlay> {
    overlays.filter(|o: Overlay| o.coordinate == cell)
}

/// Every overlay of an action is the overlay of a cell of its reach that lies on the board.
proof fn lemma_overlays_upto_elements(
    board: BoardView,
    selection: SelectionView,
    action: Action,
    count: nat,
)
    requires
        count <= selection.hexes(action).len(),
    ensures
        forall|i: int|
            0 <= i < overlays_upto(board, selection, action, count).len() ==> {
                let o = #[trigger] overlays_upto(board, selection, action, count)[i];
                &&& o == selection.overlay(action, o.coordinate)
                &&& board.in_range(o.coordinate)
                &&& selection.hexes(action).contains(o.coordinate)
            },
    decreases count,
{
    if count > 0 {
        lemma_overlays_upto_elements(board, selection, action, (count - 1) as nat);
        let before = overlays_upto(board, selection, action, (count - 1) as nat);
        let all = overlays_upto(board, selection, action, count);
        let cell = selection.hexes(action)[count - 1];
        assert(selection.hexes(action).contains(cell));
        assert forall|i: int| 0 <= i < all.len() implies {
            let o = #[trigger] all[i];
            &&& o == selection.overlay(action, o.coordinate)
            &&& board.in_range(o.coordinate)
            &&& selection.hexes(action).contains(o.coordinate)
        } by {
            if i < before.len() {
                assert(all[i] == before[i]);
            }
        }
    }
}

/// Among the overlays of an action whose reach names no cell twice, a cell
/// of the board has one overlay if the reach holds it and none otherwise.
proof fn lemma_overlays_upto_at(
    board: BoardView,
    selection: SelectionView,
    action: Action,
    count: nat,
    cell: HexCoordinate,
)
    requires
        count <= selection.hexes(action).len(),
        selection.hexes(action).no_duplicates(),
        board.in_range(cell),
    ensures
        overlays_at(overlays_upto(board, selection, action, count), cell) == (if selection.hexes(
            action,
        ).take(count as int).contains(cell) {
            seq![selection.overlay(action, cell)]
        } else {
            Seq::empty()
        }),
    decreases count,
{
    let reach = selection.hexes(action);
    let at_cell = |o: Overlay| o.coordinate == cell;
    if count == 0 {
        assert(overlays_upto(board, selection, action, count).filter(at_cell) =~= Seq::empty());
    } else {
        let prior = (count - 1) as nat;
        lemma_overlays_upto_at(board, selection, action, prior, cell);
        let before = overlays_upto(board, selection, action, prior);
        let last = reach[count - 1];
        assert(reach.take(count as int) =~= reach.take(prior as int).push(last));
        if reach.take(prior as int).contains(cell) {
            let k = choose|k: int| 0 <= k < prior && reach.take(prior as int)[k] == cell;
            assert(reach[k] == cell);
            assert(last != cell);
            assert(reach.take(count as int)[k] == cell);
        } else if last == cell {
            assert(reach.take(count as int)[count - 1] == cell);
        } else {
            assert forall|k: int| 0 <= k < count implies reach.take(count as int)[k] != cell by {
                if k < prior {
                    assert(reach.take(prior as int)[k] == reach[k]);
                }
            }
        }
        if board.in_range(last) {
            before.lemma_filter_push(selection.overlay(action, last), at_cell);
            assert(before.filter(at_cell).push(selection.overlay(action, cell)) =~= before.filter(
                at_cell,
            ) + seq![selection.overlay(action, cell)]);
        }
    }
}

/// Without a selection every tile is at its base colour and there is no overlay.
pub proof fn no_selection_shows_nothing(board: BoardView, hovered: Option<HexCoordinate>, tile: Tile)
    ensures
        overlays_of(board, None).len() == 0,
        tile_highlight_of(None, hovered, tile) == (TileHighlight {
            coordinate: tile.coordinate,
            level: Highlight::Base,
            color: tile_bucket(tile.team, Highlight::Base),
        }),
{
}

/// No overlay ever sits on a cell outside the board, whatever the reach of
/// the selected unit, and every overlay marks a cell that its action reaches.
pub proof fn overlays_lie_on_the_board(board: BoardView, selection: Option<SelectionView>)
    ensures
        forall|i: int|
            0 <= i < overlays_of(board, selection).len() ==> {
                let o = #[trigger] overlays_of(board, selection)[i];
                &&& board.in_range(o.coordinate)
                &&& selection is Some
                &&& selection->0.hexes(o.action).contains(o.coordinate)
                &&& o == selection->0.overlay(o.action, o.coordinate)
            },
{
    if let Some(s) = selection {
        let moves = action_overlays(board, s, Action::Move);
        let attacks = action_overlays(board, s, Action::Attack);
        lemma_overlays_upto_elements(board, s, Action::Move, s.move_hexes.len());
        lemma_overlays_upto_elements(board, s, Action::Attack, s.attack_hexes.len());
        assert forall|i: int| 0 <= i < overlays_of(board, selection).len() implies {
            let o = #[trigger] overlays_of(board, selection)[i];
            &&& board.in_range(o.coordinate)
            &&& s.hexes(o.action).contains(o.coordinate)
            &&& o == s.overlay(o.action, o.coordinate)
        } by {
            if i < moves.len() {
                assert(overlays_of(board, selection)[i] == moves[i]);
            } else {
                assert(overlays_of(board, selection)[i] == attacks[i - moves.len()]);
            }
        }
    }
}

/// Where no cell is reached both by moving and by attacking, no overlay
/// shares its tile: every overlay sits in the middle of its tile.
pub proof fn disjoint_reaches_give_centered_overlays(board: BoardView, selection: SelectionView)
    requires
        forall|c: HexCoordinate|
            !(selection.move_hexes.contains(c) && selection.attack_hexes.contains(c)),
    ensures
        forall|i: int|
            0 <= i < overlays_of(board, Some(selection)).len() ==> (#[trigger] overlays_of(
                board,
                Some(selection),
            )[i]).placement == Placement::Centered && !overlays_of(
                board,
                Some(selection),
            )[i].shares_tile(),
{
    overlays_lie_on_the_board(board, Some(selection));
}

/// A cell of the board that is reached both by moving and by attacking
/// carries exactly two overlays: the move overlay shifted to the right, then
/// the attack overlay shifted to the left.
pub proof fn shared_cell_gets_two_shifted_overlays(
    board: BoardView,
    selection: SelectionView,
    cell: HexCoordinate,
)
    requires
        selection.move_hexes.no_duplicates(),
        selection.attack_hexes.no_duplicates(),
        selection.move_hexes.contains(cell),
        selection.attack_hexes.contains(cell),
        board.in_range(cell),
    ensures
        overlays_at(overlays_of(board, Some(selection)), cell) == seq![
            Overlay {
                coordinate: cell,
                action: Action::Move,
                placement: Placement::ShiftedRight,
                tint: selection.tint(Action::Move),
            },
            Overlay {
                coordinate: cell,
                action: Action::Attack,
                placement: Placement::ShiftedLeft,
                tint: selection.tint(Action::Attack),
            },
        ],
{
    let moves = action_overlays(board, selection, Action::Move);
    let attacks = action_overlays(board, selection, Action::Attack);
    let at_cell = |o: Overlay| o.coordinate == cell;
    lemma_overlays_upto_at(board, selection, Action::Move, selection.move_hexes.len(), cell);
    lemma_overlays_upto_at(board, selection, Action::Attack, selection.attack_hexes.len(), cell);
    assert(selection.move_hexes.take(selection.move_hexes.len() as int) =~= selection.move_hexes);
    assert(selection.attack_hexes.take(selection.attack_hexes.len() as int)
        =~= selection.attack_hexes);
    Seq::filter_distributes_over_add(moves, attacks, at_cell);
    assert(overlays_at(overlays_of(board, Some(selection)), cell) =~= seq![
        selection.overlay(Action::Move, cell),
        selection.overlay(Action::Attack, cell),
    ]);
}

/// Whether `cell` is in the list.
pub fn contains_hex(cells: &Vec<HexCoordinate>, cell: HexCoordinate) -> (found: bool)
    ensures
        found == cells@.contains(cell),
{
    let mut i: usize = 0;
    while i < cells.len()
        invariant
            i <= cells.len(),
            forall|j: int| 0 <= j < i ==> cells@[j] != cell,
        decreases cells.len() - i,
    {
        if cells[i] == cell {
            return true;
        }
        i += 1;
    }
    false
}

/// Whether `action` is in the list.
pub fn has_action(actions: &Vec<Action>, action: Action) -> (found: bool)
    ensures
        found == actions@.contains(action),
{
    let mut i: usize = 0;
    while i < actions.len()
        invariant
            i <= actions.len(),
            forall|j: int| 0 <= j < i ==> actions@[j] != action,
        decreases actions.len() - i,
    {
        if actions[i] == action {
            return true;
        }
        i += 1;
    }
    false
}

/// The tint of the overlays of `action` for the selected unit.
pub fn overlay_tint(selection: &Selection, action: Action) -> (tint: ColorBucket)
    ensures
        tint == selection@.tint(action),
{
    if has_action(&selection.actions, action) {
        used_action_color(selection.team)
    } else {
        unused_action_color(selection.team)
    }
}

/// The emphasis of the tile at `cell`.
pub fn highlight_level(
    selection: &Option<Selection>,
    hovered: Option<HexCoordinate>,
    cell: HexCoordinate,
) -> (level: Highlight)
    ensures
        level == highlight_of(selection_view(*selection), hovered, cell),
{
    match selection {
        None => Highlight::Base,
        Some(s) => {
            let is_hovered = match hovered {
                Some(h) => h == cell,
                None => false,
            };
            if is_hovered {
                return Highlight::Strong;
            }
            let attacks = contains_hex(&s.attack_hexes, cell);
            let moves = contains_hex(&s.move_hexes, cell);
            let can_attack = has_action(&s.actions, Action::Attack);
            let can_move = has_action(&s.actions, Action::Move);
            if (can_attack && attacks) || (can_move && moves) {
                Highlight::Strong
            } else if (!can_attack && attacks) || (!can_move && moves) {
                Highlight::Weak
            } else {
                Highlight::Base
            }
        },
    }
}

/// The emphasis and colour of every tile, in board order.
pub fn highlight_tiles(
    board: &Board,
    selection: &Option<Selection>,
    hovered: Option<HexCoordinate>,
) -> (marks: Vec<TileHighlight>)
    ensures
        marks@.len() == board@.tiles.len(),
        forall|i: int|
            0 <= i < marks@.len() ==> #[trigger] marks@[i] == tile_highlight_of(
                selection_view(*selection),
                hovered,
                board@.tiles[i],
            ),
{
    let tiles = board.tiles();
    let mut marks: Vec<TileHighlight> = Vec::new();
    let mut i: usize = 0;
    while i < tiles.len()
        invariant
            i <= tiles.len(),
            tiles@ == board@.tiles,
            marks@.len() == i,
            forall|j: int|
                0 <= j < i ==> #[trigger] marks@[j] == tile_highlight_of(
                    selection_view(*selection),
                    hovered,
                    board@.tiles[j],
                ),
        decreases tiles.len() - i,
    {
        let tile = tiles[i];
        let level = highlight_level(selection, hovered, tile.coordinate);
        marks.push(
            TileHighlight { coordinate: tile.coordinate, level, color: tile_color(tile.team, level) },
        );
        i += 1;
    }
    marks
}

/// The overlays of one action: one for each cell of its reach that lies on the board.
pub fn overlays_for(board: &Board, selection: &Selection, action: Action) -> (overlays: Vec<Overlay>)
    requires
        board.wf(),
    ensures
        overlays@ == action_overlays(board@, selection@, action),
{
    let reach = match action {
        Action::Move => &selection.move_hexes,
        Action::Attack => &selection.attack_hexes,
    };
    let other = match action {
        Action::Move => &selection.attack_hexes,
        Action::Attack => &selection.move_hexes,
    };
    let tint = overlay_tint(selection, action);
    let mut overlays: Vec<Overlay> = Vec::new();
    let mut i: usize = 0;
    while i < reach.len()
        invariant
            i <= reach.len(),
            board.wf(),
            reach@ == selection@.hexes(action),
            other@ == selection@.other_hexes(action),
            tint == selection@.tint(action),
            overlays@ == overlays_upto(board@, selection@, action, i as nat),
        decreases reach.len() - i,
    {
        let cell = reach[i];
        if board.contains(cell) {
            let placement = if contains_hex(other, cell) {
                match action {
                    Action::Move => Placement::ShiftedRight,
                    Action::Attack => Placement::ShiftedLeft,
                }
            } else {
                Placement::Centered
            };
            overlays.push(Overlay { coordinate: cell, action, placement, tint });
        }
        i += 1;
    }
    overlays
}

/// The overlays a selection shows.
pub fn place_overlays(board: &Board, selection: &Option<Selection>) -> (overlays: Vec<Overlay>)
    requires
        board.wf(),
    ensures
        overlays@ == overlays_of(board@, selection_view(*selection)),
{
    match selection {
        None => Vec::new(),
        Some(s) => {
            let mut overlays = overlays_for(board, s, Action::Move);
            let mut attacks = overlays_for(board, s, Action::Attack);
            overlays.append(&mut attacks);
            overlays
        },
    }
}

/// The highlight state of the board for the given selection and hovered cell.
pub fn compute_highlights(
    board: &Board,
    selection: &Option<Selection>,
    hovered: Option<HexCoordinate>,
) -> (state: HighlightState)
    requires
        board.wf(),
    ensures
        state.tiles@.len() == board@.tiles.len(),
        forall|i: int|
            0 <= i < state.tiles@.len() ==> #[trigger] state.tiles@[i] == tile_highlight_of(
                selection_view(*selection),
                hovered,
                board@.tiles[i],
            ),
        state.overlays@ == overlays_of(board@, selection_view(*selection)),
        forall|i: int|
            0 <= i < state.overlays@.len() ==> board@.in_range(
                (#[trigger] state.overlays@[i]).coordinate,
            ),
        *selection is None ==> state.overlays@.len() == 0 && forall|i: int|
            0 <= i < state.tiles@.len() ==> (#[trigger] state.tiles@[i]).level == Highlight::Base,
{
    proof {
        overlays_lie_on_the_board(board@, selection_view(*selection));
    }
    HighlightState {
        tiles: highlight_tiles(board, selection, hovered),
        overlays: place_overlays(board, selection),
    }
}

} // verus!
