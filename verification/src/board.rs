//! The board: one tile for every cell of a disc around the origin, each with
//! an owner. The board keeps its tiles in the order in which the disc is
//! enumerated and never changes its shape.

use crate::coordinate::{
    disc_representable, hex_distance, neighbors_fit, range_count, range_fits, range_is_the_disc,
    range_seq, HexCoordinate, MAX_RADIUS,
};
use vstd::prelude::*;

verus! {

/// Radius of the board the game is played on.
pub const HEX_RADIUS: u32 = 5;

/// Owner of a tile or of a unit.
#[derive(Clone, Copy, Debug, PartialEq, Eq, Hash, Structural)]
pub enum Team {
    Neutral,
    Ally,
    Enemy,
}

/// Terrain category of a tile.
#[derive(Clone, Copy, Debug, PartialEq, Eq, Hash, Structural)]
pub enum TileVariant {
    Land,
}

/// One cell of the board.
#[derive(Clone, Copy, Debug, PartialEq, Eq, Hash, Structural)]
pub struct Tile {
    pub coordinate: HexCoordinate,
    pub variant: TileVariant,
    pub team: Team,
    pub capture_progress: u32,
}

/// The centre of every board.
pub open spec fn origin() -> HexCoordinate {
    HexCoordinate { q: 0, r: 0 }
}

/// The tile a freshly built board holds at `coordinate`.
pub open spec fn fresh_tile(coordinate: HexCoordinate) -> Tile {
    Tile { coordinate, variant: TileVariant::Land, team: Team::Neutral, capture_progress: 0 }
}

/// The tiles of a board, in board order, and the radius it was built with.
pub struct Board {
    radius: u32,
    tiles: Vec<Tile>,
}

/// What a board is to the contracts: its radius and its tiles in order.
pub ghost struct BoardView {
    pub radius: nat,
    pub tiles: Seq<Tile>,
}

impl BoardView {
    /// The tiles cover the disc of the board's radius, one per cell, in the
    /// order of `range_seq`.
    pub open spec fn wf(self) -> bool {
        &&& self.radius <= MAX_RADIUS
        &&& disc_representable(origin(), self.radius)
        &&& self.tiles.len() == range_seq(origin(), self.radius).len()
        &&& forall|i: int|
            0 <= i < self.tiles.len() ==> (#[trigger] self.tiles[i]).coordinate == range_seq(
                origin(),
                self.radius,
            )[i]
    }

    /// `coordinate` is a cell of the board.
    pub open spec fn in_range(self, coordinate: HexCoordinate) -> bool {
        hex_distance(origin(), coordinate) <= self.radius
    }

    /// Some tile of the board lies at `coordinate`.
    pub open spec fn has_tile(self, coordinate: HexCoordinate) -> bool {
        exists|i: int| 0 <= i < self.tiles.len() && (#[trigger] self.tiles[i]).coordinate == coordinate
    }

    /// `i` is the first place in board order of a tile at `coordinate`.
    pub open spec fn is_first_at(self, coordinate: HexCoordinate, i: int) -> bool {
        &&& 0 <= i < self.tiles.len()
        &&& self.tiles[i].coordinate == coordinate
        &&& forall|j: int| 0 <= j < i ==> (#[trigger] self.tiles[j]).coordinate != coordinate
    }

    /// The tile at `coordinate`, if the board has one.
    pub open spec fn tile_at(self, coordinate: HexCoordinate) -> Option<Tile> {
        if self.has_tile(coordinate) {
            Some(self.tiles[choose|i: int| self.is_first_at(coordinate, i)])
        } else {
            None
        }
    }

    /// The tiles owned by `team`, in board order.
    pub open spec fn tiles_of_team(self, team: Team) -> Seq<Tile> {
        self.tiles.filter(|t: Tile| t.team == team)
    }
}

/// On a well-formed board the tiles are exactly the cells in range, and no
/// two tiles share a cell.
pub proof fn board_covers_its_disc(board: BoardView)
    requires
        board.wf(),
    ensures
        board.tiles.len() == range_count(board.radius),
        forall|c: HexCoordinate| board.has_tile(c) <==> board.in_range(c),
        forall|i: int, j: int|
            0 <= i < board.tiles.len() && 0 <= j < board.tiles.len() && (
            #[trigger] board.tiles[i]).coordinate == (#[trigger] board.tiles[j]).coordinate ==> i
                == j,
{
    let cells = range_seq(origin(), board.radius);
    range_is_the_disc(origin(), board.radius);
    assert forall|c: HexCoordinate| board.has_tile(c) <==> board.in_range(c) by {
        if board.has_tile(c) {
            let i = choose|i: int|
                0 <= i < board.tiles.len() && (#[trigger] board.tiles[i]).coordinate == c;
            assert(cells[i] == c);
            assert(cells.contains(c));
        }
        if board.in_range(c) {
            assert(cells.contains(c));
            let i = choose|i: int| 0 <= i < cells.len() && cells[i] == c;
            assert(board.tiles[i].coordinate == c);
        }
    }
    assert forall|i: int, j: int|
        0 <= i < board.tiles.len() && 0 <= j < board.tiles.len() && (
        #[trigger] board.tiles[i]).coordinate == (#[trigger] board.tiles[j]).coordinate implies i
        == j by {
        assert(cells[i] == cells[j]);
    }
}

/// Every tile of a well-formed board lies in range, far enough from the
/// limits of `i32` for its six neighbours to be representable.
pub proof fn tiles_lie_in_range(board: BoardView, i: int)
    requires
        board.wf(),
        0 <= i < board.tiles.len(),
    ensures
        board.in_range(board.tiles[i].coordinate),
        neighbors_fit(board.tiles[i].coordinate),
{
    board_covers_its_disc(board);
    assert(board.has_tile(board.tiles[i].coordinate));
}

impl View for Board {
    type V = BoardView;

    closed spec fn view(&self) -> BoardView {
        BoardView { radius: self.radius as nat, tiles: self.tiles@ }
    }
}

impl Board {
    /// The board's invariant: see `BoardView::wf`.
    pub open spec fn wf(&self) -> bool {
        self@.wf()
    }

    /// A board of the given radius with every tile neutral land and no capture progress.
    pub fn build(radius: u32) -> (board: Board)
        requires
            range_fits(origin(), radius),
        ensures
            board.wf(),
            board@.radius == radius,
            board@.tiles == range_seq(origin(), radius as nat).map_values(
                |c: HexCoordinate| fresh_tile(c),
            ),
    {
        let cells = HexCoordinate::new(0, 0).range(radius);
        let mut tiles: Vec<Tile> = Vec::new();
        let mut i: usize = 0;
        while i < cells.len()
            invariant
                i <= cells.len(),
                tiles@.len() == i,
                forall|j: int| 0 <= j < i ==> tiles@[j] == fresh_tile(cells@[j]),
            decreases cells.len() - i,
        {
            tiles.push(
                Tile {
                    coordinate: cells[i],
                    variant: TileVariant::Land,
                    team: Team::Neutral,
                    capture_progress: 0,
                },
            );
            i += 1;
        }
        let board = Board { radius, tiles };
        assert(board@.tiles =~= range_seq(origin(), radius as nat).map_values(
            |c: HexCoordinate| fresh_tile(c),
        ));
        board
    }

    /// The radius the board was built with.
    pub fn radius(&self) -> (radius: u32)
        ensures
            radius == self@.radius,
    {
        self.radius
    }

    /// The tiles in board order.
    pub fn tiles(&self) -> (tiles: &Vec<Tile>)
        ensures
            tiles@ == self@.tiles,
    {
        &self.tiles
    }

    /// Index of the tile at `coordinate` in board order, if the board has one.
    pub fn position_of(&self, coordinate: HexCoordinate) -> (found: Option<usize>)
        ensures
            match found {
                Some(i) => self@.is_first_at(coordinate, i as int),
                None => !self@.has_tile(coordinate),
            },
            self.wf() ==> (found is Some <==> self@.in_range(coordinate)),
    {
        proof {
            if self.wf() {
                board_covers_its_disc(self@);
            }
        }
        let mut i: usize = 0;
        while i < self.tiles.len()
            invariant
                i <= self.tiles.len(),
                forall|j: int| 0 <= j < i ==> self.tiles@[j].coordinate != coordinate,
                self.wf() ==> (self@.has_tile(coordinate) <==> self@.in_range(coordinate)),
            decreases self.tiles.len() - i,
        {
            if self.tiles[i].coordinate == coordinate {
                return Some(i);
            }
            i += 1;
        }
        None
    }

    /// Whether `coordinate` is a cell of the board.
    pub fn contains(&self, coordinate: HexCoordinate) -> (inside: bool)
        ensures
            inside == self@.has_tile(coordinate),
            self.wf() ==> inside == self@.in_range(coordinate),
    {
        self.position_of(coordinate).is_some()
    }

    /// The tile at `coordinate`; none where the coordinate is off the board.
    pub fn tile_at(&self, coordinate: HexCoordinate) -> (tile: Option<Tile>)
        ensures
            tile == self@.tile_at(coordinate),
            self.wf() ==> (tile is Some <==> self@.in_range(coordinate)),
            tile is Some ==> tile->0.coordinate == coordinate && self@.tiles.contains(tile->0),
    {
        match self.position_of(coordinate) {
            Some(i) => {
                proof {
                    let first = choose|k: int| self@.is_first_at(coordinate, k);
                    assert(self@.is_first_at(coordinate, i as int));
                    assert(first == i) by {
                        if first < i {
                            assert(self@.tiles[first].coordinate != coordinate);
                        }
                        if i < first {
                            assert(self@.tiles[i as int].coordinate != coordinate);
                        }
                    }
                }
                Some(self.tiles[i])
            },
            None => None,
        }
    }

    /// The tiles that `team` owns, in board order.
    pub fn tiles_of_team(&self, team: Team) -> (owned: Vec<Tile>)
        ensures
            owned@ == self@.tiles_of_team(team),
    {
        let ghost pred = |t: Tile| t.team == team;
        let mut owned: Vec<Tile> = Vec::new();
        let mut i: usize = 0;
        assert(self.tiles@.take(0) =~= Seq::<Tile>::empty());
        while i < self.tiles.len()
            invariant
                i <= self.tiles.len(),
                pred == |t: Tile| t.team == team,
                owned@ == self.tiles@.take(i as int).filter(pred),
            decreases self.tiles.len() - i,
        {
            proof {
                assert(self.tiles@.take(i + 1) =~= self.tiles@.take(i as int).push(
                    self.tiles@[i as int],
                ));
                self.tiles@.take(i as int).lemma_filter_push(self.tiles@[i as int], pred);
            }
            if self.tiles[i].team == team {
                owned.push(self.tiles[i]);
            }
            i += 1;
        }
        assert(self.tiles@.take(i as int) =~= self.tiles@);
        owned
    }

    /// Hands the tile at `coordinate` to `team`. Returns whether the board has
    /// such a tile; nothing changes where it has none.
    pub fn set_team(&mut self, coordinate: HexCoordinate, team: Team) -> (changed: bool)
        requires
            old(self).wf(),
        ensures
            final(self).wf(),
            final(self)@.radius == old(self)@.radius,
            changed == old(self)@.in_range(coordinate),
            final(self)@.tiles.len() == old(self)@.tiles.len(),
            forall|i: int|
                0 <= i < old(self)@.tiles.len() ==> #[trigger] final(self)@.tiles[i] == (if old(
                    self,
                )@.tiles[i].coordinate == coordinate {
                    Tile { team, ..old(self)@.tiles[i] }
                } else {
                    old(self)@.tiles[i]
                }),
    {
        proof {
            board_covers_its_disc(self@);
        }
        match self.position_of(coordinate) {
            Some(i) => {
                let tile = self.tiles[i];
                self.tiles.set(i, Tile { team, ..tile });
                true
            },
            None => false,
        }
    }

    /// Sets the capture counter of the tile at `coordinate`. Returns whether
    /// the board has such a tile; nothing changes where it has none.
    pub fn set_capture_progress(&mut self, coordinate: HexCoordinate, progress: u32) -> (changed:
        bool)
        requires
            old(self).wf(),
        ensures
            final(self).wf(),
            final(self)@.radius == old(self)@.radius,
            changed == old(self)@.in_range(coordinate),
            final(self)@.tiles.len() == old(self)@.tiles.len(),
            forall|i: int|
                0 <= i < old(self)@.tiles.len() ==> #[trigger] final(self)@.tiles[i] == (if old(
                    self,
                )@.tiles[i].coordinate == coordinate {
                    Tile { capture_progress: progress, ..old(self)@.tiles[i] }
                } else {
                    old(self)@.tiles[i]
                }),
    {
        proof {
            board_covers_its_disc(self@);
        }
        match self.position_of(coordinate) {
            Some(i) => {
                let tile = self.tiles[i];
                self.tiles.set(i, Tile { capture_progress: progress, ..tile });
                true
            },
            None => false,
        }
    }
}

} // verus!
