//! Board occupancy: a fixed 19 x 19 grid of spaces, each empty or holding one
//! player's stone. The abstract view of a board is a finite map from on-board
//! coordinates to the owning player; a coordinate absent from the map is an
//! empty space, and a coordinate never maps to more than one player.

use vstd::prelude::*;

verus! {

/// Width and height of the playing grid.
pub const BOARD_SIZE: usize = 19;

/// A coordinate lies on the board when both axes are in `[0, BOARD_SIZE)`.
pub open spec fn in_range(s: (int, int)) -> bool {
    &&& 0 <= s.0 < BOARD_SIZE as int
    &&& 0 <= s.1 < BOARD_SIZE as int
}

/// The mathematical coordinates of an executable board space.
pub open spec fn space_view(s: (usize, usize)) -> (int, int) {
    (s.0 as int, s.1 as int)
}

/// Row-major position of an on-board coordinate inside the occupancy grid.
pub open spec fn cell_index(s: (int, int)) -> int {
    s.0 * (BOARD_SIZE as int) + s.1
}

/// Distinct on-board coordinates occupy distinct grid slots.
pub proof fn lemma_cell_index_distinct(a: (int, int), b: (int, int))
    requires
        in_range(a),
        in_range(b),
        a != b,
    ensures
        cell_index(a) != cell_index(b),
{
    if a.0 < b.0 {
        assert(cell_index(a) < (a.0 + 1) * (BOARD_SIZE as int) <= cell_index(b));
    } else if b.0 < a.0 {
        assert(cell_index(b) < (b.0 + 1) * (BOARD_SIZE as int) <= cell_index(a));
    }
}

/// The board: which player's stone, if any, occupies each space of the grid.
pub struct GameBoard {
    grid: Vec<Option<usize>>,
}

impl View for GameBoard {
    type V = Map<(int, int), usize>;

    closed spec fn view(&self) -> Map<(int, int), usize> {
        Map::new(
            |s: (int, int)| in_range(s) && self.grid@[cell_index(s)] is Some,
            |s: (int, int)| self.grid@[cell_index(s)]->0,
        )
    }
}

impl GameBoard {
    /// The occupancy grid holds exactly one slot for every board space.
    pub closed spec fn wf(self) -> bool {
        self.grid@.len() == BOARD_SIZE * BOARD_SIZE
    }

    /// Construct an empty board: no space is occupied.
    pub fn new() -> (board: GameBoard)
        ensures
            board.wf(),
            board@ == Map::<(int, int), usize>::empty(),
    {
        let mut grid: Vec<Option<usize>> = Vec::new();
        while grid.len() < BOARD_SIZE * BOARD_SIZE
            invariant
                grid@.len() <= BOARD_SIZE * BOARD_SIZE,
                forall|k: int| 0 <= k < grid@.len() ==> grid@[k] is None,
            decreases BOARD_SIZE * BOARD_SIZE - grid.len(),
        {
            grid.push(None);
        }
        let board = GameBoard { grid };
        proof {
            assert(board@ =~= Map::<(int, int), usize>::empty());
        }
        board
    }

    /// Which player's stone, if any, occupies the given space.
    pub fn get(&self, space: (usize, usize)) -> (r: Option<usize>)
        requires
            self.wf(),
            in_range(space_view(space)),
        ensures
            r == (if self@.dom().contains(space_view(space)) {
                Some(self@[space_view(space)])
            } else {
                None::<usize>
            }),
    {
        self.grid[space.0 * BOARD_SIZE + space.1]
    }

    /// Whether the given space currently holds a stone.
    pub fn contains_key(&self, space: (usize, usize)) -> (b: bool)
        requires
            self.wf(),
            in_range(space_view(space)),
        ensures
            b == self@.dom().contains(space_view(space)),
    {
        self.get(space).is_some()
    }

    /// Record `player`'s stone on the given space.
    pub fn insert(&mut self, space: (usize, usize), player: usize)
        requires
            old(self).wf(),
            in_range(space_view(space)),
        ensures
            final(self).wf(),
            final(self)@ == old(self)@.insert(space_view(space), player),
    {
        let i: usize = space.0 * BOARD_SIZE + space.1;
        self.grid.set(i, Some(player));
        proof {
            let sv = space_view(space);
            assert forall|s: (int, int)| in_range(s) && s != sv implies cell_index(s)
                != cell_index(sv) by {
                lemma_cell_index_distinct(s, sv);
            }
            assert(self@ =~= old(self)@.insert(sv, player));
        }
    }

    /// Take the stone, if any, off the given space, and report it.
    pub fn remove(&mut self, space: (usize, usize)) -> (r: Option<usize>)
        requires
            old(self).wf(),
            in_range(space_view(space)),
        ensures
            final(self).wf(),
            final(self)@ == old(self)@.remove(space_view(space)),
            r == (if old(self)@.dom().contains(space_view(space)) {
                Some(old(self)@[space_view(space)])
            } else {
                None::<usize>
            }),
    {
        let i: usize = space.0 * BOARD_SIZE + space.1;
        let r = self.grid[i];
        self.grid.set(i, None);
        proof {
            let sv = space_view(space);
            assert forall|s: (int, int)| in_range(s) && s != sv implies cell_index(s)
                != cell_index(sv) by {
                lemma_cell_index_distinct(s, sv);
            }
            assert(self@ =~= old(self)@.remove(sv));
        }
        r
    }
}

impl Default for GameBoard {
    /// The default board is the empty board.
    fn default() -> (board: GameBoard)
        ensures
            board.wf(),
            board@ == Map::<(int, int), usize>::empty(),
    {
        GameBoard::new()
    }
}

} // verus!
