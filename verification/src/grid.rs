//! The grid: a fixed rectangle of cells addressed by (row, column).

use crate::random::roll_below;
use vstd::prelude::*;

verus! {

/// What a grid position holds. `Path` is a transient marker drawn while a
/// move is animated; the other four are the lasting states.
#[derive(Copy, Clone, Debug, PartialEq, Eq, Hash, Structural)]
pub enum Cell {
    Empty,
    Obstacle,
    Player,
    Target,
    Path,
}

/// Number of columns.
pub const WIDTH: usize = 20;

/// Number of rows.
pub const HEIGHT: usize = 10;

/// Out of a hundred, how many rolls turn a cell into an obstacle.
pub const OBSTACLE_PERCENT: usize = 20;

/// A position as (row, column).
pub type Coord = (usize, usize);

/// The coordinates that lie on the grid.
pub open spec fn in_bounds(p: Coord) -> bool {
    p.0 < HEIGHT && p.1 < WIDTH
}

/// The mathematical content of a cell table: a map from every coordinate on
/// the grid to the cell stored there.
pub open spec fn cell_map(cells: [[Cell; WIDTH]; HEIGHT]) -> Map<Coord, Cell> {
    Map::new(|p: Coord| in_bounds(p), |p: Coord| cells[p.0 as int][p.1 as int])
}

/// A cell map with every `Path` marker turned back into `Empty`.
pub open spec fn without_markers(cells: Map<Coord, Cell>) -> Map<Coord, Cell> {
    cells.map_values(
        |c: Cell|
            if c == Cell::Path {
                Cell::Empty
            } else {
                c
            },
    )
}

/// The cell that a roll in `0..100` produces when the grid is seeded.
pub open spec fn seeded_cell(roll: usize) -> Cell {
    if roll < OBSTACLE_PERCENT {
        Cell::Obstacle
    } else {
        Cell::Empty
    }
}

/// Decides what one freshly seeded cell holds, given its roll.
pub fn cell_for_roll(roll: usize) -> (cell: Cell)
    ensures
        cell == seeded_cell(roll),
{
    if roll < OBSTACLE_PERCENT {
        Cell::Obstacle
    } else {
        Cell::Empty
    }
}

#[derive(Copy, Clone, Debug)]
pub struct Grid {
    pub cells: [[Cell; WIDTH]; HEIGHT],
}

impl View for Grid {
    type V = Map<Coord, Cell>;

    open spec fn view(&self) -> Map<Coord, Cell> {
        cell_map(self.cells)
    }
}

impl Grid {
    /// A grid seeded with obstacles: every cell rolls independently and
    /// becomes an obstacle with probability `OBSTACLE_PERCENT` in a hundred.
    /// Whatever the rolls, the grid holds nothing but empty cells and
    /// obstacles; no connectivity is promised.
    pub fn new() -> (grid: Grid)
        ensures
            forall|p: Coord|
                in_bounds(p) ==> #[trigger] grid@[p] == Cell::Empty || grid@[p] == Cell::Obstacle,
    {
        let mut cells = [[Cell::Empty; WIDTH]; HEIGHT];
        let mut generator = rand::rng();
        let mut row: usize = 0;
        while row < HEIGHT
            invariant
                row <= HEIGHT,
                forall|r: int, c: int|
                    0 <= r < HEIGHT && 0 <= c < WIDTH ==> #[trigger] cells[r][c] == Cell::Empty
                        || cells[r][c] == Cell::Obstacle,
            decreases HEIGHT - row,
        {
            let mut col: usize = 0;
            while col < WIDTH
                invariant
                    row < HEIGHT,
                    col <= WIDTH,
                    forall|r: int, c: int|
                        0 <= r < HEIGHT && 0 <= c < WIDTH ==> #[trigger] cells[r][c] == Cell::Empty
                            || cells[r][c] == Cell::Obstacle,
                decreases WIDTH - col,
            {
                let roll: usize = roll_below(&mut generator, 100);
                cells[row][col] = cell_for_roll(roll);
                col += 1;
            }
            row += 1;
        }
        Grid { cells }
    }

    /// Whether `coord` lies on the grid.
    pub fn is_within_bounds(&self, coord: Coord) -> (inside: bool)
        ensures
            inside == in_bounds(coord),
    {
        coord.0 < HEIGHT && coord.1 < WIDTH
    }

    /// The cell at `coord`, or `None` for a coordinate off the grid.
    pub fn cell_at(&self, coord: Coord) -> (cell: Option<Cell>)
        ensures
            cell == if in_bounds(coord) {
                Some(self@[coord])
            } else {
                None
            },
    {
        if coord.0 < HEIGHT && coord.1 < WIDTH {
            Some(self.cells[coord.0][coord.1])
        } else {
            None
        }
    }

    /// Writes `value` at `coord`. A coordinate off the grid is rejected: the
    /// grid stays as it was and the answer is `false`.
    pub fn set_cell(&mut self, coord: Coord, value: Cell) -> (written: bool)
        ensures
            written == in_bounds(coord),
            final(self)@ == if in_bounds(coord) {
                old(self)@.insert(coord, value)
            } else {
                old(self)@
            },
    {
        if coord.0 < HEIGHT && coord.1 < WIDTH {
            self.cells[coord.0][coord.1] = value;
            assert(self@ =~= old(self)@.insert(coord, value));
            true
        } else {
            false
        }
    }

    /// Erases the drawn trail: every `Path` cell becomes `Empty`, and no
    /// other cell changes.
    pub fn clear_paths(&mut self)
        ensures
            final(self)@ == without_markers(old(self)@),
            forall|p: Coord|
                in_bounds(p) && old(self)@[p] != Cell::Path ==> #[trigger] final(self)@[p] == old(
                    self,
                )@[p],
            forall|p: Coord|
                in_bounds(p) && old(self)@[p] == Cell::Path ==> #[trigger] final(self)@[p]
                    == Cell::Empty,
    {
        let mut row: usize = 0;
        while row < HEIGHT
            invariant
                row <= HEIGHT,
                forall|r: int, c: int|
                    0 <= r < row && 0 <= c < WIDTH ==> #[trigger] self.cells[r][c] == (if old(
                        self,
                    ).cells[r][c] == Cell::Path {
                        Cell::Empty
                    } else {
                        old(self).cells[r][c]
                    }),
                forall|r: int, c: int|
                    row <= r < HEIGHT && 0 <= c < WIDTH ==> #[trigger] self.cells[r][c] == old(
                        self,
                    ).cells[r][c],
            decreases HEIGHT - row,
        {
            let mut col: usize = 0;
            while col < WIDTH
                invariant
                    row < HEIGHT,
                    col <= WIDTH,
                    forall|r: int, c: int|
                        0 <= r < row && 0 <= c < WIDTH ==> #[trigger] self.cells[r][c] == (if old(
                            self,
                        ).cells[r][c] == Cell::Path {
                            Cell::Empty
                        } else {
                            old(self).cells[r][c]
                        }),
                    forall|c: int|
                        0 <= c < col ==> #[trigger] self.cells[row as int][c] == (if old(
                            self,
                        ).cells[row as int][c] == Cell::Path {
                            Cell::Empty
                        } else {
                            old(self).cells[row as int][c]
                        }),
                    forall|c: int|
                        col <= c < WIDTH ==> #[trigger] self.cells[row as int][c] == old(
                            self,
                        ).cells[row as int][c],
                    forall|r: int, c: int|
                        row < r < HEIGHT && 0 <= c < WIDTH ==> #[trigger] self.cells[r][c] == old(
                            self,
                        ).cells[r][c],
                decreases WIDTH - col,
            {
                if self.cells[row][col] == Cell::Path {
                    self.cells[row][col] = Cell::Empty;
                }
                col += 1;
            }
            row += 1;
        }
        assert(self@ =~= without_markers(old(self)@));
    }
}

} // verus!
