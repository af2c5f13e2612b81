//! The session: a grid, the player on it and the target the player was
//! sent to, with the rules for choosing a target and for moving.

use crate::grid::{in_bounds, without_markers, Cell, Coord, Grid, HEIGHT, WIDTH};
use crate::pathfinder::find_path;
use crate::random::roll_below;
use crate::walk::{is_shortest, reachable, walkable};
use vstd::prelude::*;

verus! {

#[derive(Debug)]
pub struct Game {
    pub grid: Grid,
    pub player_pos: Coord,
    pub target_pos: Option<Coord>,
}

/// A session as mathematics: the cell map, where the player stands, and the
/// target if one is set.
pub struct GameView {
    pub cells: Map<Coord, Cell>,
    pub player: Coord,
    pub target: Option<Coord>,
}

impl View for Game {
    type V = GameView;

    open spec fn view(&self) -> GameView {
        GameView { cells: self.grid@, player: self.player_pos, target: self.target_pos }
    }
}

/// The cell map covers the grid and nothing else.
pub open spec fn on_grid(cells: Map<Coord, Cell>) -> bool {
    forall|p: Coord| #[trigger] cells.dom().contains(p) <==> in_bounds(p)
}

/// `cells` with `value` written at `p`; a coordinate off the map is ignored.
pub open spec fn put(cells: Map<Coord, Cell>, p: Coord, value: Cell) -> Map<Coord, Cell> {
    if cells.dom().contains(p) {
        cells.insert(p, value)
    } else {
        cells
    }
}

/// `cells` with a trail marker at `p` if `p` was empty.
pub open spec fn mark(cells: Map<Coord, Cell>, p: Coord) -> Map<Coord, Cell> {
    if cells.dom().contains(p) && cells[p] == Cell::Empty {
        cells.insert(p, Cell::Path)
    } else {
        cells
    }
}

/// `cells` with a trail marker on every empty cell of `path`.
pub open spec fn marked(cells: Map<Coord, Cell>, path: Seq<Coord>) -> Map<Coord, Cell>
    decreases path.len(),
{
    if path.len() == 0 {
        cells
    } else {
        mark(marked(cells, path.drop_last()), path.last())
    }
}

impl GameView {
    /// The player and the target, if set, stand on the grid.
    pub open spec fn on_board(self) -> bool {
        &&& on_grid(self.cells)
        &&& in_bounds(self.player)
        &&& self.target matches Some(t) ==> in_bounds(t)
    }

    /// A cell shows the target only where the target is set: at most one
    /// does.
    pub open spec fn targets_tracked(self) -> bool {
        forall|p: Coord| in_bounds(p) && #[trigger] self.cells[p] == Cell::Target ==> self.target
            == Some(p)
    }

    /// Exactly one cell shows the player: the one the player stands on.
    pub open spec fn player_marked(self) -> bool {
        forall|p: Coord| in_bounds(p) ==> (#[trigger] self.cells[p] == Cell::Player <==> p
            == self.player)
    }

    /// The target, if set, does not lie on an obstacle.
    pub open spec fn target_clear(self) -> bool {
        self.target matches Some(t) ==> self.cells[t] != Cell::Obstacle
    }

    /// The cells agree with the recorded positions.
    pub open spec fn wf(self) -> bool {
        &&& self.on_board()
        &&& self.targets_tracked()
        &&& self.player_marked()
        &&& self.target_clear()
    }

    /// The session after `p` was accepted as the target: the cell of the
    /// previous target is emptied, `p` shows the target and is recorded.
    pub open spec fn with_target(self, p: Coord) -> GameView {
        let cleared = match self.target {
            Some(previous) => put(self.cells, previous, Cell::Empty),
            None => self.cells,
        };
        GameView { cells: put(cleared, p, Cell::Target), player: self.player, target: Some(p) }
    }

    /// The session with no target recorded.
    pub open spec fn without_target(self) -> GameView {
        GameView { target: None, ..self }
    }

    /// The player has reached the target.
    pub open spec fn arrived(self) -> bool {
        self.target == Some(self.player)
    }

    /// The session after one step of the player to `p`: the cell left is
    /// emptied and `p` shows the player.
    pub open spec fn moved_to(self, p: Coord) -> GameView {
        GameView {
            cells: put(put(self.cells, self.player, Cell::Empty), p, Cell::Player),
            player: p,
            target: self.target,
        }
    }

    /// The session after the player took the steps of `path` in order.
    pub open spec fn walked(self, path: Seq<Coord>) -> GameView
        decreases path.len(),
    {
        if path.len() == 0 {
            self
        } else {
            self.walked(path.drop_last()).moved_to(path.last())
        }
    }

    /// The session with the trail of `path` drawn.
    pub open spec fn drawn(self, path: Seq<Coord>) -> GameView {
        GameView { cells: marked(self.cells, path), ..self }
    }

    /// The session with every trail marker erased.
    pub open spec fn erased(self) -> GameView {
        GameView { cells: without_markers(self.cells), ..self }
    }

    /// The session after a whole movement: the trail is drawn, the player
    /// walks it, and what is left of the trail is erased.
    pub open spec fn after_movement(self, path: Seq<Coord>) -> GameView {
        self.drawn(path).walked(path).erased()
    }
}

/// What a turn gets from the player: a request to stop, a line that could not
/// be read as a coordinate, or a target at (row, column).
#[derive(Clone, Copy, Debug, PartialEq, Eq)]
pub enum Command {
    Quit,
    Malformed,
    Target(usize, usize),
}

/// What a turn came to.
#[derive(Debug)]
pub enum Outcome {
    /// The session is over.
    Finished,
    /// The line was no coordinate; nothing changed.
    Retry,
    /// The target lies off the grid or on an obstacle; nothing changed.
    Rejected,
    /// The target is set but no walk leads to it.
    Blocked,
    /// The player walked `path` to the target; `frames` holds the grid after
    /// each step.
    Moved { path: Vec<Coord>, frames: Vec<Grid> },
}

/// A cell map as seeding leaves it: it covers the grid and holds nothing but
/// empty cells and obstacles.
pub open spec fn freshly_seeded(cells: Map<Coord, Cell>) -> bool {
    &&& on_grid(cells)
    &&& forall|p: Coord|
        in_bounds(p) ==> #[trigger] cells[p] == Cell::Empty || cells[p] == Cell::Obstacle
}

/// `game` is what starting a session on `cells` comes to: nothing where no
/// cell is empty, and otherwise a session without a target whose player
/// stands on a cell that was empty, with no other cell changed.
pub open spec fn started_on(cells: Map<Coord, Cell>, game: Option<Game>) -> bool {
    match game {
        None => forall|p: Coord| in_bounds(p) ==> #[trigger] cells[p] != Cell::Empty,
        Some(g) => {
            &&& in_bounds(g@.player)
            &&& cells[g@.player] == Cell::Empty
            &&& g@.cells == cells.insert(g@.player, Cell::Player)
            &&& g@.target is None
        },
    }
}

/// Every coordinate of `path` lies on the grid.
pub open spec fn all_in_bounds(path: Seq<Coord>) -> bool {
    forall|i: int| 0 <= i < path.len() ==> in_bounds(#[trigger] path[i])
}

/// Drawing a trail leaves every cell that was not empty as it was, and puts
/// nothing but trail markers on the others.
pub proof fn lemma_marked(cells: Map<Coord, Cell>, path: Seq<Coord>, p: Coord)
    requires
        cells.dom().contains(p),
    ensures
        marked(cells, path).dom() == cells.dom(),
        cells[p] != Cell::Empty ==> marked(cells, path)[p] == cells[p],
        cells[p] == Cell::Empty ==> marked(cells, path)[p] == Cell::Empty || marked(
            cells,
            path,
        )[p] == Cell::Path,
    decreases path.len(),
{
    if path.len() > 0 {
        lemma_marked(cells, path.drop_last(), p);
        let before = marked(cells, path.drop_last());
        assert(mark(before, path.last()).dom() =~= before.dom());
    }
}

/// Steps of the player keep a well-formed session well-formed.
pub proof fn lemma_walked_wf(g: GameView, path: Seq<Coord>)
    requires
        g.wf(),
        all_in_bounds(path),
    ensures
        g.walked(path).wf(),
        g.walked(path).target == g.target,
    decreases path.len(),
{
    if path.len() > 0 {
        let head = path.drop_last();
        assert forall|i: int| 0 <= i < head.len() implies in_bounds(#[trigger] head[i]) by {
            assert(head[i] == path[i]);
        }
        lemma_walked_wf(g, head);
        let before = g.walked(head);
        let after = before.moved_to(path.last());
        assert(in_bounds(path[path.len() - 1]));
        assert(after.cells.dom() =~= before.cells.dom());
    }
}

/// A whole movement keeps a well-formed session well-formed.
pub proof fn lemma_movement_wf(g: GameView, path: Seq<Coord>)
    requires
        g.wf(),
        all_in_bounds(path),
    ensures
        g.after_movement(path).wf(),
{
    let drawn = g.drawn(path);
    assert forall|p: Coord| #[trigger] drawn.cells.dom().contains(p) <==> in_bounds(p) by {
        if in_bounds(p) {
            lemma_marked(g.cells, path, p);
        } else {
            lemma_marked(g.cells, path, g.player);
        }
    }
    assert forall|p: Coord| in_bounds(p) implies (#[trigger] drawn.cells[p] == Cell::Player <==> p
        == drawn.player) && (drawn.cells[p] == Cell::Target ==> drawn.target == Some(p)) && (
    drawn.cells[p] == Cell::Obstacle <==> g.cells[p] == Cell::Obstacle) by {
        lemma_marked(g.cells, path, p);
    }
    lemma_walked_wf(drawn, path);
    let end = drawn.walked(path);
    assert(end.erased().cells.dom() =~= end.cells.dom());
}

/// The same cells hold obstacles in both maps.
pub open spec fn same_obstacles(before: Map<Coord, Cell>, after: Map<Coord, Cell>) -> bool {
    forall|p: Coord|
        in_bounds(p) ==> (#[trigger] after[p] == Cell::Obstacle <==> before[p] == Cell::Obstacle)
}

/// Steps onto cells that hold no obstacle leave the obstacles where they
/// are.
pub proof fn lemma_walked_keeps_obstacles(g: GameView, path: Seq<Coord>)
    requires
        g.wf(),
        forall|i: int| 0 <= i < path.len() ==> walkable(g.cells, #[trigger] path[i]),
    ensures
        same_obstacles(g.cells, g.walked(path).cells),
    decreases path.len(),
{
    if path.len() > 0 {
        let head = path.drop_last();
        assert forall|i: int| 0 <= i < head.len() implies walkable(g.cells, #[trigger] head[i]) by {
            assert(head[i] == path[i]);
        }
        assert forall|i: int| 0 <= i < head.len() implies in_bounds(#[trigger] head[i]) by {
            assert(walkable(g.cells, head[i]));
        }
        lemma_walked_keeps_obstacles(g, head);
        lemma_walked_wf(g, head);
        assert(walkable(g.cells, path[path.len() - 1]));
    }
}

/// A whole movement along cells that hold no obstacle leaves the obstacles
/// where they are.
pub proof fn lemma_movement_keeps_obstacles(g: GameView, path: Seq<Coord>)
    requires
        g.wf(),
        forall|i: int| 0 <= i < path.len() ==> walkable(g.cells, #[trigger] path[i]),
    ensures
        same_obstacles(g.cells, g.after_movement(path).cells),
{
    let drawn = g.drawn(path);
    assert forall|i: int| 0 <= i < path.len() implies in_bounds(#[trigger] path[i]) by {
        assert(walkable(g.cells, path[i]));
    }
    assert forall|p: Coord| #[trigger] drawn.cells.dom().contains(p) <==> in_bounds(p) by {
        if in_bounds(p) {
            lemma_marked(g.cells, path, p);
        } else {
            lemma_marked(g.cells, path, g.player);
        }
    }
    assert forall|p: Coord| in_bounds(p) implies (#[trigger] drawn.cells[p] == Cell::Player <==> p
        == drawn.player) && (drawn.cells[p] == Cell::Target ==> drawn.target == Some(p)) && (
    drawn.cells[p] == Cell::Obstacle <==> g.cells[p] == Cell::Obstacle) by {
        lemma_marked(g.cells, path, p);
    }
    assert forall|i: int| 0 <= i < path.len() implies walkable(drawn.cells, #[trigger] path[i]) by {
        assert(walkable(g.cells, path[i]));
    }
    lemma_walked_keeps_obstacles(drawn, path);
    lemma_walked_wf(drawn, path);
    let end = drawn.walked(path);
    assert forall|p: Coord| in_bounds(p) implies (#[trigger] end.erased().cells[p]
        == Cell::Obstacle <==> end.cells[p] == Cell::Obstacle) by {
        assert(end.cells.dom().contains(p));
    }
}

/// Setting a target keeps the cells that show a target in step with the
/// recorded target: afterwards exactly the new target's cell shows one, and
/// besides that cell only the previous target's cell has changed, to empty.
pub proof fn lemma_target_replaced(g: GameView, p: Coord)
    requires
        on_grid(g.cells),
        g.targets_tracked(),
        walkable(g.cells, p),
    ensures
        on_grid(g.with_target(p).cells),
        g.with_target(p).targets_tracked(),
        forall|q: Coord|
            in_bounds(q) ==> (#[trigger] g.with_target(p).cells[q] == Cell::Target <==> q == p),
        forall|q: Coord|
            in_bounds(q) && q != p ==> #[trigger] g.with_target(p).cells[q] == (if g.target
                == Some(q) {
                Cell::Empty
            } else {
                g.cells[q]
            }),
{
    let n = g.with_target(p);
    assert(n.cells.dom() =~= g.cells.dom());
}

/// Setting the same target twice is the same as setting it once: the second
/// request is accepted as well, changes nothing, and leaves exactly one cell
/// that shows a target, the requested one.
pub proof fn lemma_set_target_idempotent(g: GameView, p: Coord)
    requires
        on_grid(g.cells),
        g.targets_tracked(),
        walkable(g.cells, p),
    ensures
        walkable(g.with_target(p).cells, p),
        g.with_target(p).with_target(p) == g.with_target(p),
        forall|q: Coord|
            in_bounds(q) ==> (#[trigger] g.with_target(p).with_target(p).cells[q] == Cell::Target
                <==> q == p),
{
    let once = g.with_target(p);
    let twice = once.with_target(p);
    lemma_target_replaced(g, p);
    assert(twice.cells =~= once.cells);
}

/// Setting a target away from the player, while the player does not stand on
/// the previous target, keeps a well-formed session well-formed.
pub proof fn lemma_target_wf(g: GameView, p: Coord)
    requires
        g.wf(),
        walkable(g.cells, p),
        p != g.player,
        g.target != Some(g.player),
    ensures
        g.with_target(p).wf(),
{
    lemma_target_replaced(g, p);
}

/// The empty cells of `grid`.
fn empty_cells(grid: &Grid) -> (free: Vec<Coord>)
    ensures
        forall|i: int|
            0 <= i < free@.len() ==> in_bounds(#[trigger] free@[i]) && grid@[free@[i]]
                == Cell::Empty,
        forall|p: Coord| in_bounds(p) && grid@[p] == Cell::Empty ==> free@.contains(p),
{
    let mut free: Vec<Coord> = Vec::new();
    let mut row: usize = 0;
    while row < HEIGHT
        invariant
            row <= HEIGHT,
            forall|i: int|
                0 <= i < free@.len() ==> in_bounds(#[trigger] free@[i]) && grid@[free@[i]]
                    == Cell::Empty,
            forall|p: Coord|
                p.0 < row && p.1 < WIDTH && grid@[p] == Cell::Empty ==> free@.contains(p),
        decreases HEIGHT - row,
    {
        let mut col: usize = 0;
        while col < WIDTH
            invariant
                row < HEIGHT,
                col <= WIDTH,
                forall|i: int|
                    0 <= i < free@.len() ==> in_bounds(#[trigger] free@[i]) && grid@[free@[i]]
                        == Cell::Empty,
                forall|p: Coord|
                    (p.0 < row || (p.0 == row && p.1 < col)) && p.1 < WIDTH && grid@[p]
                        == Cell::Empty ==> free@.contains(p),
            decreases WIDTH - col,
        {
            if grid.cells[row][col] == Cell::Empty {
                let ghost before = free@;
                free.push((row, col));
                assert forall|p: Coord|
                    (p.0 < row || (p.0 == row && p.1 < col + 1)) && p.1 < WIDTH && grid@[p]
                        == Cell::Empty implies free@.contains(p) by {
                    if p == (row, col) {
                        assert(free@[before.len() as int] == p);
                    } else {
                        assert(before.contains(p));
                        let i = choose|i: int| 0 <= i < before.len() && before[i] == p;
                        assert(free@[i] == p);
                    }
                }
            }
            col += 1;
        }
        row += 1;
    }
    free
}

impl Game {
    /// A fresh session: a grid is seeded and a session is started on it, with
    /// the player on one of its empty cells and no target. Which grid is
    /// seeded and which cell the player gets is left to chance; whatever
    /// comes of it, the answer is what starting on some freshly seeded grid
    /// comes to. So `None` comes back only where seeding left no cell empty,
    /// and a session that comes back is well-formed and shows nothing but
    /// empty cells, obstacles and the player.
    pub fn new() -> (game: Option<Game>)
        ensures
            exists|cells: Map<Coord, Cell>|
                freshly_seeded(cells) && #[trigger] started_on(cells, game),
            game matches Some(g) ==> {
                &&& g@.wf()
                &&& g@.target is None
                &&& forall|p: Coord|
                    in_bounds(p) ==> #[trigger] g@.cells[p] == Cell::Empty || g@.cells[p]
                        == Cell::Obstacle || g@.cells[p] == Cell::Player
            },
    {
        let grid = Grid::new();
        let game = Game::start_on(grid);
        proof {
            assert(freshly_seeded(grid@));
            assert(started_on(grid@, game));
        }
        game
    }

    /// A session on `grid` with the player on one of its empty cells, drawn
    /// uniformly, and no target. A session comes back exactly if `grid` has
    /// an empty cell; which of the empty cells the player gets is left to
    /// chance, and no other cell changes.
    pub fn start_on(grid: Grid) -> (game: Option<Game>)
        ensures
            game is Some <==> exists|p: Coord| in_bounds(p) && #[trigger] grid@[p] == Cell::Empty,
            started_on(grid@, game),
            game matches Some(g) ==> ((forall|p: Coord|
                in_bounds(p) ==> #[trigger] grid@[p] != Cell::Player && grid@[p] != Cell::Target)
                ==> g@.wf()),
    {
        let free = empty_cells(&grid);
        if free.len() == 0 {
            assert forall|p: Coord| in_bounds(p) implies #[trigger] grid@[p] != Cell::Empty by {
                if grid@[p] == Cell::Empty {
                    assert(free@.contains(p));
                }
            }
            return None;
        }
        let mut generator = rand::rng();
        let pick: usize = roll_below(&mut generator, free.len());
        let spot: Coord = free[pick];
        assert(in_bounds(free@[pick as int]) && grid@[free@[pick as int]] == Cell::Empty);
        Game::with_player(grid, spot)
    }

    /// A session on `grid` with the player put at `pos` and no target, if
    /// `pos` is an empty cell of a grid that shows neither a player nor a
    /// target yet; `None` if `pos` lies off the grid or is not empty.
    pub fn with_player(grid: Grid, pos: Coord) -> (game: Option<Game>)
        ensures
            game is Some <==> in_bounds(pos) && grid@[pos] == Cell::Empty,
            game matches Some(g) ==> g@ == (GameView {
                cells: grid@.insert(pos, Cell::Player),
                player: pos,
                target: None,
            }),
            game matches Some(g) ==> ((forall|p: Coord|
                in_bounds(p) ==> #[trigger] grid@[p] != Cell::Player && grid@[p] != Cell::Target)
                ==> g@.wf()),
    {
        let mut grid = grid;
        match grid.cell_at(pos) {
            Some(Cell::Empty) => {
                grid.set_cell(pos, Cell::Player);
                let game = Game { grid, player_pos: pos, target_pos: None };
                Some(game)
            },
            _ => None,
        }
    }

    /// Makes (`x`, `y`) the target. A coordinate off the grid or on an
    /// obstacle is rejected and nothing changes. Otherwise the cell of the
    /// previous target, if there was one, is emptied, and the new cell shows
    /// the target; asking for the current target again changes nothing.
    pub fn set_target(&mut self, x: usize, y: usize) -> (accepted: bool)
        ensures
            accepted == walkable(old(self)@.cells, (x, y)),
            final(self)@ == if accepted {
                old(self)@.with_target((x, y))
            } else {
                old(self)@
            },
            accepted && old(self)@.targets_tracked() ==> final(self)@.targets_tracked() && forall|
                q: Coord,
            |
                in_bounds(q) ==> (#[trigger] final(self)@.cells[q] == Cell::Target <==> q == (
                    x,
                    y,
                )),
            old(self)@.target_clear() ==> final(self)@.target_clear() && same_obstacles(
                old(self)@.cells,
                final(self)@.cells,
            ),
    {
        let spot: Coord = (x, y);
        match self.grid.cell_at(spot) {
            None => false,
            Some(Cell::Obstacle) => false,
            Some(_) => {
                match self.target_pos {
                    Some(previous) => {
                        self.grid.set_cell(previous, Cell::Empty);
                    },
                    None => {},
                }
                self.grid.set_cell(spot, Cell::Target);
                self.target_pos = Some(spot);
                proof {
                    assert(self@.cells =~= old(self)@.with_target(spot).cells);
                    if old(self)@.targets_tracked() {
                        lemma_target_replaced(old(self)@, spot);
                    }
                }
                true
            },
        }
    }

    /// If the player stands on the target, forgets the target and reports
    /// the arrival; otherwise changes nothing.
    pub fn settle_arrival(&mut self) -> (arrived: bool)
        ensures
            arrived == old(self)@.arrived(),
            final(self)@ == if arrived {
                old(self)@.without_target()
            } else {
                old(self)@
            },
            old(self)@.wf() ==> final(self)@.wf(),
    {
        match self.target_pos {
            Some(target) => {
                if target.0 == self.player_pos.0 && target.1 == self.player_pos.1 {
                    self.target_pos = None;
                    true
                } else {
                    false
                }
            },
            None => false,
        }
    }

    /// Moves the player along `path`, one cell per step. The trail is drawn
    /// on the empty cells of `path` first; each step empties the cell the
    /// player leaves and shows the player on the cell entered; at the end
    /// what is left of the trail is erased. The grid after each step comes
    /// back, in order, for whoever wants to show the movement.
    pub fn animate_movement(&mut self, path: Vec<Coord>) -> (frames: Vec<Grid>)
        requires
            all_in_bounds(path@),
        ensures
            final(self)@ == old(self)@.after_movement(path@),
            frames@.len() == path@.len(),
            forall|i: int|
                0 <= i < frames@.len() ==> (#[trigger] frames@[i])@ == old(self)@.drawn(
                    path@,
                ).walked(path@.take(i + 1)).cells,
            old(self)@.wf() ==> final(self)@.wf(),
            old(self)@.wf() && (forall|i: int|
                0 <= i < path@.len() ==> walkable(old(self)@.cells, #[trigger] path@[i]))
                ==> same_obstacles(old(self)@.cells, final(self)@.cells),
    {
        let mut at: usize = 0;
        while at < path.len()
            invariant
                at <= path.len(),
                self@ == old(self)@.drawn(path@.take(at as int)),
            decreases path.len() - at,
        {
            let pos: Coord = path[at];
            match self.grid.cell_at(pos) {
                Some(Cell::Empty) => {
                    self.grid.set_cell(pos, Cell::Path);
                },
                _ => {},
            }
            proof {
                let next = path@.take(at + 1);
                assert(next.drop_last() =~= path@.take(at as int));
                assert(self@.cells =~= marked(old(self)@.cells, next));
            }
            at += 1;
        }
        assert(path@.take(path@.len() as int) =~= path@);
        let ghost drawn = self@;
        let mut frames: Vec<Grid> = Vec::new();
        let mut step: usize = 0;
        while step < path.len()
            invariant
                step <= path.len(),
                drawn == old(self)@.drawn(path@),
                self@ == drawn.walked(path@.take(step as int)),
                frames@.len() == step,
                forall|i: int|
                    0 <= i < frames@.len() ==> (#[trigger] frames@[i])@ == drawn.walked(
                        path@.take(i + 1),
                    ).cells,
            decreases path.len() - step,
        {
            let next: Coord = path[step];
            let ghost before = self@;
            self.grid.set_cell(self.player_pos, Cell::Empty);
            self.grid.set_cell(next, Cell::Player);
            self.player_pos = next;
            proof {
                let taken = path@.take(step + 1);
                assert(taken.drop_last() =~= path@.take(step as int));
                assert(self@.cells =~= before.moved_to(next).cells);
                assert(self@ == drawn.walked(taken));
            }
            frames.push(self.grid);
            step += 1;
        }
        self.grid.clear_paths();
        proof {
            if old(self)@.wf() {
                lemma_movement_wf(old(self)@, path@);
                if forall|i: int|
                    0 <= i < path@.len() ==> walkable(old(self)@.cells, #[trigger] path@[i]) {
                    lemma_movement_keeps_obstacles(old(self)@, path@);
                }
            }
        }
        frames
    }

    /// Plays one turn on what the player asked for.
    ///
    /// A request to stop ends the session and an unreadable line asks for
    /// another; neither changes anything. A target is set as `set_target`
    /// does; if it is rejected nothing changes. Once the target is set, a
    /// shortest walk from the player to it is looked for: if there is none
    /// the turn ends with the target still set, otherwise the player moves
    /// along the walk as `animate_movement` does.
    pub fn respond(&mut self, command: Command) -> (outcome: Outcome)
        requires
            in_bounds(old(self).player_pos),
        ensures
            old(self)@.wf() && !old(self)@.arrived() && command != Command::Target(
                old(self).player_pos.0,
                old(self).player_pos.1,
            ) ==> final(self)@.wf() && same_obstacles(old(self)@.cells, final(self)@.cells),
            match command {
                Command::Quit => outcome is Finished && final(self)@ == old(self)@,
                Command::Malformed => outcome is Retry && final(self)@ == old(self)@,
                Command::Target(x, y) => {
                    let aimed = old(self)@.with_target((x, y));
                    if !walkable(old(self)@.cells, (x, y)) {
                        outcome is Rejected && final(self)@ == old(self)@
                    } else if !reachable(aimed.cells, aimed.player, (x, y)) {
                        outcome is Blocked && final(self)@ == aimed
                    } else {
                        &&& outcome matches Outcome::Moved { path, frames }
                        &&& is_shortest(aimed.cells, aimed.player, (x, y), path@)
                        &&& final(self)@ == aimed.after_movement(path@)
                        &&& frames@.len() == path@.len()
                        &&& forall|i: int|
                            0 <= i < frames@.len() ==> (#[trigger] frames@[i])@ == aimed.drawn(
                                path@,
                            ).walked(path@.take(i + 1)).cells
                    }
                },
            },
    {
        match command {
            Command::Quit => Outcome::Finished,
            Command::Malformed => Outcome::Retry,
            Command::Target(x, y) => {
                if !self.set_target(x, y) {
                    return Outcome::Rejected;
                }
                proof {
                    if old(self)@.wf() && !old(self)@.arrived() && (x, y) != old(self).player_pos {
                        lemma_target_wf(old(self)@, (x, y));
                        lemma_target_replaced(old(self)@, (x, y));
                    }
                }
                match find_path(&self.grid.cells, self.player_pos, (x, y)) {
                    None => Outcome::Blocked,
                    Some(path) => {
                        proof {
                            assert forall|i: int| 0 <= i < path@.len() implies in_bounds(
                                #[trigger] path@[i],
                            ) && walkable(self@.cells, path@[i]) by {
                                assert(walkable(self@.cells, path@[i]));
                            }
                            if self@.wf() {
                                lemma_movement_keeps_obstacles(self@, path@);
                            }
                        }
                        let shown = copy_of(&path);
                        let frames = self.animate_movement(path);
                        Outcome::Moved { path: shown, frames }
                    },
                }
            },
        }
    }
}

/// A copy of `path`.
fn copy_of(path: &Vec<Coord>) -> (copy: Vec<Coord>)
    ensures
        copy@ == path@,
{
    let mut copy: Vec<Coord> = Vec::new();
    let mut at: usize = 0;
    while at < path.len()
        invariant
            at <= path.len(),
            copy@ == path@.take(at as int),
        decreases path.len() - at,
    {
        copy.push(path[at]);
        assert(path@.take(at + 1) =~= path@.take(at as int).push(path@[at as int]));
        at += 1;
    }
    assert(path@.take(path@.len() as int) =~= path@);
    copy
}

} // verus!
