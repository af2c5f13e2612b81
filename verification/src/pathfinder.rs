//! Shortest walks by best-first search with the Manhattan distance as the
//! estimate of what is left to go.

use crate::frontier::{Frontier, Node};
use crate::grid::{cell_map, in_bounds, Cell, Coord, HEIGHT, WIDTH};
use crate::search::{
    least, lemma_close, lemma_closed_cell, lemma_count_bounded, lemma_discard, lemma_ends,
    lemma_entry, lemma_exhausted, lemma_expanded, lemma_initial, lemma_link, lemma_relax,
    lemma_settle, Problem, Search,
};
use crate::walk::{
    adjacent, connects, distance, is_shortest, lemma_empty_walk_is_shortest, lemma_neighbors_of,
    lemma_shortest_has_distance, manhattan, neighbors_of, open_cell, reachable, stop, walkable,
};
use vstd::prelude::*;

verus! {

/// The Manhattan distance between two cells.
pub fn manhattan_distance(a: Coord, b: Coord) -> (distance: usize)
    requires
        manhattan(a, b) <= usize::MAX,
    ensures
        distance == manhattan(a, b),
{
    let rows: usize = if a.0 <= b.0 {
        b.0 - a.0
    } else {
        a.0 - b.0
    };
    let cols: usize = if a.1 <= b.1 {
        b.1 - a.1
    } else {
        a.1 - b.1
    };
    rows + cols
}

/// The cells that one step from `pos` can enter: its orthogonal neighbours
/// that lie on the grid and hold no obstacle, in the order up, down, left,
/// right.
pub fn get_neighbors(grid: &[[Cell; WIDTH]; HEIGHT], pos: Coord) -> (neighbors: Vec<Coord>)
    requires
        in_bounds(pos),
    ensures
        neighbors@ == neighbors_of(cell_map(*grid), pos),
        forall|n: Coord| #[trigger]
            neighbors@.contains(n) <==> adjacent(pos, n) && walkable(cell_map(*grid), n),
{
    let mut neighbors: Vec<Coord> = Vec::new();
    let x: usize = pos.0;
    let y: usize = pos.1;
    let ghost cells = cell_map(*grid);
    if x > 0 && grid[x - 1][y] != Cell::Obstacle {
        neighbors.push((x - 1, y));
    }
    assert(neighbors@ =~= open_cell(cells, x - 1, y as int));
    if x < HEIGHT - 1 && grid[x + 1][y] != Cell::Obstacle {
        neighbors.push((x + 1, y));
    }
    assert(neighbors@ =~= open_cell(cells, x - 1, y as int) + open_cell(
        cells,
        x + 1,
        y as int,
    ));
    if y > 0 && grid[x][y - 1] != Cell::Obstacle {
        neighbors.push((x, y - 1));
    }
    assert(neighbors@ =~= open_cell(cells, x - 1, y as int) + open_cell(
        cells,
        x + 1,
        y as int,
    ) + open_cell(cells, x as int, y - 1));
    if y < WIDTH - 1 && grid[x][y + 1] != Cell::Obstacle {
        neighbors.push((x, y + 1));
    }
    assert(neighbors@ =~= neighbors_of(cells, pos));
    proof {
        lemma_neighbors_of(cells, pos);
    }
    neighbors
}

/// The tables of a running search: the frontier, the closed cells, and for
/// every discovered cell its predecessor and its cost.
struct Explorer {
    open: Frontier,
    closed: [[bool; WIDTH]; HEIGHT],
    came_from: [[Option<Coord>; WIDTH]; HEIGHT],
    g_score: [[Option<usize>; WIDTH]; HEIGHT],
}

impl View for Explorer {
    type V = Search;

    closed spec fn view(&self) -> Search {
        Search {
            closed: Set::new(|p: Coord| in_bounds(p) && self.closed[p.0 as int][p.1 as int]),
            cost: Map::new(
                |p: Coord| in_bounds(p) && self.g_score[p.0 as int][p.1 as int] is Some,
                |p: Coord| self.g_score[p.0 as int][p.1 as int]->0,
            ),
            came_from: Map::new(
                |p: Coord| in_bounds(p) && self.came_from[p.0 as int][p.1 as int] is Some,
                |p: Coord| self.came_from[p.0 as int][p.1 as int]->0,
            ),
            open: self.open@,
        }
    }
}

impl Explorer {
    /// The tables before the first expansion.
    fn begin(start: Coord, target: Coord, Ghost(pb): Ghost<Problem>) -> (explorer: Explorer)
        requires
            in_bounds(start),
            in_bounds(target),
            pb.start == start,
            pb.target == target,
        ensures
            explorer.open.wf(),
            explorer@ == Search::initial(pb),
    {
        let mut g_score: [[Option<usize>; WIDTH]; HEIGHT] = [[None; WIDTH]; HEIGHT];
        g_score[start.0][start.1] = Some(0);
        let mut open = Frontier::new();
        open.push(Node { position: start, cost: 0, heuristic: manhattan_distance(start, target) });
        let explorer = Explorer {
            open,
            closed: [[false; WIDTH]; HEIGHT],
            came_from: [[None; WIDTH]; HEIGHT],
            g_score,
        };
        proof {
            let want = Search::initial(pb);
            assert(explorer@.closed =~= want.closed);
            assert(explorer@.cost =~= want.cost);
            assert(explorer@.came_from =~= want.came_from);
            assert(explorer@.open =~= want.open);
        }
        explorer
    }

    /// Looks at the edge from the closed cell `cur` to its neighbour `n`.
    fn relax(&mut self, cur: Coord, n: Coord, target: Coord)
        requires
            in_bounds(cur),
            in_bounds(n),
            in_bounds(target),
            old(self).open.wf(),
            old(self)@.cost.dom().contains(cur),
            old(self)@.cost[cur] < HEIGHT * WIDTH,
        ensures
            final(self).open.wf(),
            final(self)@ == old(self)@.relax(cur, n, target),
    {
        if self.closed[n.0][n.1] {
            return;
        }
        let step: Option<usize> = self.g_score[cur.0][cur.1];
        let tentative: usize = step.unwrap() + 1;
        let better: bool = match self.g_score[n.0][n.1] {
            None => true,
            Some(known) => tentative < known,
        };
        if better {
            self.came_from[n.0][n.1] = Some(cur);
            self.g_score[n.0][n.1] = Some(tentative);
            self.open.push(
                Node { position: n, cost: tentative, heuristic: manhattan_distance(n, target) },
            );
            proof {
                let want = old(self)@.improve(cur, n, target);
                assert(self@.closed =~= want.closed);
                assert(self@.cost =~= want.cost);
                assert(self@.came_from =~= want.came_from);
                assert(self@.open =~= want.open);
            }
        }
    }

    /// Looks at every edge out of the cell `cur`, which was just closed.
    fn expand(
        &mut self,
        grid: &[[Cell; WIDTH]; HEIGHT],
        cur: Coord,
        target: Coord,
        Ghost(pb): Ghost<Problem>,
    )
        requires
            pb.cells == cell_map(*grid),
            pb.target == target,
            old(self).open.wf(),
            old(self)@.expanding(pb, cur, Set::empty()),
            old(self)@.closed.contains(cur),
        ensures
            final(self).open.wf(),
            final(self)@.inv(pb),
            final(self)@.closed == old(self)@.closed,
    {
        proof {
            lemma_closed_cell(self@, pb, cur, Set::empty(), cur);
            lemma_ends(self@, pb, cur, Set::empty());
        }
        let neighbors = get_neighbors(grid, cur);
        let ghost mut done: Set<Coord> = Set::empty();
        let mut at: usize = 0;
        while at < neighbors.len()
            invariant
                at <= neighbors.len(),
                pb.cells == cell_map(*grid),
                pb.target == target,
                in_bounds(cur),
                in_bounds(target),
                self.open.wf(),
                self@.expanding(pb, cur, done),
                self@.closed == old(self)@.closed,
                self@.closed.contains(cur),
                forall|k: int| 0 <= k < at ==> done.contains(#[trigger] neighbors@[k]),
                forall|n: Coord| #[trigger]
                    neighbors@.contains(n) <==> adjacent(cur, n) && walkable(pb.cells, n),
            decreases neighbors.len() - at,
        {
            let n: Coord = neighbors[at];
            proof {
                assert(neighbors@.contains(n));
                lemma_closed_cell(self@, pb, cur, done, cur);
                lemma_relax(self@, pb, cur, done, n);
                done = done.insert(n);
            }
            self.relax(cur, n, target);
            at += 1;
        }
        proof {
            assert forall|n: Coord| #[trigger]
                adjacent(cur, n) && walkable(pb.cells, n) implies done.contains(n) by {
                assert(neighbors@.contains(n));
                let k = choose|k: int| 0 <= k < neighbors@.len() && neighbors@[k] == n;
                assert(done.contains(neighbors@[k]));
            }
            lemma_expanded(self@, pb, cur, done);
        }
    }

    /// Follows the predecessors back from the target and returns the cells
    /// on the way, nearest to the target first. The tables are those of the
    /// search state `v`, whatever the frontier holds by now.
    fn trace_back(
        &self,
        start: Coord,
        target: Coord,
        Ghost(pb): Ghost<Problem>,
        Ghost(v): Ghost<Search>,
    ) -> (trail: Vec<Coord>)
        requires
            pb.start == start,
            pb.target == target,
            v.inv(pb),
            v.cost == self@.cost,
            v.came_from == self@.came_from,
            v.cost.dom().contains(target),
        ensures
            trail@.len() == v.cost[target],
            connects(pb.cells, start, target, trail@.reverse()),
    {
        let mut trail: Vec<Coord> = Vec::new();
        let mut cur: Coord = target;
        proof {
            lemma_ends(v, pb, pb.start, Set::full());
        }
        while cur.0 != start.0 || cur.1 != start.1
            invariant
                pb.start == start,
                pb.target == target,
                v.inv(pb),
                v.cost == self@.cost,
                v.came_from == self@.came_from,
                v.cost.dom().contains(cur),
                v.cost[start] == 0,
                in_bounds(cur),
                trail@.len() + v.cost[cur] == v.cost[target],
                trail@.len() == 0 ==> cur == target,
                trail@.len() > 0 ==> trail@[0] == target,
                forall|i: int|
                    0 <= i < trail@.len() ==> walkable(pb.cells, #[trigger] trail@[i]) && adjacent(
                        if i + 1 < trail@.len() {
                            trail@[i + 1]
                        } else {
                            cur
                        },
                        trail@[i],
                    ),
            decreases v.cost[cur],
        {
            proof {
                lemma_link(v, pb, cur);
                assert(self@.came_from.dom().contains(cur));
            }
            trail.push(cur);
            let from: Option<Coord> = self.came_from[cur.0][cur.1];
            cur = from.unwrap();
        }
        proof {
            let back = trail@.reverse();
            assert(cur == start);
            assert forall|i: int| 0 <= i < back.len() implies walkable(pb.cells, #[trigger] back[i])
                && adjacent(stop(start, back, i), back[i]) by {
                assert(back[i] == trail@[trail@.len() - 1 - i]);
                if i > 0 {
                    assert(back[i - 1] == trail@[trail@.len() - i]);
                }
            }
            if back.len() > 0 {
                assert(back[back.len() - 1] == trail@[0]);
            }
        }
        trail
    }
}

/// The cells of `trail` in the opposite order.
fn reversed(trail: Vec<Coord>) -> (path: Vec<Coord>)
    ensures
        path@ == trail@.reverse(),
{
    let mut path: Vec<Coord> = Vec::new();
    let mut left: usize = trail.len();
    while left > 0
        invariant
            left <= trail.len(),
            path@.len() == trail.len() - left,
            forall|i: int| 0 <= i < path@.len() ==> path@[i] == trail@[trail@.len() - 1 - i],
        decreases left,
    {
        left -= 1;
        path.push(trail[left]);
    }
    assert(path@ =~= trail@.reverse());
    path
}

/// A shortest walk from `start` to `target` over the cells of `grid` that
/// hold no obstacle, moving one cell up, down, left or right per step.
///
/// The answer lists the cells entered, the target last and the start left
/// out, so a search from a cell to itself gives the empty walk. `None` means
/// that no walk exists. Where several walks are shortest, which of them is
/// returned is left open.
pub fn find_path(grid: &[[Cell; WIDTH]; HEIGHT], start: Coord, target: Coord) -> (result: Option<
    Vec<Coord>,
>)
    requires
        in_bounds(start),
        in_bounds(target),
    ensures
        result is Some <==> reachable(cell_map(*grid), start, target),
        result matches Some(path) ==> is_shortest(cell_map(*grid), start, target, path@),
        distance(cell_map(*grid), start, target) == match result {
            Some(path) => Some(path@.len()),
            None => None,
        },
        start == target ==> (result matches Some(path) && path@.len() == 0),
{
    let ghost pb = Problem { cells: cell_map(*grid), start, target };
    let mut explorer = Explorer::begin(start, target, Ghost(pb));
    proof {
        lemma_initial(pb);
    }
    loop
        invariant
            pb == (Problem { cells: cell_map(*grid), start, target }),
            in_bounds(start),
            in_bounds(target),
            explorer.open.wf(),
            explorer@.inv(pb),
        decreases HEIGHT * WIDTH - explorer@.closed_count(), explorer@.open.len(),
    {
        let ghost before = explorer@;
        proof {
            lemma_count_bounded(before.closed);
            lemma_ends(before, pb, pb.start, Set::full());
        }
        let current: Node = match explorer.open.pop() {
            None => {
                proof {
                    lemma_exhausted(before, pb);
                    lemma_empty_walk_is_shortest(pb.cells, start);
                }
                return None;
            },
            Some(node) => node,
        };
        let at: Coord = current.position;
        proof {
            lemma_entry(before, pb, pb.start, Set::full(), current);
            assert(least(before.open, current));
        }
        if at.0 == target.0 && at.1 == target.1 {
            proof {
                lemma_settle(before, pb, current);
            }
            let trail = explorer.trace_back(start, target, Ghost(pb), Ghost(before));
            let path = reversed(trail);
            proof {
                lemma_shortest_has_distance(pb.cells, start, target, path@);
            }
            return Some(path);
        }
        if explorer.closed[at.0][at.1] {
            proof {
                lemma_discard(before, pb, current);
                assert(explorer@ == before.discard(current));
            }
        } else {
            explorer.closed[at.0][at.1] = true;
            proof {
                lemma_close(before, pb, current);
                assert(explorer@.closed =~= before.close(current).closed);
                assert(explorer@ == before.close(current));
            }
            explorer.expand(grid, at, target, Ghost(pb));
        }
    }
}

} // verus!
