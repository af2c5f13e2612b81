//! Walks on a cell map: what it means for a sequence of coordinates to lead
//! from one cell to another, and when such a sequence is as short as can be.

use crate::grid::{Cell, Coord};
use vstd::prelude::*;

verus! {

/// The distance between two indices on one axis.
pub open spec fn gap(a: usize, b: usize) -> int {
    if a <= b {
        b - a
    } else {
        a - b
    }
}

/// Manhattan distance: the sum of the distances on both axes.
pub open spec fn manhattan(a: Coord, b: Coord) -> int {
    gap(a.0, b.0) + gap(a.1, b.1)
}

/// Orthogonal neighbours: one unit apart on exactly one axis.
pub open spec fn adjacent(a: Coord, b: Coord) -> bool {
    manhattan(a, b) == 1
}

/// A cell that a walk may enter: on the map and not an obstacle.
pub open spec fn walkable(cells: Map<Coord, Cell>, p: Coord) -> bool {
    cells.dom().contains(p) && cells[p] != Cell::Obstacle
}

/// The cell a walk stands on after `i` steps; the walk lists the cells it
/// enters and leaves out its starting point.
pub open spec fn stop(start: Coord, steps: Seq<Coord>, i: int) -> Coord {
    if i <= 0 {
        start
    } else {
        steps[i - 1]
    }
}

/// `steps` is a walk out of `start`: each step enters a walkable cell next
/// to the one before.
pub open spec fn is_walk(cells: Map<Coord, Cell>, start: Coord, steps: Seq<Coord>) -> bool {
    forall|i: int|
        0 <= i < steps.len() ==> walkable(cells, #[trigger] steps[i]) && adjacent(
            stop(start, steps, i),
            steps[i],
        )
}

/// `steps` is a walk from `start` that ends on `target`.
pub open spec fn connects(
    cells: Map<Coord, Cell>,
    start: Coord,
    target: Coord,
    steps: Seq<Coord>,
) -> bool {
    is_walk(cells, start, steps) && stop(start, steps, steps.len() as int) == target
}

/// Some walk leads from `start` to `target`.
pub open spec fn reachable(cells: Map<Coord, Cell>, start: Coord, target: Coord) -> bool {
    exists|steps: Seq<Coord>| connects(cells, start, target, steps)
}

/// `steps` leads from `start` to `target` and no walk between the two takes
/// fewer steps.
pub open spec fn is_shortest(
    cells: Map<Coord, Cell>,
    start: Coord,
    target: Coord,
    steps: Seq<Coord>,
) -> bool {
    &&& connects(cells, start, target, steps)
    &&& forall|other: Seq<Coord>| #[trigger]
        connects(cells, start, target, other) ==> steps.len() <= other.len()
}

/// Some shortest walk from `start` to `target` takes `n` steps.
pub open spec fn shortest_takes(
    cells: Map<Coord, Cell>,
    start: Coord,
    target: Coord,
    n: nat,
) -> bool {
    exists|steps: Seq<Coord>|
        #[trigger] is_shortest(cells, start, target, steps) && steps.len() == n
}

/// How far `target` is from `start`: the number of steps of a shortest walk
/// between the two, or `None` if no walk leads there.
pub open spec fn distance(cells: Map<Coord, Cell>, start: Coord, target: Coord) -> Option<nat> {
    if reachable(cells, start, target) {
        Some(choose|n: nat| shortest_takes(cells, start, target, n))
    } else {
        None
    }
}

/// The walkable cell at row `r`, column `c`, as a sequence of one, or the
/// empty sequence where there is no such cell.
pub open spec fn open_cell(cells: Map<Coord, Cell>, r: int, c: int) -> Seq<Coord> {
    if 0 <= r <= usize::MAX && 0 <= c <= usize::MAX && walkable(cells, (r as usize, c as usize)) {
        seq![(r as usize, c as usize)]
    } else {
        Seq::empty()
    }
}

/// The walkable neighbours of `p`, in the order up, down, left, right.
pub open spec fn neighbors_of(cells: Map<Coord, Cell>, p: Coord) -> Seq<Coord> {
    open_cell(cells, p.0 - 1, p.1 as int) + open_cell(cells, p.0 + 1, p.1 as int) + open_cell(
        cells,
        p.0 as int,
        p.1 - 1,
    ) + open_cell(cells, p.0 as int, p.1 + 1)
}

/// `neighbors_of` lists exactly the cells that one step can enter.
pub proof fn lemma_neighbors_of(cells: Map<Coord, Cell>, p: Coord)
    ensures
        forall|n: Coord| #[trigger]
            neighbors_of(cells, p).contains(n) <==> adjacent(p, n) && walkable(cells, n),
{
    let up = open_cell(cells, p.0 - 1, p.1 as int);
    let down = open_cell(cells, p.0 + 1, p.1 as int);
    let left = open_cell(cells, p.0 as int, p.1 - 1);
    let right = open_cell(cells, p.0 as int, p.1 + 1);
    let all = neighbors_of(cells, p);
    assert(all == up + down + left + right);
    assert forall|n: Coord| adjacent(p, n) && walkable(cells, n) implies #[trigger] all.contains(
        n,
    ) by {
        if n.0 + 1 == p.0 {
            assert(up[0] == n);
            assert(all[0] == n);
        } else if n.0 == p.0 + 1 {
            assert(down[0] == n);
            assert(all[up.len() as int] == n);
        } else if n.1 + 1 == p.1 {
            assert(left[0] == n);
            assert(all[(up.len() + down.len()) as int] == n);
        } else {
            assert(n.1 == p.1 + 1);
            assert(right[0] == n);
            assert(all[(up.len() + down.len() + left.len()) as int] == n);
        }
    }
    assert forall|n: Coord| #[trigger] all.contains(n) implies adjacent(p, n) && walkable(
        cells,
        n,
    ) by {
        let i = choose|i: int| 0 <= i < all.len() && all[i] == n;
        if i < up.len() {
            assert(all[i] == up[i]);
        } else if i < up.len() + down.len() {
            assert(all[i] == down[i - up.len()]);
        } else if i < up.len() + down.len() + left.len() {
            assert(all[i] == left[i - up.len() - down.len()]);
        } else {
            assert(all[i] == right[i - up.len() - down.len() - left.len()]);
        }
    }
}

/// One step changes the Manhattan distance to any fixed cell by at most one.
pub proof fn lemma_step_changes_distance_by_one(a: Coord, b: Coord, t: Coord)
    requires
        adjacent(a, b),
    ensures
        manhattan(a, t) <= manhattan(b, t) + 1,
        manhattan(b, t) <= manhattan(a, t) + 1,
{
}

/// The first `n` steps of a walk are a walk to the cell reached after `n`
/// steps.
pub proof fn lemma_walk_prefix(cells: Map<Coord, Cell>, start: Coord, steps: Seq<Coord>, n: int)
    requires
        is_walk(cells, start, steps),
        0 <= n <= steps.len(),
    ensures
        connects(cells, start, stop(start, steps, n), steps.take(n)),
{
    let head = steps.take(n);
    assert forall|i: int| 0 <= i < head.len() implies walkable(cells, #[trigger] head[i])
        && adjacent(stop(start, head, i), head[i]) by {
        assert(head[i] == steps[i]);
        assert(stop(start, head, i) == stop(start, steps, i));
    }
}

/// A walk cannot get closer to a cell than one unit per step: the distance
/// from any of its stops is at most the distance from its end plus the
/// number of steps still to go.
pub proof fn lemma_walk_bounds_distance(
    cells: Map<Coord, Cell>,
    start: Coord,
    steps: Seq<Coord>,
    i: int,
    t: Coord,
)
    requires
        is_walk(cells, start, steps),
        0 <= i <= steps.len(),
    ensures
        manhattan(stop(start, steps, i), t) <= manhattan(
            stop(start, steps, steps.len() as int),
            t,
        ) + (steps.len() - i),
    decreases steps.len() - i,
{
    if i < steps.len() {
        lemma_walk_bounds_distance(cells, start, steps, i + 1, t);
        assert(walkable(cells, steps[i]) && adjacent(stop(start, steps, i), steps[i]));
        lemma_step_changes_distance_by_one(stop(start, steps, i), stop(start, steps, i + 1), t);
    }
}

/// A shortest walk is exactly as long as its two ends are far apart.
pub proof fn lemma_shortest_has_distance(
    cells: Map<Coord, Cell>,
    start: Coord,
    target: Coord,
    steps: Seq<Coord>,
)
    requires
        is_shortest(cells, start, target, steps),
    ensures
        distance(cells, start, target) == Some(steps.len()),
{
    assert(shortest_takes(cells, start, target, steps.len()));
    let n = choose|n: nat| shortest_takes(cells, start, target, n);
    let w = choose|w: Seq<Coord>| #[trigger] is_shortest(cells, start, target, w) && w.len() == n;
    assert(connects(cells, start, target, steps));
    assert(connects(cells, start, target, w));
}

/// A shortest walk out of a walkable cell moves between orthogonal
/// neighbours only, touches no obstacle on the way, and takes no more steps
/// than any walk between its two ends.
pub proof fn lemma_shortest_walk(
    cells: Map<Coord, Cell>,
    start: Coord,
    target: Coord,
    steps: Seq<Coord>,
)
    requires
        walkable(cells, start),
        is_shortest(cells, start, target, steps),
    ensures
        forall|i: int|
            0 <= i < steps.len() ==> {
                &&& adjacent(stop(start, steps, i), #[trigger] steps[i])
                &&& cells[stop(start, steps, i)] != Cell::Obstacle
                &&& cells[steps[i]] != Cell::Obstacle
            },
        walkable(cells, target),
        forall|other: Seq<Coord>| #[trigger]
            connects(cells, start, target, other) ==> steps.len() <= other.len(),
{
    assert forall|i: int| 0 <= i < steps.len() implies {
        &&& adjacent(stop(start, steps, i), #[trigger] steps[i])
        &&& cells[stop(start, steps, i)] != Cell::Obstacle
        &&& cells[steps[i]] != Cell::Obstacle
    } by {
        assert(walkable(cells, steps[i]));
        if i > 0 {
            assert(walkable(cells, steps[i - 1]));
        }
    }
    if steps.len() > 0 {
        assert(walkable(cells, steps[steps.len() - 1]));
    }
}

/// Standing still is a walk: the empty walk connects every cell to itself,
/// and no shorter walk exists.
pub proof fn lemma_empty_walk_is_shortest(cells: Map<Coord, Cell>, start: Coord)
    ensures
        is_shortest(cells, start, start, Seq::<Coord>::empty()),
{
}

} // verus!
