//! The best-first search as mathematics: its state, the invariant that the
//! state keeps while cells are expanded, and the facts that follow from the
//! invariant when the target is taken from the frontier or the frontier runs
//! dry. Nothing here is executable.

use crate::frontier::Node;
use crate::grid::{in_bounds, Cell, Coord, HEIGHT, WIDTH};
use crate::walk::{
    adjacent, connects, is_walk, lemma_walk_bounds_distance, lemma_walk_prefix, manhattan,
    reachable, stop, walkable,
};
use vstd::multiset::Multiset;
use vstd::prelude::*;
use vstd::set_lib::{lemma_int_range, lemma_len_subset, set_int_range};

verus! {

broadcast use vstd::multiset::group_multiset_axioms;

/// What is searched: a cell map and the two ends of the wanted walk.
pub struct Problem {
    pub cells: Map<Coord, Cell>,
    pub start: Coord,
    pub target: Coord,
}

/// The state of a search.
pub struct Search {
    /// Cells that were expanded; their cost is final.
    pub closed: Set<Coord>,
    /// The fewest steps found so far to each discovered cell.
    pub cost: Map<Coord, usize>,
    /// For each discovered cell but the start, the cell it was reached from.
    pub came_from: Map<Coord, Coord>,
    /// The frontier.
    pub open: Multiset<Node>,
}

/// The frontier entry for cell `p` reached in `steps` steps.
pub open spec fn entry(p: Coord, steps: usize, target: Coord) -> Node {
    Node { position: p, cost: steps, heuristic: manhattan(p, target) as usize }
}

/// `e` has the least priority among the entries of `open`.
pub open spec fn least(open: Multiset<Node>, e: Node) -> bool {
    forall|other: Node| #[trigger] open.contains(other) ==> e.priority() <= other.priority()
}

/// The cell with row-major number `i`.
pub open spec fn cell_of(i: int) -> Coord {
    ((i / (WIDTH as int)) as usize, (i % (WIDTH as int)) as usize)
}

/// The row-major numbers of the cells in `closed`.
pub open spec fn closed_ids(closed: Set<Coord>) -> Set<int> {
    Set::new(|i: int| 0 <= i < HEIGHT * WIDTH && closed.contains(cell_of(i)))
}

/// No walk from the start to `p` is shorter than the recorded cost of `p`.
pub open spec fn settled(cost: Map<Coord, usize>, pb: Problem, p: Coord) -> bool {
    forall|w: Seq<Coord>| #[trigger] connects(pb.cells, pb.start, p, w) ==> cost[p] <= w.len()
}

/// A frontier entry speaks of a discovered cell, costs at least what is
/// recorded for it, and carries the cell's Manhattan distance to the target.
pub open spec fn entry_ok(cost: Map<Coord, usize>, pb: Problem, e: Node) -> bool {
    &&& cost.dom().contains(e.position)
    &&& cost[e.position] <= e.cost
    &&& e.heuristic == manhattan(e.position, pb.target)
}

impl Search {
    /// The state before the first expansion: only the start is discovered.
    pub open spec fn initial(pb: Problem) -> Search {
        Search {
            closed: Set::empty(),
            cost: Map::empty().insert(pb.start, 0usize),
            came_from: Map::empty(),
            open: Multiset::empty().insert(entry(pb.start, 0, pb.target)),
        }
    }

    /// The state after a stale entry was taken from the frontier.
    pub open spec fn discard(self, e: Node) -> Search {
        Search { open: self.open.remove(e), ..self }
    }

    /// The state after `e` was taken from the frontier and its cell closed.
    pub open spec fn close(self, e: Node) -> Search {
        Search { closed: self.closed.insert(e.position), open: self.open.remove(e), ..self }
    }

    /// The state after `n` was recorded as reached through `cur`.
    pub open spec fn improve(self, cur: Coord, n: Coord, target: Coord) -> Search {
        let steps = (self.cost[cur] + 1) as usize;
        Search {
            closed: self.closed,
            cost: self.cost.insert(n, steps),
            came_from: self.came_from.insert(n, cur),
            open: self.open.insert(entry(n, steps, target)),
        }
    }

    /// The state after the edge from `cur` to its neighbour `n` was looked
    /// at: `n` is recorded as reached through `cur` unless it is closed or
    /// already known to be as near.
    pub open spec fn relax(self, cur: Coord, n: Coord, target: Coord) -> Search {
        if self.closed.contains(n) || (self.cost.dom().contains(n) && self.cost[n]
            <= self.cost[cur] + 1) {
            self
        } else {
            self.improve(cur, n, target)
        }
    }

    /// How many cells are closed.
    pub open spec fn closed_count(self) -> nat {
        closed_ids(self.closed).len()
    }

    /// `p` was reached from a closed neighbour one step nearer to the start.
    pub open spec fn linked(self, pb: Problem, p: Coord) -> bool {
        &&& self.came_from.dom().contains(p)
        &&& self.closed.contains(self.came_from[p])
        &&& self.cost[self.came_from[p]] + 1 == self.cost[p]
        &&& adjacent(self.came_from[p], p)
        &&& walkable(pb.cells, p)
    }

    spec fn anchored(self, pb: Problem) -> bool {
        &&& in_bounds(pb.start)
        &&& in_bounds(pb.target)
        &&& forall|p: Coord| #[trigger] pb.cells.dom().contains(p) ==> in_bounds(p)
        &&& self.cost.dom().contains(pb.start)
        &&& self.cost[pb.start] == 0
        &&& !self.closed.contains(pb.target)
    }

    spec fn closed_ok(self, pb: Problem) -> bool {
        forall|p: Coord| #[trigger]
            self.closed.contains(p) ==> {
                &&& self.cost.dom().contains(p)
                &&& self.closed.contains(pb.start)
                &&& self.cost[p] < self.closed_count()
                &&& settled(self.cost, pb, p)
            }
    }

    spec fn known_ok(self, pb: Problem) -> bool {
        forall|p: Coord| #[trigger]
            self.cost.dom().contains(p) ==> {
                &&& in_bounds(p)
                &&& self.cost[p] <= self.closed_count()
                &&& p != pb.start ==> self.linked(pb, p)
                &&& !self.closed.contains(p) ==> self.open.contains(
                    entry(p, self.cost[p], pb.target),
                )
            }
    }

    spec fn edges_ok(self, pb: Problem, cur: Coord, done: Set<Coord>) -> bool {
        forall|q: Coord, n: Coord|
            self.closed.contains(q) && #[trigger] adjacent(q, n) && walkable(pb.cells, n)
                && !self.closed.contains(n) && (q == cur ==> done.contains(n)) ==> {
                &&& self.cost.dom().contains(n)
                &&& self.cost[n] <= self.cost[q] + 1
            }
    }

    spec fn entries_ok(self, pb: Problem) -> bool {
        forall|e: Node| #[trigger] self.open.contains(e) ==> entry_ok(self.cost, pb, e)
    }

    /// The invariant in the middle of an expansion: `cur` is closed, and of
    /// its neighbours those in `done` have been looked at.
    pub closed spec fn expanding(self, pb: Problem, cur: Coord, done: Set<Coord>) -> bool {
        &&& self.anchored(pb)
        &&& self.closed_ok(pb)
        &&& self.known_ok(pb)
        &&& self.edges_ok(pb, cur, done)
        &&& self.entries_ok(pb)
    }

    /// The invariant between expansions.
    pub open spec fn inv(self, pb: Problem) -> bool {
        self.expanding(pb, pb.start, Set::full())
    }
}

/// At most every cell of the grid is closed.
pub proof fn lemma_count_bounded(closed: Set<Coord>)
    ensures
        closed_ids(closed).finite(),
        closed_ids(closed).len() <= HEIGHT * WIDTH,
{
    let cells = HEIGHT * WIDTH;
    lemma_int_range(0, cells);
    assert(closed_ids(closed).subset_of(set_int_range(0, cells)));
    lemma_len_subset(closed_ids(closed), set_int_range(0, cells));
}

/// Closing one more cell raises the count of closed cells by one.
pub proof fn lemma_count_close(closed: Set<Coord>, p: Coord)
    requires
        in_bounds(p),
        !closed.contains(p),
    ensures
        closed_ids(closed.insert(p)).len() == closed_ids(closed).len() + 1,
{
    lemma_count_bounded(closed);
    let id = p.0 * WIDTH + p.1;
    assert(cell_of(id) == p);
    assert forall|i: int| 0 <= i < HEIGHT * WIDTH && cell_of(i) == p implies i == id by {}
    assert(closed_ids(closed.insert(p)) =~= closed_ids(closed).insert(id));
    assert(!closed_ids(closed).contains(id));
}

/// The state before the first expansion satisfies the invariant.
pub proof fn lemma_initial(pb: Problem)
    requires
        in_bounds(pb.start),
        in_bounds(pb.target),
        forall|p: Coord| #[trigger] pb.cells.dom().contains(p) ==> in_bounds(p),
    ensures
        Search::initial(pb).inv(pb),
{
    let v = Search::initial(pb);
    assert(v.closed_ok(pb));
    assert(v.known_ok(pb));
    assert(v.edges_ok(pb, pb.start, Set::full()));
    assert(v.entries_ok(pb));
}

/// What the invariant says of the two ends: both lie on the grid, the start
/// is recorded with no steps, and the target is not closed.
pub proof fn lemma_ends(v: Search, pb: Problem, cur: Coord, done: Set<Coord>)
    requires
        v.expanding(pb, cur, done),
    ensures
        in_bounds(pb.start),
        in_bounds(pb.target),
        v.cost.dom().contains(pb.start),
        v.cost[pb.start] == 0,
        !v.closed.contains(pb.target),
{
}

/// What the invariant says of an entry on the frontier: its cell lies on the
/// grid and is discovered.
pub proof fn lemma_entry(v: Search, pb: Problem, cur: Coord, done: Set<Coord>, e: Node)
    requires
        v.expanding(pb, cur, done),
        v.open.contains(e),
    ensures
        in_bounds(e.position),
        v.cost.dom().contains(e.position),
{
    assert(entry_ok(v.cost, pb, e));
}

/// What the invariant says of a closed cell: its cost is recorded and leaves
/// room for one more step.
pub proof fn lemma_closed_cell(v: Search, pb: Problem, cur: Coord, done: Set<Coord>, p: Coord)
    requires
        v.expanding(pb, cur, done),
        v.closed.contains(p),
    ensures
        in_bounds(p),
        v.cost.dom().contains(p),
        v.cost[p] < HEIGHT * WIDTH,
{
    lemma_count_bounded(v.closed);
}

/// What the invariant says of a discovered cell other than the start: it
/// hangs on a closed neighbour that is one step nearer to the start.
pub proof fn lemma_link(v: Search, pb: Problem, p: Coord)
    requires
        v.inv(pb),
        v.cost.dom().contains(p),
        p != pb.start,
    ensures
        v.linked(pb, p),
        in_bounds(v.came_from[p]),
        v.cost.dom().contains(v.came_from[p]),
{
}

/// Along any walk out of the start, either some stop is discovered, not
/// closed and recorded with no more steps than the walk took to get there,
/// or the walk has not left the closed cells yet. The result is the number
/// of such a stop, or -1.
proof fn lemma_first_open(v: Search, pb: Problem, w: Seq<Coord>, j: int) -> (i: int)
    requires
        v.inv(pb),
        is_walk(pb.cells, pb.start, w),
        0 <= j <= w.len(),
    ensures
        -1 <= i <= j,
        i >= 0 ==> {
            &&& v.cost.dom().contains(stop(pb.start, w, i))
            &&& !v.closed.contains(stop(pb.start, w, i))
            &&& v.cost[stop(pb.start, w, i)] <= i
        },
        i == -1 ==> v.closed.contains(stop(pb.start, w, j)),
    decreases j,
{
    if j == 0 {
        if v.closed.contains(pb.start) {
            -1
        } else {
            0
        }
    } else {
        let i = lemma_first_open(v, pb, w, j - 1);
        if i >= 0 {
            i
        } else {
            let q = stop(pb.start, w, j - 1);
            let n = stop(pb.start, w, j);
            lemma_walk_prefix(pb.cells, pb.start, w, j - 1);
            assert(settled(v.cost, pb, q));
            assert(v.cost[q] <= j - 1);
            assert(n == w[j - 1]);
            assert(walkable(pb.cells, w[j - 1]) && adjacent(stop(pb.start, w, j - 1), w[j - 1]));
            if v.closed.contains(n) {
                -1
            } else {
                assert(adjacent(q, n));
                j
            }
        }
    }
}

/// The cell of a least entry that is not closed yet has its final cost: no
/// walk from the start reaches it in fewer steps than recorded.
pub proof fn lemma_settle(v: Search, pb: Problem, e: Node)
    requires
        v.inv(pb),
        v.open.contains(e),
        least(v.open, e),
        !v.closed.contains(e.position),
    ensures
        settled(v.cost, pb, e.position),
{
    let p = e.position;
    assert(entry_ok(v.cost, pb, e));
    assert forall|w: Seq<Coord>| #[trigger] connects(pb.cells, pb.start, p, w) implies v.cost[p]
        <= w.len() by {
        let i = lemma_first_open(v, pb, w, w.len() as int);
        let u = stop(pb.start, w, i);
        let found = entry(u, v.cost[u], pb.target);
        assert(v.cost.dom().contains(u));
        assert(v.open.contains(found));
        assert(e.priority() <= found.priority());
        lemma_walk_bounds_distance(pb.cells, pb.start, w, i, pb.target);
    }
}

/// Once the frontier is empty no walk leads from the start to the target.
pub proof fn lemma_exhausted(v: Search, pb: Problem)
    requires
        v.inv(pb),
        v.open.len() == 0,
    ensures
        !reachable(pb.cells, pb.start, pb.target),
{
    assert forall|w: Seq<Coord>| !connects(pb.cells, pb.start, pb.target, w) by {
        if connects(pb.cells, pb.start, pb.target, w) {
            let i = lemma_first_open(v, pb, w, w.len() as int);
            if i >= 0 {
                let u = stop(pb.start, w, i);
                assert(v.cost.dom().contains(u));
                assert(v.open.contains(entry(u, v.cost[u], pb.target)));
                assert(false);
            }
        }
    }
}

/// Taking a stale entry, one whose cell is closed, keeps the invariant.
pub proof fn lemma_discard(v: Search, pb: Problem, e: Node)
    requires
        v.inv(pb),
        v.open.contains(e),
        v.closed.contains(e.position),
    ensures
        v.discard(e).inv(pb),
        v.discard(e).open.len() == v.open.len() - 1,
{
    let n = v.discard(e);
    assert(n.closed_ok(pb));
    assert forall|p: Coord| #[trigger] n.cost.dom().contains(p) implies {
        &&& in_bounds(p)
        &&& n.cost[p] <= n.closed_count()
        &&& p != pb.start ==> n.linked(pb, p)
        &&& !n.closed.contains(p) ==> n.open.contains(entry(p, n.cost[p], pb.target))
    } by {
        assert(v.cost.dom().contains(p));
        if !n.closed.contains(p) {
            assert(v.open.contains(entry(p, v.cost[p], pb.target)));
            assert(entry(p, v.cost[p], pb.target) != e);
        }
    }
    assert(n.edges_ok(pb, pb.start, Set::full()));
    assert forall|x: Node| #[trigger] n.open.contains(x) implies entry_ok(n.cost, pb, x) by {
        assert(v.open.contains(x));
    }
}

/// Taking a least entry whose cell is neither closed nor the target, and
/// closing that cell, leads into the expansion of the cell.
pub proof fn lemma_close(v: Search, pb: Problem, e: Node)
    requires
        v.inv(pb),
        v.open.contains(e),
        least(v.open, e),
        !v.closed.contains(e.position),
        e.position != pb.target,
    ensures
        v.close(e).expanding(pb, e.position, Set::empty()),
        v.close(e).closed_count() == v.closed_count() + 1,
        v.close(e).closed_count() <= HEIGHT * WIDTH,
{
    let p = e.position;
    let n = v.close(e);
    assert(entry_ok(v.cost, pb, e));
    assert(v.cost.dom().contains(p));
    lemma_count_close(v.closed, p);
    lemma_count_bounded(n.closed);
    lemma_settle(v, pb, e);
    if p != pb.start {
        assert(v.linked(pb, p));
        assert(v.closed.contains(v.came_from[p]));
    }
    assert forall|x: Coord| #[trigger] n.closed.contains(x) implies {
        &&& n.cost.dom().contains(x)
        &&& n.closed.contains(pb.start)
        &&& n.cost[x] < n.closed_count()
        &&& settled(n.cost, pb, x)
    } by {
        if x != p {
            assert(v.closed.contains(x));
        }
    }
    assert forall|x: Coord| #[trigger] n.cost.dom().contains(x) implies {
        &&& in_bounds(x)
        &&& n.cost[x] <= n.closed_count()
        &&& x != pb.start ==> n.linked(pb, x)
        &&& !n.closed.contains(x) ==> n.open.contains(entry(x, n.cost[x], pb.target))
    } by {
        assert(v.cost.dom().contains(x));
        if !n.closed.contains(x) {
            assert(v.open.contains(entry(x, v.cost[x], pb.target)));
            assert(entry(x, v.cost[x], pb.target) != e);
        }
    }
    assert forall|q: Coord, m: Coord|
        n.closed.contains(q) && #[trigger] adjacent(q, m) && walkable(pb.cells, m)
            && !n.closed.contains(m) && (q == p ==> Set::<Coord>::empty().contains(m)) implies {
        &&& n.cost.dom().contains(m)
        &&& n.cost[m] <= n.cost[q] + 1
    } by {
        assert(v.closed.contains(q));
    }
    assert forall|x: Node| #[trigger] n.open.contains(x) implies entry_ok(n.cost, pb, x) by {
        assert(v.open.contains(x));
    }
}

/// Looking at one more neighbour of the cell under expansion keeps the
/// invariant, with that neighbour added to those done.
pub proof fn lemma_relax(v: Search, pb: Problem, cur: Coord, done: Set<Coord>, n: Coord)
    requires
        v.expanding(pb, cur, done),
        v.closed.contains(cur),
        adjacent(cur, n),
        walkable(pb.cells, n),
    ensures
        v.relax(cur, n, pb.target).expanding(pb, cur, done.insert(n)),
{
    let r = v.relax(cur, n, pb.target);
    let more = done.insert(n);
    if v.closed.contains(n) || (v.cost.dom().contains(n) && v.cost[n] <= v.cost[cur] + 1) {
        assert forall|q: Coord, m: Coord|
            r.closed.contains(q) && #[trigger] adjacent(q, m) && walkable(pb.cells, m)
                && !r.closed.contains(m) && (q == cur ==> more.contains(m)) implies {
            &&& r.cost.dom().contains(m)
            &&& r.cost[m] <= r.cost[q] + 1
        } by {
            if !(q == cur && m == n) {
                assert(q == cur ==> done.contains(m));
            }
        }
    } else {
        lemma_count_bounded(v.closed);
        let steps = (v.cost[cur] + 1) as usize;
        let fresh = entry(n, steps, pb.target);
        assert(v.cost.dom().contains(cur));
        assert(steps == v.cost[cur] + 1);
        assert(v.closed.contains(pb.start));
        assert(n != pb.start);
        assert(pb.cells.dom().contains(n));
        assert(in_bounds(n));
        assert forall|x: Coord| #[trigger] r.closed.contains(x) implies {
            &&& r.cost.dom().contains(x)
            &&& r.closed.contains(pb.start)
            &&& r.cost[x] < r.closed_count()
            &&& settled(r.cost, pb, x)
        } by {
            assert(v.closed.contains(x));
            assert(settled(v.cost, pb, x));
            assert(x != n);
            assert(r.cost[x] == v.cost[x]);
        }
        assert forall|x: Coord| #[trigger] r.cost.dom().contains(x) implies {
            &&& in_bounds(x)
            &&& r.cost[x] <= r.closed_count()
            &&& x != pb.start ==> r.linked(pb, x)
            &&& !r.closed.contains(x) ==> r.open.contains(entry(x, r.cost[x], pb.target))
        } by {
            if x == n {
                assert(r.came_from[n] == cur);
                assert(r.cost[cur] == v.cost[cur]);
                assert(r.open.contains(fresh));
            } else {
                assert(v.cost.dom().contains(x));
                if x != pb.start {
                    assert(v.linked(pb, x));
                    assert(v.came_from[x] != n);
                    assert(r.came_from[x] == v.came_from[x]);
                }
                if !r.closed.contains(x) {
                    assert(v.open.contains(entry(x, v.cost[x], pb.target)));
                }
            }
        }
        assert forall|q: Coord, m: Coord|
            r.closed.contains(q) && #[trigger] adjacent(q, m) && walkable(pb.cells, m)
                && !r.closed.contains(m) && (q == cur ==> more.contains(m)) implies {
            &&& r.cost.dom().contains(m)
            &&& r.cost[m] <= r.cost[q] + 1
        } by {
            assert(q != n);
            assert(r.cost[q] == v.cost[q]);
            if m == n {
                if q != cur {
                    assert(q == cur ==> done.contains(m));
                    assert(v.cost.dom().contains(n) && v.cost[n] <= v.cost[q] + 1);
                }
            } else {
                assert(q == cur ==> done.contains(m));
            }
        }
        assert forall|x: Node| #[trigger] r.open.contains(x) implies entry_ok(r.cost, pb, x) by {
            if x != fresh {
                assert(v.open.contains(x));
                assert(entry_ok(v.cost, pb, x));
            }
        }
    }
}

/// Once every walkable neighbour of the cell under expansion is done, the
/// invariant between expansions holds again.
pub proof fn lemma_expanded(v: Search, pb: Problem, cur: Coord, done: Set<Coord>)
    requires
        v.expanding(pb, cur, done),
        forall|n: Coord| #[trigger] adjacent(cur, n) && walkable(pb.cells, n) ==> done.contains(n),
    ensures
        v.inv(pb),
{
    assert forall|q: Coord, m: Coord|
        v.closed.contains(q) && #[trigger] adjacent(q, m) && walkable(pb.cells, m)
            && !v.closed.contains(m) && (q == pb.start ==> Set::<Coord>::full().contains(m)) implies {
        &&& v.cost.dom().contains(m)
        &&& v.cost[m] <= v.cost[q] + 1
    } by {
        assert(q == cur ==> done.contains(m));
    }
}

} // verus!
