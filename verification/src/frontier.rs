//! The search frontier: discovered cells waiting to be expanded, handed out
//! cheapest first. The entries are kept in a binary heap.

use crate::grid::Coord;
use vstd::multiset::Multiset;
use vstd::prelude::*;
use vstd::seq_lib::to_multiset_update;

verus! {

broadcast use vstd::multiset::group_multiset_axioms;

/// A frontier entry: a cell, the number of steps taken to reach it, and the
/// estimated number of steps still to go.
#[derive(Copy, Clone, Debug)]
pub struct Node {
    pub position: Coord,
    pub cost: usize,
    pub heuristic: usize,
}

impl Node {
    /// The estimated length of a walk through this entry; lower comes first.
    pub open spec fn priority(self) -> int {
        self.cost + self.heuristic
    }

    /// `priority`, computed without overflow.
    pub fn rank(&self) -> (rank: u128)
        ensures
            rank == self.priority(),
    {
        self.cost as u128 + self.heuristic as u128
    }
}

/// The position above position `i` in the heap.
pub open spec fn above(i: int) -> int {
    (i - 1) / 2
}

/// No entry comes before the entry above it.
pub open spec fn heap_ordered(s: Seq<Node>) -> bool {
    forall|i: int| 0 < i < s.len() ==> s[above(i)].priority() <= (#[trigger] s[i]).priority()
}

/// The heap order holds except that the entry at `pos` may come before the
/// one above it.
spec fn rising(s: Seq<Node>, pos: int) -> bool {
    &&& 0 <= pos < s.len()
    &&& forall|i: int|
        0 < i < s.len() && i != pos ==> s[above(i)].priority() <= (#[trigger] s[i]).priority()
    &&& forall|c: int|
        0 < pos && 0 < c < s.len() && above(c) == pos ==> s[above(pos)].priority() <= (
        #[trigger] s[c]).priority()
}

/// The heap order holds except between the entry at `pos` and its
/// neighbours above and below.
spec fn sinking(s: Seq<Node>, pos: int) -> bool {
    &&& 0 <= pos < s.len()
    &&& forall|i: int|
        0 < i < s.len() && i != pos && above(i) != pos ==> s[above(i)].priority() <= (
        #[trigger] s[i]).priority()
    &&& forall|c: int|
        0 < pos && 0 < c < s.len() && above(c) == pos ==> s[above(pos)].priority() <= (
        #[trigger] s[c]).priority()
}

/// In a heap the first entry comes before all others.
proof fn lemma_root_least(s: Seq<Node>, i: int)
    requires
        heap_ordered(s),
        0 <= i < s.len(),
    ensures
        s[0].priority() <= s[i].priority(),
    decreases i,
{
    if i > 0 {
        lemma_root_least(s, above(i));
    }
}

/// Exchanges the entries at `i` and `j`.
fn exchange(items: &mut Vec<Node>, i: usize, j: usize)
    requires
        i < old(items)@.len(),
        j < old(items)@.len(),
    ensures
        final(items)@ == old(items)@.update(i as int, old(items)@[j as int]).update(
            j as int,
            old(items)@[i as int],
        ),
        final(items)@.to_multiset() == old(items)@.to_multiset(),
{
    let first: Node = items[i];
    let second: Node = items[j];
    items[i] = second;
    items[j] = first;
    proof {
        let before = old(items)@;
        let between = before.update(i as int, second);
        before.to_multiset_ensures();
        assert(before.contains(before[i as int]));
        assert(before.contains(before[j as int]));
        to_multiset_update(before, i as int, second);
        to_multiset_update(between, j as int, first);
        assert(between[j as int] == second);
        assert(items@.to_multiset() =~= before.to_multiset());
    }
}

/// Lets the entry at `from` rise until the entry above it does not come
/// after it.
fn sift_up(items: &mut Vec<Node>, from: usize)
    requires
        rising(old(items)@, from as int),
    ensures
        heap_ordered(final(items)@),
        final(items)@.to_multiset() == old(items)@.to_multiset(),
{
    let mut pos: usize = from;
    let mut settled: bool = false;
    while !settled && pos > 0
        invariant
            rising(items@, pos as int),
            settled ==> heap_ordered(items@),
            items@.to_multiset() == old(items)@.to_multiset(),
        decreases pos + (if settled { 0int } else { 1int }),
    {
        let parent: usize = (pos - 1) / 2;
        if items[pos].rank() >= items[parent].rank() {
            settled = true;
        } else {
            exchange(items, pos, parent);
            pos = parent;
        }
    }
}

/// Lets the first entry sink to the bottom, each time below the lower of the
/// two entries under it and below the right one where they tie, and then
/// rise again to where it belongs.
fn sift_down_to_bottom(items: &mut Vec<Node>)
    requires
        sinking(old(items)@, 0),
    ensures
        heap_ordered(final(items)@),
        final(items)@.to_multiset() == old(items)@.to_multiset(),
{
    let end: usize = items.len();
    let mut pos: usize = 0;
    while pos < (end - 1) / 2
        invariant
            end == items@.len(),
            sinking(items@, pos as int),
            items@.to_multiset() == old(items)@.to_multiset(),
        decreases end - pos,
    {
        let mut child: usize = 2 * pos + 1;
        if items[child].rank() >= items[child + 1].rank() {
            child += 1;
        }
        exchange(items, pos, child);
        pos = child;
    }
    if end % 2 == 0 && pos == (end - 2) / 2 {
        let child: usize = 2 * pos + 1;
        exchange(items, pos, child);
        pos = child;
    }
    assert(rising(items@, pos as int));
    sift_up(items, pos);
}

/// Adds `node` to the heap `items`.
fn heap_push(items: &mut Vec<Node>, node: Node)
    requires
        heap_ordered(old(items)@),
    ensures
        heap_ordered(final(items)@),
        final(items)@.to_multiset() == old(items)@.to_multiset().insert(node),
{
    proof {
        items@.to_multiset_ensures();
    }
    let last: usize = items.len();
    items.push(node);
    sift_up(items, last);
}

/// Takes the first entry out of the heap `items`, if there is one.
fn heap_pop(items: &mut Vec<Node>) -> (least: Option<Node>)
    requires
        heap_ordered(old(items)@),
    ensures
        heap_ordered(final(items)@),
        match least {
            None => old(items)@.len() == 0 && final(items)@ == old(items)@,
            Some(node) => {
                &&& old(items)@.len() > 0
                &&& node == old(items)@[0]
                &&& final(items)@.to_multiset() == old(items)@.to_multiset().remove(node)
            },
        },
{
    let ghost before = items@;
    proof {
        before.to_multiset_ensures();
    }
    let taken: Node = match items.pop() {
        None => {
            return None;
        },
        Some(last) => last,
    };
    let ghost rest = before.drop_last();
    assert(rest =~= before.remove(before.len() - 1));
    if items.len() > 0 {
        let top: Node = items[0];
        items[0] = taken;
        proof {
            rest.to_multiset_ensures();
            to_multiset_update(rest, 0, taken);
            assert(rest.contains(rest[0]));
            assert(before.contains(before[0]));
            assert(items@.to_multiset() =~= before.to_multiset().remove(top));
        }
        sift_down_to_bottom(items);
        Some(top)
    } else {
        Some(taken)
    }
}

/// A bag of entries with cheapest-first extraction. The same entry may be
/// held several times.
pub struct Frontier {
    items: Vec<Node>,
}

impl View for Frontier {
    type V = Multiset<Node>;

    closed spec fn view(&self) -> Multiset<Node> {
        self.items@.to_multiset()
    }
}

impl Frontier {
    /// The entries are in heap order. Every frontier that `new` made and
    /// `push` and `pop` worked on is well-formed.
    pub closed spec fn wf(&self) -> bool {
        heap_ordered(self.items@)
    }

    /// An empty frontier.
    pub fn new() -> (frontier: Frontier)
        ensures
            frontier.wf(),
            frontier@ == Multiset::<Node>::empty(),
    {
        let frontier = Frontier { items: Vec::new() };
        proof {
            frontier.items@.to_multiset_ensures();
            assert(frontier@.len() == 0);
            assert(frontier@ =~= Multiset::<Node>::empty());
        }
        frontier
    }

    /// The number of entries held, counting repetitions.
    pub fn len(&self) -> (len: usize)
        ensures
            len == self@.len(),
    {
        proof {
            self.items@.to_multiset_ensures();
        }
        self.items.len()
    }

    /// Adds one entry.
    pub fn push(&mut self, node: Node)
        requires
            old(self).wf(),
        ensures
            final(self).wf(),
            final(self)@ == old(self)@.insert(node),
    {
        heap_push(&mut self.items, node);
    }

    /// Takes out an entry of least priority, or reports that none is left.
    pub fn pop(&mut self) -> (least: Option<Node>)
        requires
            old(self).wf(),
        ensures
            final(self).wf(),
            match least {
                None => old(self)@.len() == 0 && final(self)@ == old(self)@,
                Some(node) => {
                    &&& old(self)@.contains(node)
                    &&& final(self)@ == old(self)@.remove(node)
                    &&& forall|other: Node| #[trigger]
                        old(self)@.contains(other) ==> node.priority() <= other.priority()
                },
            },
    {
        proof {
            self.items@.to_multiset_ensures();
        }
        let ghost before = self.items@;
        let least = heap_pop(&mut self.items);
        proof {
            if least is Some {
                assert(before.contains(before[0]));
                assert forall|other: Node| #[trigger]
                    before.to_multiset().contains(other) implies before[0].priority()
                    <= other.priority() by {
                    assert(before.contains(other));
                    let i = choose|i: int| 0 <= i < before.len() && before[i] == other;
                    lemma_root_least(before, i);
                }
            }
        }
        least
    }
}

} // verus!
