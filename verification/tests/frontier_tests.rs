use grid_pathfinder::frontier::{Frontier, Node};

fn node(row: usize, col: usize, cost: usize, heuristic: usize) -> Node {
    Node { position: (row, col), cost, heuristic }
}

#[test]
fn empty_frontier_has_nothing_to_give() {
    let mut frontier = Frontier::new();
    assert_eq!(frontier.len(), 0);
    assert!(frontier.pop().is_none());
    assert_eq!(frontier.len(), 0);
}

#[test]
fn rank_is_cost_plus_heuristic() {
    assert_eq!(node(0, 0, 3, 4).rank(), 7);
    assert_eq!(node(0, 0, usize::MAX, usize::MAX).rank(), 2 * (usize::MAX as u128));
}

#[test]
fn entries_come_out_cheapest_first() {
    let mut frontier = Frontier::new();
    let ranks: [usize; 9] = [5, 3, 8, 1, 9, 2, 7, 4, 6];
    for (i, rank) in ranks.iter().enumerate() {
        frontier.push(node(i, 0, *rank, 0));
    }
    assert_eq!(frontier.len(), 9);
    let mut seen: Vec<usize> = Vec::new();
    while let Some(entry) = frontier.pop() {
        seen.push(entry.cost);
    }
    assert_eq!(seen, vec![1, 2, 3, 4, 5, 6, 7, 8, 9]);
    assert_eq!(frontier.len(), 0);
}

#[test]
fn priority_counts_cost_and_heuristic_together() {
    let mut frontier = Frontier::new();
    frontier.push(node(0, 0, 10, 0));
    frontier.push(node(1, 1, 0, 9));
    frontier.push(node(2, 2, 4, 4));
    assert_eq!(frontier.pop().map(|e| e.position), Some((2, 2)));
    assert_eq!(frontier.pop().map(|e| e.position), Some((1, 1)));
    assert_eq!(frontier.pop().map(|e| e.position), Some((0, 0)));
    assert!(frontier.pop().is_none());
}

#[test]
fn repeated_entries_are_all_kept() {
    let mut frontier = Frontier::new();
    frontier.push(node(1, 2, 3, 4));
    frontier.push(node(1, 2, 3, 4));
    frontier.push(node(1, 2, 1, 4));
    assert_eq!(frontier.len(), 3);
    assert_eq!(frontier.pop().map(|e| e.cost), Some(1));
    assert_eq!(frontier.pop().map(|e| e.cost), Some(3));
    assert_eq!(frontier.pop().map(|e| e.cost), Some(3));
    assert!(frontier.pop().is_none());
}

#[test]
fn pushes_and_pops_may_alternate() {
    let mut frontier = Frontier::new();
    let mut state: usize = 12345;
    let mut held: Vec<usize> = Vec::new();
    for round in 0..400 {
        state = (state * 1103515245 + 12345) % 2147483648;
        if round % 3 == 2 {
            let least = frontier.pop().map(|e| e.cost + e.heuristic);
            held.sort();
            if held.is_empty() {
                assert_eq!(least, None);
            } else {
                assert_eq!(least, Some(held.remove(0)));
            }
        } else {
            let cost: usize = state % 50;
            let heuristic: usize = (state / 50) % 30;
            frontier.push(node(round, 0, cost, heuristic));
            held.push(cost + heuristic);
        }
        assert_eq!(frontier.len(), held.len());
    }
}

#[test]
fn huge_priorities_do_not_overflow() {
    let mut frontier = Frontier::new();
    frontier.push(node(0, 0, usize::MAX, usize::MAX));
    frontier.push(node(1, 1, usize::MAX, 0));
    frontier.push(node(2, 2, 1, 1));
    assert_eq!(frontier.pop().map(|e| e.position), Some((2, 2)));
    assert_eq!(frontier.pop().map(|e| e.position), Some((1, 1)));
    assert_eq!(frontier.pop().map(|e| e.position), Some((0, 0)));
}
