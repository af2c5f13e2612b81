use grid_pathfinder::grid::{Cell, HEIGHT, WIDTH};
use grid_pathfinder::pathfinder::{find_path, get_neighbors, manhattan_distance};
use std::collections::VecDeque;

type Cells = [[Cell; WIDTH]; HEIGHT];

fn open_cells() -> Cells {
    [[Cell::Empty; WIDTH]; HEIGHT]
}

/// Reads ten rows of twenty characters: `#` is an obstacle, `P` the player,
/// `T` a target, `*` a trail marker, anything else empty.
fn cells_from(rows: [&str; HEIGHT]) -> Cells {
    let mut cells = open_cells();
    for (r, row) in rows.iter().enumerate() {
        assert_eq!(row.len(), WIDTH);
        for (c, ch) in row.chars().enumerate() {
            cells[r][c] = match ch {
                '#' => Cell::Obstacle,
                'P' => Cell::Player,
                'T' => Cell::Target,
                '*' => Cell::Path,
                _ => Cell::Empty,
            };
        }
    }
    cells
}

/// Breadth-first distances from `start`, the reference that the search is
/// held against.
fn distances(cells: &Cells, start: (usize, usize)) -> Vec<Vec<Option<usize>>> {
    let mut found: Vec<Vec<Option<usize>>> = vec![vec![None; WIDTH]; HEIGHT];
    let mut queue: VecDeque<(usize, usize)> = VecDeque::new();
    found[start.0][start.1] = Some(0);
    queue.push_back(start);
    while let Some((r, c)) = queue.pop_front() {
        let here: usize = found[r][c].unwrap();
        let mut next: Vec<(usize, usize)> = Vec::new();
        if r > 0 {
            next.push((r - 1, c));
        }
        if r + 1 < HEIGHT {
            next.push((r + 1, c));
        }
        if c > 0 {
            next.push((r, c - 1));
        }
        if c + 1 < WIDTH {
            next.push((r, c + 1));
        }
        for (nr, nc) in next {
            if cells[nr][nc] != Cell::Obstacle && found[nr][nc].is_none() {
                found[nr][nc] = Some(here + 1);
                queue.push_back((nr, nc));
            }
        }
    }
    found
}

fn assert_walk(cells: &Cells, start: (usize, usize), target: (usize, usize), path: &[(usize, usize)]) {
    let mut at = start;
    for step in path.iter() {
        assert!(step.0 < HEIGHT && step.1 < WIDTH);
        let gap: usize = at.0.abs_diff(step.0) + at.1.abs_diff(step.1);
        assert_eq!(gap, 1, "steps must be orthogonal neighbours");
        assert_ne!(cells[step.0][step.1], Cell::Obstacle);
        at = *step;
    }
    assert_eq!(at, target);
}

fn scrambled_cells(seed: usize, percent: usize) -> Cells {
    let mut cells = open_cells();
    let mut state: usize = seed;
    for r in 0..HEIGHT {
        for c in 0..WIDTH {
            state = (state * 1103515245 + 12345) % 2147483648;
            if (state / 65536) % 100 < percent {
                cells[r][c] = Cell::Obstacle;
            }
        }
    }
    cells
}

#[test]
fn manhattan_distance_adds_both_axes() {
    assert_eq!(manhattan_distance((0, 0), (0, 0)), 0);
    assert_eq!(manhattan_distance((0, 0), (0, 3)), 3);
    assert_eq!(manhattan_distance((2, 7), (5, 1)), 9);
    assert_eq!(manhattan_distance((5, 1), (2, 7)), 9);
    assert_eq!(manhattan_distance((0, 0), (9, 19)), 28);
    assert_eq!(manhattan_distance((9, 19), (0, 0)), 28);
}

#[test]
fn manhattan_distance_of_far_coordinates() {
    assert_eq!(manhattan_distance((0, 7), (usize::MAX, 7)), usize::MAX);
    assert_eq!(manhattan_distance((usize::MAX - 1, 1), (0, 0)), usize::MAX);
}

#[test]
fn neighbors_come_up_down_left_right() {
    let cells = open_cells();
    assert_eq!(get_neighbors(&cells, (4, 4)), vec![(3, 4), (5, 4), (4, 3), (4, 5)]);
}

#[test]
fn neighbors_stay_on_the_grid() {
    let cells = open_cells();
    assert_eq!(get_neighbors(&cells, (0, 0)), vec![(1, 0), (0, 1)]);
    assert_eq!(get_neighbors(&cells, (9, 19)), vec![(8, 19), (9, 18)]);
    assert_eq!(get_neighbors(&cells, (0, 19)), vec![(1, 19), (0, 18)]);
    assert_eq!(get_neighbors(&cells, (9, 0)), vec![(8, 0), (9, 1)]);
    assert_eq!(get_neighbors(&cells, (0, 5)), vec![(1, 5), (0, 4), (0, 6)]);
}

#[test]
fn neighbors_leave_out_obstacles_only() {
    let mut cells = open_cells();
    cells[3][4] = Cell::Obstacle;
    cells[4][5] = Cell::Obstacle;
    cells[5][4] = Cell::Target;
    cells[4][3] = Cell::Path;
    assert_eq!(get_neighbors(&cells, (4, 4)), vec![(5, 4), (4, 3)]);
    cells[5][4] = Cell::Obstacle;
    cells[4][3] = Cell::Obstacle;
    assert_eq!(get_neighbors(&cells, (4, 4)), Vec::<(usize, usize)>::new());
}

#[test]
fn straight_line_on_an_open_grid() {
    let cells = open_cells();
    let path = find_path(&cells, (0, 0), (0, 3));
    assert_eq!(path, Some(vec![(0, 1), (0, 2), (0, 3)]));
    assert_eq!(path.unwrap().len(), 3);
}

#[test]
fn straight_line_down_a_column() {
    let cells = open_cells();
    assert_eq!(find_path(&cells, (2, 5), (6, 5)), Some(vec![(3, 5), (4, 5), (5, 5), (6, 5)]));
    assert_eq!(find_path(&cells, (6, 5), (4, 5)), Some(vec![(5, 5), (4, 5)]));
}

#[test]
fn start_equal_to_target_gives_the_empty_path() {
    let cells = open_cells();
    assert_eq!(find_path(&cells, (0, 0), (0, 0)), Some(Vec::new()));
    assert_eq!(find_path(&cells, (9, 19), (9, 19)), Some(Vec::new()));
}

#[test]
fn start_equal_to_target_inside_walls_gives_the_empty_path() {
    let mut cells = open_cells();
    cells[3][4] = Cell::Obstacle;
    cells[5][4] = Cell::Obstacle;
    cells[4][3] = Cell::Obstacle;
    cells[4][5] = Cell::Obstacle;
    assert_eq!(find_path(&cells, (4, 4), (4, 4)), Some(Vec::new()));
}

#[test]
fn wall_across_all_rows_blocks_the_way() {
    let mut cells = open_cells();
    for r in 0..HEIGHT {
        cells[r][10] = Cell::Obstacle;
    }
    assert_eq!(find_path(&cells, (0, 0), (0, 19)), None);
    assert_eq!(find_path(&cells, (5, 9), (5, 11)), None);
}

#[test]
fn wall_across_all_columns_blocks_the_way() {
    let mut cells = open_cells();
    for c in 0..WIDTH {
        cells[4][c] = Cell::Obstacle;
    }
    assert_eq!(find_path(&cells, (0, 0), (9, 0)), None);
    assert_eq!(find_path(&cells, (9, 19), (3, 19)), None);
}

#[test]
fn wall_with_a_gap_is_passed_through_the_gap() {
    let mut cells = open_cells();
    for r in 0..HEIGHT {
        cells[r][10] = Cell::Obstacle;
    }
    cells[7][10] = Cell::Empty;
    let path = find_path(&cells, (0, 9), (0, 11)).unwrap();
    assert_walk(&cells, (0, 9), (0, 11), &path);
    assert_eq!(path.len(), 16);
    assert!(path.contains(&(7, 10)));
}

#[test]
fn enclosed_target_cannot_be_reached() {
    let cells = cells_from([
        "....................",
        "....................",
        ".......###..........",
        ".......#.#..........",
        ".......###..........",
        "....................",
        "....................",
        "....................",
        "....................",
        "....................",
    ]);
    assert_eq!(find_path(&cells, (0, 0), (3, 8)), None);
    assert_eq!(find_path(&cells, (3, 8), (0, 0)), None);
}

#[test]
fn target_on_an_obstacle_cannot_be_reached() {
    let mut cells = open_cells();
    cells[2][2] = Cell::Obstacle;
    assert_eq!(find_path(&cells, (0, 0), (2, 2)), None);
}

#[test]
fn detour_round_a_wall_is_shortest() {
    let cells = cells_from([
        "....................",
        ".....#..............",
        ".....#..............",
        ".....#..............",
        ".....#..............",
        ".....#..............",
        ".....#..............",
        ".....#..............",
        ".....#..............",
        ".....#..............",
    ]);
    let path = find_path(&cells, (9, 4), (9, 6)).unwrap();
    assert_walk(&cells, (9, 4), (9, 6), &path);
    assert_eq!(path.len(), 20);
}

#[test]
fn winding_corridor_is_followed() {
    let cells = cells_from([
        "..................#.",
        "#################.#.",
        "..................#.",
        ".##################.",
        "....................",
        "###################.",
        "....................",
        ".###################",
        "....................",
        "....................",
    ]);
    let found = distances(&cells, (0, 0));
    let path = find_path(&cells, (0, 0), (0, 19)).unwrap();
    assert_walk(&cells, (0, 0), (0, 19), &path);
    assert_eq!(Some(path.len()), found[0][19]);
}

#[test]
fn other_cell_kinds_do_not_block() {
    let cells = cells_from([
        "P*T.................",
        "####################",
        "....................",
        "....................",
        "....................",
        "....................",
        "....................",
        "....................",
        "....................",
        "....................",
    ]);
    assert_eq!(find_path(&cells, (0, 0), (0, 3)), Some(vec![(0, 1), (0, 2), (0, 3)]));
}

#[test]
fn paths_are_walks_of_breadth_first_length() {
    for seed in 1..40 {
        let cells = scrambled_cells(seed * 7919, 25);
        let starts: [(usize, usize); 4] = [(0, 0), (9, 19), (4, 10), (seed % HEIGHT, seed % WIDTH)];
        for start in starts.iter() {
            let found = distances(&cells, *start);
            for r in 0..HEIGHT {
                for c in 0..WIDTH {
                    let answer = find_path(&cells, *start, (r, c));
                    match answer {
                        Some(path) => {
                            assert_walk(&cells, *start, (r, c), &path);
                            assert_eq!(Some(path.len()), found[r][c]);
                        },
                        None => assert_eq!(found[r][c], None),
                    }
                }
            }
        }
    }
}

#[test]
fn disconnected_regions_have_no_path_between_them() {
    for seed in 1..30 {
        let cells = scrambled_cells(seed * 104729, 45);
        let found = distances(&cells, (5, 5));
        for r in 0..HEIGHT {
            for c in 0..WIDTH {
                if found[r][c].is_none() {
                    assert_eq!(find_path(&cells, (5, 5), (r, c)), None);
                } else {
                    assert!(find_path(&cells, (5, 5), (r, c)).is_some());
                }
            }
        }
    }
}

#[test]
fn search_gives_the_same_answer_every_time() {
    let cells = scrambled_cells(424242, 20);
    let first = find_path(&cells, (0, 0), (9, 19));
    for _ in 0..5 {
        assert_eq!(find_path(&cells, (0, 0), (9, 19)), first);
    }
}

#[test]
fn search_leaves_the_grid_untouched() {
    let cells = scrambled_cells(99, 20);
    let before = cells;
    let _ = find_path(&cells, (0, 0), (9, 19));
    assert_eq!(cells, before);
}
