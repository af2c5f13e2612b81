use grid_pathfinder::game::{Command, Game, Outcome};
use grid_pathfinder::grid::{Cell, Grid, HEIGHT, WIDTH};

fn open_game(player: (usize, usize)) -> Game {
    let mut grid = Grid { cells: [[Cell::Empty; WIDTH]; HEIGHT] };
    grid.cells[player.0][player.1] = Cell::Player;
    Game { grid, player_pos: player, target_pos: None }
}

fn copy(game: &Game) -> Game {
    Game { grid: game.grid, player_pos: game.player_pos, target_pos: game.target_pos }
}

fn count(game: &Game, kind: Cell) -> usize {
    let mut found: usize = 0;
    for row in game.grid.cells.iter() {
        for cell in row.iter() {
            if *cell == kind {
                found += 1;
            }
        }
    }
    found
}

#[test]
fn new_game_places_the_player_on_the_grid() {
    for _ in 0..20 {
        let game = Game::new().expect("a seeded grid has an empty cell");
        assert!(game.player_pos.0 < HEIGHT);
        assert!(game.player_pos.1 < WIDTH);
        assert_eq!(game.grid.cells[game.player_pos.0][game.player_pos.1], Cell::Player);
        assert_eq!(count(&game, Cell::Player), 1);
        assert_eq!(count(&game, Cell::Target), 0);
        assert_eq!(count(&game, Cell::Path), 0);
        assert_eq!(game.target_pos, None);
    }
}

#[test]
fn new_games_start_in_different_places() {
    let first = Game::new().expect("a seeded grid has an empty cell");
    let mut differs = false;
    for _ in 0..20 {
        let other = Game::new().expect("a seeded grid has an empty cell");
        if other.player_pos != first.player_pos {
            differs = true;
        }
    }
    assert!(differs);
}

#[test]
fn start_on_a_grid_with_one_empty_cell_puts_the_player_there() {
    let mut grid = Grid { cells: [[Cell::Obstacle; WIDTH]; HEIGHT] };
    grid.cells[6][13] = Cell::Empty;
    let game = Game::start_on(grid).expect("one cell is empty");
    assert_eq!(game.player_pos, (6, 13));
    assert_eq!(game.target_pos, None);
    let mut expected = grid;
    expected.cells[6][13] = Cell::Player;
    assert_eq!(game.grid.cells, expected.cells);
}

#[test]
fn start_on_a_grid_without_an_empty_cell_gives_nothing() {
    let grid = Grid { cells: [[Cell::Obstacle; WIDTH]; HEIGHT] };
    assert!(Game::start_on(grid).is_none());
}

#[test]
fn start_on_changes_one_empty_cell_only() {
    let mut grid = Grid { cells: [[Cell::Empty; WIDTH]; HEIGHT] };
    for c in 0..WIDTH {
        grid.cells[3][c] = Cell::Obstacle;
    }
    let mut seen: Vec<(usize, usize)> = Vec::new();
    for _ in 0..50 {
        let game = Game::start_on(grid).expect("many cells are empty");
        let (r, c) = game.player_pos;
        assert_eq!(grid.cells[r][c], Cell::Empty);
        let mut expected = grid;
        expected.cells[r][c] = Cell::Player;
        assert_eq!(game.grid.cells, expected.cells);
        if !seen.contains(&(r, c)) {
            seen.push((r, c));
        }
    }
    assert!(seen.len() > 1);
}

#[test]
fn with_player_takes_an_empty_cell() {
    let grid = Grid { cells: [[Cell::Empty; WIDTH]; HEIGHT] };
    let game = Game::with_player(grid, (3, 4)).expect("the cell is empty");
    assert_eq!(game.player_pos, (3, 4));
    assert_eq!(game.target_pos, None);
    let mut expected = grid;
    expected.cells[3][4] = Cell::Player;
    assert_eq!(game.grid.cells, expected.cells);
}

#[test]
fn with_player_refuses_an_obstacle_and_a_coordinate_off_the_grid() {
    let mut grid = Grid { cells: [[Cell::Empty; WIDTH]; HEIGHT] };
    grid.cells[3][4] = Cell::Obstacle;
    assert!(Game::with_player(grid, (3, 4)).is_none());
    assert!(Game::with_player(grid, (10, 4)).is_none());
    assert!(Game::with_player(grid, (3, 20)).is_none());
}

#[test]
fn set_target_off_the_grid_fails_without_a_change() {
    let mut game = open_game((0, 0));
    let before = copy(&game);
    assert!(!game.set_target(10, 0));
    assert_eq!(game.grid.cells, before.grid.cells);
    assert_eq!(game.player_pos, before.player_pos);
    assert_eq!(game.target_pos, before.target_pos);
    assert!(!game.set_target(0, 20));
    assert!(!game.set_target(usize::MAX, usize::MAX));
    assert_eq!(game.grid.cells, before.grid.cells);
    assert_eq!(game.target_pos, None);
}

#[test]
fn set_target_on_an_obstacle_fails_without_a_change() {
    let mut game = open_game((0, 0));
    game.grid.cells[4][4] = Cell::Obstacle;
    assert!(game.set_target(2, 2));
    let before = copy(&game);
    assert!(!game.set_target(4, 4));
    assert_eq!(game.grid.cells, before.grid.cells);
    assert_eq!(game.target_pos, Some((2, 2)));
}

#[test]
fn set_target_marks_and_records_the_cell() {
    let mut game = open_game((0, 0));
    assert!(game.set_target(9, 19));
    assert_eq!(game.target_pos, Some((9, 19)));
    assert_eq!(game.grid.cells[9][19], Cell::Target);
    assert_eq!(count(&game, Cell::Target), 1);
    assert_eq!(count(&game, Cell::Player), 1);
    assert_eq!(game.player_pos, (0, 0));
}

#[test]
fn set_target_twice_leaves_one_target() {
    let mut game = open_game((0, 0));
    assert!(game.set_target(5, 5));
    let once = copy(&game);
    assert!(game.set_target(5, 5));
    assert_eq!(game.grid.cells, once.grid.cells);
    assert_eq!(game.target_pos, Some((5, 5)));
    assert_eq!(count(&game, Cell::Target), 1);
    assert_eq!(game.grid.cells[5][5], Cell::Target);
}

#[test]
fn replacing_a_target_clears_the_previous_cell_only() {
    let mut game = open_game((0, 0));
    game.grid.cells[7][7] = Cell::Obstacle;
    assert!(game.set_target(5, 5));
    assert!(game.set_target(6, 6));
    assert_eq!(game.target_pos, Some((6, 6)));
    let mut expected = open_game((0, 0));
    expected.grid.cells[7][7] = Cell::Obstacle;
    expected.grid.cells[6][6] = Cell::Target;
    assert_eq!(game.grid.cells, expected.grid.cells);
    assert_eq!(count(&game, Cell::Target), 1);
}

#[test]
fn settle_arrival_forgets_a_reached_target() {
    let mut game = open_game((3, 3));
    game.target_pos = Some((3, 3));
    assert!(game.settle_arrival());
    assert_eq!(game.target_pos, None);
    assert_eq!(game.player_pos, (3, 3));
    assert!(!game.settle_arrival());
}

#[test]
fn settle_arrival_keeps_a_target_not_reached() {
    let mut game = open_game((3, 3));
    assert!(game.set_target(3, 4));
    let before = copy(&game);
    assert!(!game.settle_arrival());
    assert_eq!(game.target_pos, Some((3, 4)));
    assert_eq!(game.grid.cells, before.grid.cells);
}

#[test]
fn movement_takes_the_player_along_the_path() {
    let mut game = open_game((0, 0));
    assert!(game.set_target(0, 3));
    let frames = game.animate_movement(vec![(0, 1), (0, 2), (0, 3)]);
    assert_eq!(frames.len(), 3);
    assert_eq!(game.player_pos, (0, 3));
    let mut expected = Grid { cells: [[Cell::Empty; WIDTH]; HEIGHT] };
    expected.cells[0][3] = Cell::Player;
    assert_eq!(game.grid.cells, expected.cells);
    assert_eq!(game.target_pos, Some((0, 3)));
}

#[test]
fn movement_frames_show_the_trail_shrinking() {
    let mut game = open_game((0, 0));
    assert!(game.set_target(0, 3));
    let frames = game.animate_movement(vec![(0, 1), (0, 2), (0, 3)]);
    let row = |cells: [Cell; 4]| {
        let mut grid = Grid { cells: [[Cell::Empty; WIDTH]; HEIGHT] };
        for (c, cell) in cells.iter().enumerate() {
            grid.cells[0][c] = *cell;
        }
        grid.cells
    };
    assert_eq!(frames[0].cells, row([Cell::Empty, Cell::Player, Cell::Path, Cell::Target]));
    assert_eq!(frames[1].cells, row([Cell::Empty, Cell::Empty, Cell::Player, Cell::Target]));
    assert_eq!(frames[2].cells, row([Cell::Empty, Cell::Empty, Cell::Empty, Cell::Player]));
}

#[test]
fn movement_along_the_empty_path_changes_nothing_but_markers() {
    let mut game = open_game((2, 2));
    game.grid.cells[5][5] = Cell::Path;
    let frames = game.animate_movement(Vec::new());
    assert!(frames.is_empty());
    assert_eq!(game.grid.cells, open_game((2, 2)).grid.cells);
    assert_eq!(game.player_pos, (2, 2));
}

#[test]
fn quit_ends_the_session() {
    let mut game = open_game((0, 0));
    let before = copy(&game);
    assert!(matches!(game.respond(Command::Quit), Outcome::Finished));
    assert_eq!(game.grid.cells, before.grid.cells);
    assert_eq!(game.target_pos, None);
}

#[test]
fn malformed_line_asks_again() {
    let mut game = open_game((0, 0));
    let before = copy(&game);
    assert!(matches!(game.respond(Command::Malformed), Outcome::Retry));
    assert_eq!(game.grid.cells, before.grid.cells);
    assert_eq!(game.target_pos, None);
}

#[test]
fn invalid_target_is_rejected() {
    let mut game = open_game((0, 0));
    game.grid.cells[1][1] = Cell::Obstacle;
    let before = copy(&game);
    assert!(matches!(game.respond(Command::Target(10, 0)), Outcome::Rejected));
    assert!(matches!(game.respond(Command::Target(1, 1)), Outcome::Rejected));
    assert_eq!(game.grid.cells, before.grid.cells);
    assert_eq!(game.target_pos, None);
    assert_eq!(game.player_pos, (0, 0));
}

#[test]
fn unreachable_target_stays_set() {
    let mut game = open_game((0, 0));
    for r in 0..HEIGHT {
        game.grid.cells[r][10] = Cell::Obstacle;
    }
    assert!(matches!(game.respond(Command::Target(0, 19)), Outcome::Blocked));
    assert_eq!(game.target_pos, Some((0, 19)));
    assert_eq!(game.grid.cells[0][19], Cell::Target);
    assert_eq!(game.player_pos, (0, 0));
    assert!(!game.settle_arrival());
    // The next target replaces the one that could not be reached.
    assert!(matches!(game.respond(Command::Target(0, 2)), Outcome::Moved { .. }));
    assert_eq!(game.grid.cells[0][19], Cell::Empty);
    assert_eq!(game.target_pos, Some((0, 2)));
    assert_eq!(game.player_pos, (0, 2));
}

#[test]
fn reachable_target_is_walked_to() {
    let mut game = open_game((0, 0));
    match game.respond(Command::Target(0, 3)) {
        Outcome::Moved { path, frames } => {
            assert_eq!(path, vec![(0, 1), (0, 2), (0, 3)]);
            assert_eq!(frames.len(), 3);
            assert_eq!(frames[2].cells, game.grid.cells);
        },
        other => panic!("expected a move, got {:?}", other),
    }
    assert_eq!(game.player_pos, (0, 3));
    assert_eq!(game.target_pos, Some((0, 3)));
    assert_eq!(count(&game, Cell::Player), 1);
    assert_eq!(count(&game, Cell::Target), 0);
    assert_eq!(count(&game, Cell::Path), 0);
    assert!(game.settle_arrival());
    assert_eq!(game.target_pos, None);
}

#[test]
fn turns_keep_one_player_and_at_most_one_target() {
    let mut game = open_game((5, 5));
    for c in 3..17 {
        game.grid.cells[2][c] = Cell::Obstacle;
    }
    let mut state: usize = 2024;
    for _ in 0..60 {
        game.settle_arrival();
        state = (state * 1103515245 + 12345) % 2147483648;
        let row: usize = (state / 1024) % (HEIGHT + 2);
        let col: usize = (state / 65536) % (WIDTH + 2);
        if (row, col) == game.player_pos {
            continue;
        }
        let _ = game.respond(Command::Target(row, col));
        assert_eq!(count(&game, Cell::Player), 1);
        assert_eq!(game.grid.cells[game.player_pos.0][game.player_pos.1], Cell::Player);
        assert!(count(&game, Cell::Target) <= 1);
        assert_eq!(count(&game, Cell::Path), 0);
        assert_eq!(count(&game, Cell::Obstacle), 14);
    }
}
