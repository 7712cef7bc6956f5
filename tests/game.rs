use tetris::{Action, Board, Dir, GameState, Shape, HEIGHT, SPAWN_X, SPAWN_Y, TICK_TIME, WIDTH};

fn occupied(b: &Board) -> usize {
    let mut n = 0;
    for y in 0..HEIGHT {
        for x in 0..WIDTH {
            if b.cell(x, y) {
                n += 1;
            }
        }
    }
    n
}

fn at(shape: Shape, x: i32, y: i32) -> GameState {
    let mut s = GameState::with_shape(shape);
    s.pos = [x, y];
    s
}

#[test]
fn o_piece_falls_to_floor_and_locks() {
    let mut s = GameState::with_shape(Shape::O);
    assert_eq!(s.pos, [4, 19]);
    for step in 0..19 {
        assert_eq!(s.move_tetrimino([0, -1], Shape::T), None);
        assert_eq!(s.pos, [4, 18 - step]);
        assert_eq!(occupied(&s.board), 0);
    }
    assert_eq!(s.pos, [4, 0]);
    assert_eq!(s.move_tetrimino([0, -1], Shape::T), None);
    assert_eq!(occupied(&s.board), 4);
    for (x, y) in [(4, 0), (5, 0), (4, 1), (5, 1)] {
        assert!(s.board.cell(x, y));
    }
    assert_eq!(s.pos, [SPAWN_X, SPAWN_Y]);
    assert_eq!(s.tetrimino, Shape::T.matrix());
}

#[test]
fn o_piece_falls_by_gravity_steps() {
    let mut s = GameState::with_shape(Shape::O);
    for _ in 0..19 {
        assert_eq!(s.advance(TICK_TIME + 1, Shape::I), None);
    }
    assert_eq!(s.pos, [4, 0]);
    assert_eq!(s.tick, 0);
    assert_eq!(s.advance(TICK_TIME, Shape::I), None);
    assert_eq!(s.pos, [4, 0]);
    assert_eq!(s.tick, TICK_TIME);
    assert_eq!(s.advance(1, Shape::I), None);
    assert_eq!(occupied(&s.board), 4);
    assert!(s.board.cell(4, 0) && s.board.cell(5, 0) && s.board.cell(4, 1) && s.board.cell(5, 1));
    assert_eq!(s.pos, [SPAWN_X, SPAWN_Y]);
    assert_eq!(s.tetrimino, vec![vec![true, true, true, true]]);
}

#[test]
fn full_row_clears_and_row_above_drops() {
    let mut s = GameState::with_shape(Shape::O);
    for x in 0..WIDTH {
        s.board.fill(x, 0);
    }
    for x in [0, 2, 5, 9] {
        s.board.fill(x, 1);
    }
    s.check_rows();
    assert_eq!(s.score, 1);
    for x in 0..WIDTH {
        assert_eq!(s.board.cell(x, 0), [0, 2, 5, 9].contains(&x));
        assert!(!s.board.cell(x, 1));
    }
    assert_eq!(occupied(&s.board), 4);
}

#[test]
fn two_separated_full_rows_clear_together() {
    let mut b = Board::new();
    for x in 0..WIDTH {
        b.fill(x, 2);
        b.fill(x, 5);
    }
    b.fill(3, 3);
    b.fill(7, 6);
    b.fill(1, 19);
    assert_eq!(b.clear_full_rows(), 2);
    assert_eq!(occupied(&b), 3);
    assert!(b.cell(3, 2));
    assert!(b.cell(7, 4));
    assert!(b.cell(1, 17));
    assert!(!b.row_is_full(2) && !b.row_is_full(5));
}

#[test]
fn clear_row_shifts_rows_above_in_order() {
    let mut b = Board::new();
    b.fill(0, 3);
    b.fill(1, 4);
    b.fill(2, 5);
    b.fill(9, 19);
    b.fill(8, 1);
    b.clear_row(3);
    assert!(b.cell(8, 1));
    assert!(b.cell(1, 3));
    assert!(b.cell(2, 4));
    assert!(b.cell(9, 18));
    assert!(!b.cell(9, 19));
    assert_eq!(occupied(&b), 4);
    b.clear();
    assert_eq!(occupied(&b), 0);
}

#[test]
fn score_saturates() {
    let mut s = GameState::with_shape(Shape::I);
    s.score = u64::MAX;
    for x in 0..WIDTH {
        s.board.fill(x, 0);
    }
    s.check_rows();
    assert_eq!(s.score, u64::MAX);
    assert_eq!(occupied(&s.board), 0);
}

#[test]
fn sideways_out_of_grid_is_refused() {
    let mut s = at(Shape::O, 0, 10);
    assert_eq!(s.move_tetrimino([-1, 0], Shape::T), None);
    assert_eq!(s.pos, [0, 10]);
    let mut s = at(Shape::O, 8, 10);
    assert_eq!(s.move_tetrimino([1, 0], Shape::T), None);
    assert_eq!(s.pos, [8, 10]);
    assert_eq!(s.move_tetrimino([-1, 0], Shape::T), None);
    assert_eq!(s.pos, [7, 10]);
}

#[test]
fn sideways_into_occupied_cell_is_refused() {
    let mut s = at(Shape::O, 4, 10);
    s.board.fill(6, 11);
    assert_eq!(s.move_tetrimino([1, 0], Shape::T), None);
    assert_eq!(s.pos, [4, 10]);
    assert_eq!(occupied(&s.board), 1);
}

#[test]
fn free_fall_moves_anchor_down_only() {
    let mut s = at(Shape::T, 3, 10);
    s.board.fill(0, 0);
    assert_eq!(s.move_tetrimino([0, -1], Shape::O), None);
    assert_eq!(s.pos, [3, 9]);
    assert_eq!(occupied(&s.board), 1);
    assert_eq!(s.tetrimino, Shape::T.matrix());
}

#[test]
fn fall_onto_occupied_cell_locks() {
    let mut s = at(Shape::T, 3, 5);
    s.board.fill(4, 4);
    assert_eq!(s.move_tetrimino([0, -1], Shape::S), None);
    assert_eq!(s.pos, [SPAWN_X, SPAWN_Y]);
    assert_eq!(s.tetrimino, Shape::S.matrix());
    // T, bottom row first: one cell at column 4, then three cells above it.
    for (x, y) in [(4, 4), (4, 5), (3, 6), (4, 6), (5, 6)] {
        assert!(s.board.cell(x, y));
    }
    assert_eq!(occupied(&s.board), 5);
}

#[test]
fn spawn_overlap_resets_run() {
    let mut s = at(Shape::O, 0, 0);
    s.score = 7;
    s.board.fill(4, 19);
    s.board.fill(9, 0);
    assert_eq!(s.move_tetrimino([0, -1], Shape::O), Some(7));
    assert_eq!(occupied(&s.board), 0);
    assert_eq!(s.score, 0);
    assert_eq!(s.pos, [SPAWN_X, SPAWN_Y]);
}

#[test]
fn lock_above_grid_resets_run() {
    let mut s = GameState::with_shape(Shape::O);
    s.score = 3;
    s.board.fill(4, 18);
    assert_eq!(s.move_tetrimino([0, -1], Shape::I), Some(3));
    assert_eq!(occupied(&s.board), 0);
    assert_eq!(s.score, 0);
    assert_eq!(s.pos, [SPAWN_X, SPAWN_Y]);
    assert_eq!(s.tetrimino, Shape::I.matrix());
}

#[test]
fn rotation_turns_t_piece() {
    let mut s = at(Shape::T, 4, 5);
    s.rotate_tetrimino();
    assert_eq!(s.tetrimino, vec![vec![false, true], vec![true, true], vec![false, true]]);
    assert_eq!(s.pos, [4, 5]);
    s.rotate_tetrimino();
    assert_eq!(s.tetrimino, vec![vec![true, true, true], vec![false, true, false]]);
}

#[test]
fn rotation_out_of_grid_is_refused() {
    let mut s = at(Shape::I, 4, 18);
    s.rotate_tetrimino();
    assert_eq!(s.tetrimino, Shape::I.matrix());
    let mut s = at(Shape::I, 4, 0);
    s.rotate_tetrimino();
    assert_eq!(s.tetrimino, vec![vec![true], vec![true], vec![true], vec![true]]);
    let mut s = at(Shape::I, 8, 5);
    s.tetrimino = vec![vec![true], vec![true], vec![true], vec![true]];
    s.rotate_tetrimino();
    assert_eq!(s.tetrimino, vec![vec![true], vec![true], vec![true], vec![true]]);
}

#[test]
fn rotation_onto_occupied_cell_is_refused() {
    let mut s = at(Shape::I, 4, 0);
    s.board.fill(7, 2);
    s.rotate_tetrimino();
    assert_eq!(s.tetrimino, vec![vec![true], vec![true], vec![true], vec![true]]);
    let mut s = at(Shape::I, 4, 0);
    s.board.fill(4, 2);
    s.rotate_tetrimino();
    assert_eq!(s.tetrimino, Shape::I.matrix());
}

#[test]
fn bounds_and_blocking() {
    let s = GameState::with_shape(Shape::O);
    assert!(s.in_bounds([0, 0]));
    assert!(s.in_bounds([9, 19]));
    assert!(s.in_bounds([0, -1]));
    assert!(!s.in_bounds([-1, 0]));
    assert!(!s.in_bounds([10, 0]));
    assert!(!s.in_bounds([0, 20]));
    assert!(s.is_blocked([3, -1]));
    assert!(!s.is_blocked([3, 0]));
    let mut s = s;
    s.board.fill(3, 0);
    assert!(s.is_blocked([3, 0]));
}

#[test]
fn soft_drop_doubles_time() {
    let mut s = at(Shape::O, 4, 10);
    assert!(s.input(Action::Down));
    assert_eq!(s.dir, Some(Dir::Down));
    s.advance(70_000, Shape::O);
    assert_eq!(s.pos, [4, 9]);
    assert_eq!(s.tick, 0);
    assert_eq!(s.dir, Some(Dir::Down));
}

#[test]
fn horizontal_input_moves_once() {
    let mut s = at(Shape::O, 4, 10);
    assert!(s.input(Action::Left));
    s.advance(1_000, Shape::O);
    assert_eq!(s.pos, [3, 10]);
    assert_eq!(s.dir, None);
    assert_eq!(s.tick, 1_000);
    s.advance(1_000, Shape::O);
    assert_eq!(s.pos, [3, 10]);
    assert!(s.input(Action::Right));
    s.advance(TICK_TIME, Shape::O);
    assert_eq!(s.pos, [4, 9]);
    assert_eq!(s.tick, 0);
}

#[test]
fn pause_suspends_steps_and_moves() {
    let mut s = at(Shape::O, 4, 10);
    assert!(s.input(Action::TogglePause));
    assert!(s.paused);
    assert!(s.input(Action::Left));
    assert_eq!(s.dir, None);
    assert!(s.input(Action::Rotate));
    assert_eq!(s.advance(10 * TICK_TIME, Shape::O), None);
    assert_eq!(s.pos, [4, 10]);
    assert_eq!(s.tick, 0);
    assert!(s.input(Action::TogglePause));
    assert!(!s.paused);
    s.advance(TICK_TIME + 1, Shape::O);
    assert_eq!(s.pos, [4, 9]);
}

#[test]
fn other_input_is_not_consumed_and_drops_direction() {
    let mut s = at(Shape::O, 4, 10);
    assert!(s.input(Action::Right));
    assert!(!s.input(Action::Other));
    assert_eq!(s.dir, None);
    s.advance(1, Shape::O);
    assert_eq!(s.pos, [4, 10]);
}

#[test]
fn step_clears_rows_after_lock() {
    let mut s = at(Shape::I, 0, 0);
    for x in 4..WIDTH {
        s.board.fill(x, 0);
    }
    s.board.fill(0, 1);
    // The I piece already lies on row 0; it locks on the next fall.
    assert_eq!(s.move_tetrimino([0, -1], Shape::O), None);
    assert!(s.board.cell(0, 0) && s.board.cell(3, 0));
    s.check_rows();
    assert_eq!(s.score, 1);
    assert!(s.board.cell(0, 0));
    assert_eq!(occupied(&s.board), 1);
}

#[test]
fn piece_cells_lists_covered_cells() {
    let s = at(Shape::S, 2, 7);
    let mut cells = s.piece_cells();
    cells.sort();
    assert_eq!(cells, vec![(2, 8), (3, 7), (3, 8), (4, 7)]);
}

#[test]
fn shape_catalogue() {
    assert_eq!(Shape::from_index(0), Shape::O);
    assert_eq!(Shape::from_index(6), Shape::I);
    assert_eq!(Shape::from_index(4).matrix(), vec![vec![true, false, false], vec![true, true, true]]);
    assert_eq!(Shape::L.matrix(), vec![vec![false, false, true], vec![true, true, true]]);
}

#[test]
fn random_shapes_vary() {
    let catalogue: Vec<Vec<Vec<bool>>> = (0..7).map(|i| Shape::from_index(i).matrix()).collect();
    let mut seen = std::collections::HashSet::new();
    for _ in 0..200 {
        let m = GameState::random_tetrimino();
        let i = catalogue.iter().position(|c| *c == m).unwrap();
        seen.insert(i);
    }
    assert!(seen.len() > 1);
}

#[test]
fn new_run_starts_empty() {
    let s = GameState::new();
    assert_eq!(s.pos, [SPAWN_X, SPAWN_Y]);
    assert_eq!(s.score, 0);
    assert_eq!(s.tick, 0);
    assert_eq!(occupied(&s.board), 0);
    assert!(!s.paused);
}

#[test]
fn update_follows_the_clock() {
    let mut s = GameState::with_shape(Shape::O);
    let start = std::time::Instant::now();
    while start.elapsed().as_micros() < 140_000 {}
    assert_eq!(s.update(), None);
    assert_eq!(s.pos, [4, 18]);
    assert_eq!(s.tick, 0);
}
