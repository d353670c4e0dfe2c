use snake_engine::engine::Grid;
use snake_engine::model::{Cell, Dir};

fn count_cells(g: &Grid, want: Cell) -> usize {
    let sz = g.size();
    let mut n = 0;
    for i in 0..sz {
        for j in 0..sz {
            if g.get_cell(i, j) == want {
                n += 1;
            }
        }
    }
    n
}

#[test]
fn invariant_one_apple_and_snake_cells_match() {
    let mut g = Grid::with_apple_at(5, 0, 3);
    for step in 0..12 {
        assert_eq!(count_cells(&g, Cell::Apple), 1);
        assert_eq!(count_cells(&g, Cell::Snake), g.snake_len());
        g.tick_placing(step);
    }
    assert_eq!(count_cells(&g, Cell::Apple), 1);
    assert_eq!(count_cells(&g, Cell::Snake), g.snake_len());
}

#[test]
fn invariant_holds_under_random_placement() {
    let mut g = Grid::with_size(6);
    for _ in 0..30 {
        g.tick();
        assert_eq!(count_cells(&g, Cell::Apple), 1);
        assert_eq!(count_cells(&g, Cell::Snake), g.snake_len());
    }
}

#[test]
fn wrap_around_right_edge() {
    // head starts at (2, 0) heading right on a 5-grid; apple kept off row 2
    let mut g = Grid::with_apple_at(5, 0, 0);
    for _ in 0..4 {
        g.tick();
    }
    assert_eq!(g.head(), (2, 4));
    g.tick();
    assert_eq!(g.head(), (2, 0));
}

#[test]
fn wrap_around_top_and_left_edges() {
    let mut g = Grid::with_apple_at(5, 4, 4);
    g.change_dir(Dir::Up);
    g.tick();
    assert_eq!(g.head(), (1, 0));
    g.tick();
    assert_eq!(g.head(), (0, 0));
    g.tick();
    assert_eq!(g.head(), (4, 0));
    g.change_dir(Dir::Left);
    g.tick();
    assert_eq!(g.head(), (4, 4));
}

#[test]
fn growth_on_apple_relocates_it_to_an_empty_cell() {
    // repeated trials: the fresh apple must never land on a snake cell
    for _ in 0..60 {
        let mut g = Grid::with_apple_at(3, 1, 1);
        let changed = g.tick();
        assert!(changed);
        assert_eq!(g.snake_len(), 2);
        assert_eq!(g.head(), (1, 1));
        let p = g.apple().expect("a non-full board keeps one apple");
        assert_ne!(p, (1, 1));
        assert_ne!(p, (1, 0));
        assert_eq!(g.get_cell(p.0, p.1), Cell::Apple);
        assert_eq!(count_cells(&g, Cell::Apple), 1);
    }
}

#[test]
fn reversal_request_is_ignored() {
    let mut g = Grid::with_apple_at(5, 0, 0);
    g.change_dir(Dir::Left);
    g.tick();
    assert_eq!(g.head(), (2, 1));
}

#[test]
fn perpendicular_requests_are_taken() {
    let mut g = Grid::with_apple_at(5, 0, 0);
    g.change_dir(Dir::Up);
    g.tick();
    assert_eq!(g.head(), (1, 0));

    let mut h = Grid::with_apple_at(5, 0, 1);
    h.change_dir(Dir::Down);
    h.tick();
    assert_eq!(h.head(), (3, 0));
}

#[test]
fn same_direction_request_is_a_noop() {
    let mut g = Grid::with_apple_at(5, 0, 0);
    g.change_dir(Dir::Right);
    g.tick();
    assert_eq!(g.head(), (2, 1));
}

#[test]
fn death_by_self_collision_is_terminal() {
    let mut g = Grid::with_apple_at(3, 1, 1);
    // eat at (1, 1); empties row-major are (0,0) (0,1) (0,2) (1,2) (2,0)
    // (2,1) (2,2), so choice 3 puts the apple at (1,2)
    assert!(g.tick_placing(3));
    assert_eq!(g.apple(), Some((1, 2)));
    // eat at (1, 2); empties are (0,0) (0,1) (0,2) (2,0) (2,1) (2,2),
    // so choice 3 puts the apple at (2,0)
    assert!(g.tick_placing(3));
    assert_eq!(g.apple(), Some((2, 0)));
    assert_eq!(g.snake_len(), 3);
    g.change_dir(Dir::Down);
    assert!(g.tick_placing(0));
    g.change_dir(Dir::Left);
    assert!(g.tick_placing(0));
    // eat at (2, 0); snake now fills row 2 plus (1,2); choice 0 puts the
    // apple at (0,0)
    assert!(g.tick_placing(0));
    assert_eq!(g.apple(), Some((0, 0)));
    assert_eq!(g.snake_len(), 4);
    assert_eq!(g.head(), (2, 0));
    // heading left wraps to (2,2), a cell the body still occupies
    assert!(!g.is_dead());
    assert!(g.tick_placing(0));
    assert!(g.is_dead());
    assert_eq!(g.snake_len(), 3);

    // dead is terminal: no change is reported and nothing moves
    let before: Vec<Cell> = (0..3)
        .flat_map(|i| (0..3).map(move |j| (i, j)))
        .map(|(i, j)| g.get_cell(i, j))
        .collect();
    for _ in 0..5 {
        assert!(!g.tick());
        assert!(g.is_dead());
    }
    let after: Vec<Cell> = (0..3)
        .flat_map(|i| (0..3).map(move |j| (i, j)))
        .map(|(i, j)| g.get_cell(i, j))
        .collect();
    assert_eq!(before, after);
    assert_eq!(g.snake_len(), 3);
}

#[test]
fn deterministic_given_the_same_choices() {
    let mut a = Grid::with_apple_at(5, 2, 3);
    let mut b = Grid::with_apple_at(5, 2, 3);
    let dirs = [Dir::Right, Dir::Down, Dir::Left, Dir::Up, Dir::Right];
    for (step, d) in dirs.iter().enumerate() {
        a.change_dir(*d);
        b.change_dir(*d);
        let ca = a.tick_placing(step * 7 + 3);
        let cb = b.tick_placing(step * 7 + 3);
        assert_eq!(ca, cb);
        assert_eq!(a.head(), b.head());
        assert_eq!(a.snake_len(), b.snake_len());
        assert_eq!(a.apple(), b.apple());
        assert_eq!(a.is_dead(), b.is_dead());
        for i in 0..5 {
            for j in 0..5 {
                assert_eq!(a.get_cell(i, j), b.get_cell(i, j));
            }
        }
    }
}

#[test]
fn single_step_scenario_head_and_tail_swap() {
    let mut g = Grid::with_apple_at(5, 4, 4);
    assert_eq!(g.head(), (2, 0));
    let changed = g.tick();
    assert!(changed);
    assert_eq!(g.head(), (2, 1));
    assert_eq!(g.snake_len(), 1);
    assert_eq!(g.get_cell(2, 0), Cell::Empty);
    assert_eq!(g.get_cell(2, 1), Cell::Snake);
}

#[test]
fn single_cell_board_is_frozen_not_dead() {
    let mut g = Grid::with_size(1);
    assert_eq!(g.get_cell(0, 0), Cell::Snake);
    assert_eq!(g.apple(), None);
    assert!(!g.tick());
    assert!(!g.is_dead());
    assert_eq!(g.snake_len(), 1);
}

#[test]
fn construction_places_snake_and_random_apple() {
    for _ in 0..40 {
        let g = Grid::with_size(10);
        assert_eq!(g.size(), 10);
        assert_eq!(g.head(), (5, 0));
        assert_eq!(g.snake_len(), 1);
        assert!(!g.is_dead());
        assert_eq!(g.get_cell(5, 0), Cell::Snake);
        let p = g.apple().expect("a fresh multi-cell board holds an apple");
        assert_ne!(p, (5, 0));
        assert_eq!(g.get_cell(p.0, p.1), Cell::Apple);
        assert_eq!(count_cells(&g, Cell::Apple), 1);
        assert_eq!(count_cells(&g, Cell::Snake), 1);
    }
}

#[test]
fn tail_chase_through_wrap_survives() {
    // the snake fills row 1 of a 3-grid; moving right wraps onto the cell
    // its tail vacates this very tick, which is not a collision
    let mut g = Grid::with_apple_at(3, 1, 1);
    assert!(g.tick_placing(3));
    assert!(g.tick_placing(3));
    assert_eq!(g.snake_len(), 3);
    assert_eq!(g.head(), (1, 2));
    // head wraps to (1,0), vacated by the tail in the same step
    assert!(g.tick_placing(0));
    assert!(!g.is_dead());
    assert_eq!(g.head(), (1, 0));
    assert_eq!(g.snake_len(), 3);
}
