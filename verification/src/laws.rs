//! Laws of the engine, stated and proved once over the model: invariant
//! preservation, torus wrap-around, growth on eating, terminal states,
//! the reversal rule, and determinism given the placement choice.

use vstd::prelude::*;

use crate::model::{
    advance, board_full, eats, empties_of, grid_at, in_range, lemma_advance_wf,
    lemma_empties_upto, lemma_no_empties_full, lemma_place_wf, lemma_wrap_cases, live, new_dir,
    next_head, opposite, tick_changed, tick_spec, wf, col_delta, row_delta, Cell, Dir, GridModel,
};

verus! {

/// Law: every step preserves the state invariant — the grid stays square,
/// the Snake-marked cells are exactly the snake's distinct positions, and
/// exactly one cell holds the apple unless the snake fills the board.
pub proof fn lemma_tick_preserves_wf(m: GridModel, choice: int)
    requires
        wf(m),
    ensures
        wf(tick_spec(m, choice)),
{
    if live(m) {
        lemma_advance_wf(m);
        if eats(m) {
            let a = advance(m);
            let es = empties_of(a);
            lemma_empties_upto(a.cells, a.sz, a.sz as int);
            if es.len() == 0 {
                lemma_no_empties_full(a);
            } else {
                lemma_place_wf(a, es[choice % es.len() as int]);
            }
        }
    }
}

/// Law: torus topology. From any well-formed state the next head lies on
/// the grid, and a head moving off an edge re-enters from the opposite
/// edge of its row or column.
pub proof fn lemma_wrap_around(m: GridModel)
    requires
        wf(m),
    ensures
        in_range(m, next_head(m)),
        m.dir == Dir::Right && m.snake[0].1 == m.sz - 1 ==> next_head(m) == (m.snake[0].0, 0usize),
        m.dir == Dir::Left && m.snake[0].1 == 0 ==> next_head(m) == (
            m.snake[0].0,
            (m.sz - 1) as usize,
        ),
        m.dir == Dir::Down && m.snake[0].0 == m.sz - 1 ==> next_head(m) == (0usize, m.snake[0].1),
        m.dir == Dir::Up && m.snake[0].0 == 0 ==> next_head(m) == (
            (m.sz - 1) as usize,
            m.snake[0].1,
        ),
{
    assert(in_range(m, m.snake[0]));
    lemma_wrap_cases(m.snake[0].0 as int, row_delta(m.dir), m.sz as int);
    lemma_wrap_cases(m.snake[0].1 as int, col_delta(m.dir), m.sz as int);
}

/// Law: growth. A step that eats the apple lengthens the snake by exactly
/// one, puts the new head in front, and relocates the apple to a cell
/// that was empty after the move — never the eaten cell, never a snake
/// cell — unless no cell is left, in which case the board is full.
pub proof fn lemma_growth(m: GridModel, choice: int)
    requires
        wf(m),
        live(m),
        eats(m),
    ensures
        tick_spec(m, choice).snake.len() == m.snake.len() + 1,
        tick_spec(m, choice).snake[0] == next_head(m),
        (tick_spec(m, choice).apple matches Some(p) ==> p != next_head(m) && !tick_spec(
            m,
            choice,
        ).snake.contains(p) && grid_at(tick_spec(m, choice).cells, p) == Cell::Apple),
        tick_spec(m, choice).apple is None ==> board_full(tick_spec(m, choice)),
{
    lemma_advance_wf(m);
    let a = advance(m);
    let es = empties_of(a);
    lemma_empties_upto(a.cells, a.sz, a.sz as int);
    if es.len() == 0 {
        lemma_no_empties_full(a);
    } else {
        let p = es[choice % es.len() as int];
        lemma_place_wf(a, p);
        assert(grid_at(a.cells, next_head(m)) == Cell::Snake) by {
            assert(a.snake[0] == next_head(m));
            assert(a.snake.contains(next_head(m)));
        }
        assert(grid_at(a.cells, p) == Cell::Empty);
    }
}

/// Law: death is terminal. A step from a dead state changes nothing and
/// reports no change; no transition leaves the dead state.
pub proof fn lemma_dead_terminal(m: GridModel, choice: int)
    requires
        m.dead,
    ensures
        tick_spec(m, choice) == m,
        !tick_changed(m),
{
}

/// Law: a full board is frozen. Once no apple can be placed, a step
/// changes nothing and reports no change.
pub proof fn lemma_full_board_frozen(m: GridModel, choice: int)
    requires
        m.apple is None,
    ensures
        tick_spec(m, choice) == m,
        !tick_changed(m),
{
}

/// Law: the reversal rule. A request for the exact reverse of the current
/// heading leaves the heading unchanged; any other request replaces it.
pub proof fn lemma_reversal_rule(cur: Dir, d: Dir)
    ensures
        d == opposite(cur) ==> new_dir(cur, d) == cur,
        d != opposite(cur) ==> new_dir(cur, d) == d,
{
}

/// Law: determinism modulo randomness. The step is a function of the
/// prior state and the placement choice alone: equal states driven by
/// equal choices remain equal.
pub proof fn lemma_step_deterministic(m1: GridModel, m2: GridModel, c1: int, c2: int)
    requires
        m1 == m2,
        c1 == c2,
    ensures
        tick_spec(m1, c1) == tick_spec(m2, c2),
{
}

} // verus!
