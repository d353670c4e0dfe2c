//! The executable engine: the grid that owns the snake body, the heading,
//! the apple, and the liveness flag, advanced one step per tick.

use std::collections::VecDeque;
use crate::rng::rand_below;
use vstd::prelude::*;

use crate::model::{
    advance, board_full, eats, grid_at, grid_set, in_range, lemma_advance_wf, lemma_empties_upto,
    lemma_no_empties_full, lemma_place_wf, lemma_wrap_cases, live, new_dir, next_head,
    row_empties, empties_upto, empties_of, tick_changed, tick_spec, wf, wf_base, col_delta, row_delta, Cell,
    Dir, GridModel,
};

verus! {

/// The snake-game engine on an `sz` by `sz` torus grid. The snake body is
/// kept head first; the apple field caches the one apple cell, or `None`
/// once the snake fills the board.
pub struct Grid {
    sz: usize,
    grid: Vec<Vec<Cell>>,
    dead: bool,
    pos: VecDeque<(usize, usize)>,
    dir: Dir,
    apple: Option<(usize, usize)>,
}

impl View for Grid {
    type V = GridModel;

    closed spec fn view(&self) -> GridModel {
        GridModel {
            sz: self.sz as nat,
            cells: self.grid@.map_values(|row: Vec<Cell>| row@),
            snake: self.pos@,
            dir: self.dir,
            apple: self.apple,
            dead: self.dead,
        }
    }
}

impl Grid {
    /// The invariant that every engine value handed out by this library
    /// satisfies.
    pub open spec fn inv(&self) -> bool {
        wf(self@)
    }

    /// Overwrite one cell of the grid.
    fn set_cell(&mut self, r: usize, c: usize, v: Cell)
        requires
            r < old(self)@.cells.len(),
            c < old(self)@.cells[r as int].len(),
        ensures
            (final(self)@ =~= GridModel {
                cells: grid_set(old(self)@.cells, (r, c), v),
                ..old(self)@
            }),
    {
        self.grid[r][c] = v;
    }

    /// A fresh board: all cells empty but a snake of length one at
    /// `(sz / 2, 0)`, heading rightward, with no apple placed yet.
    fn new_base(sz: usize) -> (g: Grid)
        requires
            1 <= sz,
        ensures
            wf_base(g@),
            g@.sz == sz,
            g@.dead == false,
            g@.dir == Dir::Right,
            g@.snake.len() == 1,
            g@.snake[0].0 == sz as int / 2,
            g@.snake[0].1 == 0,
            g@.apple is None,
    {
        let hr = sz / 2;
        let mut grid: Vec<Vec<Cell>> = Vec::new();
        let mut r: usize = 0;
        while r < sz
            invariant
                r <= sz,
                hr == sz as int / 2,
                1 <= sz,
                grid@.len() == r,
                forall|i: int| 0 <= i < r ==> (#[trigger] grid@[i])@.len() == sz,
                forall|i: int, j: int|
                    0 <= i < r && 0 <= j < sz ==> ((#[trigger] grid@[i]@[j]) == (
                    if i == hr && j == 0 {
                        Cell::Snake
                    } else {
                        Cell::Empty
                    })),
            decreases sz - r,
        {
            let mut row: Vec<Cell> = Vec::new();
            let mut c: usize = 0;
            while c < sz
                invariant
                    c <= sz,
                    hr == sz as int / 2,
                    row@.len() == c,
                    forall|j: int|
                        0 <= j < c ==> ((#[trigger] row@[j]) == (
                        if r == hr && j == 0 {
                            Cell::Snake
                        } else {
                            Cell::Empty
                        })),
                decreases sz - c,
            {
                if r == hr && c == 0 {
                    row.push(Cell::Snake);
                } else {
                    row.push(Cell::Empty);
                }
                c = c + 1;
            }
            grid.push(row);
            r = r + 1;
        }
        let mut pos: VecDeque<(usize, usize)> = VecDeque::new();
        pos.push_front((hr, 0));
        let g = Grid { sz, grid, dead: false, pos, dir: Dir::Right, apple: None };
        proof {
            let m = g@;
            assert(m.snake =~= seq![(hr, 0usize)]);
            assert(hr < sz);
            assert forall|r2: int, c2: int|
                0 <= r2 < m.sz && 0 <= c2 < m.sz implies ((#[trigger] m.cells[r2][c2])
                == Cell::Snake <==> m.snake.contains((r2 as usize, c2 as usize))) by {
                assert(m.cells[r2] == grid@[r2]@);
                if r2 == hr && c2 == 0 {
                    assert(m.snake[0] == (r2 as usize, c2 as usize));
                } else {
                    assert(m.cells[r2][c2] == Cell::Empty);
                    if m.snake.contains((r2 as usize, c2 as usize)) {
                        let i = choose|i: int|
                            0 <= i < m.snake.len() && m.snake[i] == (r2 as usize, c2 as usize);
                        assert(i == 0);
                    }
                }
            }
            assert forall|r2: int, c2: int|
                0 <= r2 < m.sz && 0 <= c2 < m.sz implies ((#[trigger] m.cells[r2][c2])
                != Cell::Apple) by {
                assert(m.cells[r2] == grid@[r2]@);
            }
        }
        g
    }

    /// The grid size the engine was built with.
    pub fn size(&self) -> (r: usize)
        ensures
            r == self@.sz,
    {
        self.sz
    }

    /// Whether the snake has collided with itself; terminal once true.
    pub fn is_dead(&self) -> (r: bool)
        ensures
            r == self@.dead,
    {
        self.dead
    }

    /// The current length of the snake.
    pub fn snake_len(&self) -> (r: usize)
        ensures
            r == self@.snake.len(),
    {
        self.pos.len()
    }

    /// The current head position.
    pub fn head(&self) -> (r: (usize, usize))
        requires
            self.inv(),
        ensures
            r == self@.snake[0],
    {
        self.pos[0]
    }

    /// The apple position, or `None` once the snake fills the board.
    pub fn apple(&self) -> (r: Option<(usize, usize)>)
        ensures
            r == self@.apple,
    {
        self.apple
    }

    /// The empty cells of the grid, in row-major order.
    fn empty_cells(&self) -> (es: Vec<(usize, usize)>)
        requires
            self@.cells.len() == self@.sz,
            forall|r: int| 0 <= r < self@.sz ==> (#[trigger] self@.cells[r]).len() == self@.sz,
        ensures
            es@ == empties_of(self@),
    {
        let sz = self.sz;
        let mut es: Vec<(usize, usize)> = Vec::new();
        let mut r: usize = 0;
        while r < sz
            invariant
                r <= sz,
                sz == self@.sz,
                self@.cells.len() == self@.sz,
                forall|i: int| 0 <= i < self@.sz ==> (#[trigger] self@.cells[i]).len() == self@.sz,
                es@ == empties_upto(self@.cells, self@.sz, r as int),
            decreases sz - r,
        {
            let mut c: usize = 0;
            while c < sz
                invariant
                    c <= sz,
                    r < sz,
                    sz == self@.sz,
                    self@.cells.len() == self@.sz,
                    forall|i: int|
                        0 <= i < self@.sz ==> (#[trigger] self@.cells[i]).len() == self@.sz,
                    (es@ == empties_upto(self@.cells, self@.sz, r as int) + row_empties(
                        self@.cells[r as int],
                        r,
                        c as int,
                    )),
                decreases sz - c,
            {
                let ghost prev = es@;
                if self.grid[r][c] == Cell::Empty {
                    es.push((r, c));
                }
                proof {
                    let row = self@.cells[r as int];
                    if row[c as int] == Cell::Empty {
                        assert(row_empties(row, r, c as int + 1) =~= row_empties(row, r, c as int)
                            + seq![(r, c)]);
                        assert(es@ =~= prev + seq![(r, c)]);
                    } else {
                        assert(row_empties(row, r, c as int + 1) =~= row_empties(row, r, c as int));
                    }
                    assert(es@ =~= empties_upto(self@.cells, self@.sz, r as int) + row_empties(
                        row,
                        r,
                        c as int + 1,
                    ));
                }
                c = c + 1;
            }
            proof {
                assert(es@ =~= empties_upto(self@.cells, self@.sz, r as int + 1));
            }
            r = r + 1;
        }
        es
    }

    /// Place the apple on an empty cell of an apple-less board.
    fn put_apple(&mut self, p: (usize, usize))
        requires
            wf_base(old(self)@),
            old(self)@.apple is None,
            in_range(old(self)@, p),
            grid_at(old(self)@.cells, p) == Cell::Empty,
        ensures
            final(self).inv(),
            (final(self)@ =~= GridModel {
                apple: Some(p),
                cells: grid_set(old(self)@.cells, p, Cell::Apple),
                ..old(self)@
            }),
    {
        self.set_cell(p.0, p.1, Cell::Apple);
        self.apple = Some(p);
        proof {
            lemma_place_wf(old(self)@, p);
        }
    }

    /// Move the snake one step along the heading: the deterministic part
    /// of a tick. Eating the apple keeps the tail and leaves the apple
    /// unplaced; otherwise the tail is vacated first, and a candidate cell
    /// the body still occupies kills the snake.
    fn step_move(&mut self) -> (ate: bool)
        requires
            old(self).inv(),
            live(old(self)@),
        ensures
            (final(self)@ =~= advance(old(self)@)),
            ate == eats(old(self)@),
    {
        proof {
            lemma_advance_wf(old(self)@);
            assert(in_range(old(self)@, old(self)@.snake[0]));
        }
        let sz = self.sz;
        let h: (usize, usize) = self.pos[0];
        let hr = h.0;
        let hc = h.1;
        let nr = match self.dir {
            Dir::Up => if hr == 0 {
                sz - 1
            } else {
                hr - 1
            },
            Dir::Down => if hr + 1 == sz {
                0
            } else {
                hr + 1
            },
            Dir::Left => hr,
            Dir::Right => hr,
        };
        let nc = match self.dir {
            Dir::Up => hc,
            Dir::Down => hc,
            Dir::Left => if hc == 0 {
                sz - 1
            } else {
                hc - 1
            },
            Dir::Right => if hc + 1 == sz {
                0
            } else {
                hc + 1
            },
        };
        proof {
            lemma_wrap_cases(hr as int, row_delta(self@.dir), sz as int);
            lemma_wrap_cases(hc as int, col_delta(self@.dir), sz as int);
            assert(nr == next_head(old(self)@).0);
            assert(nc == next_head(old(self)@).1);
        }
        let ate = match self.apple {
            Some(p) => p.0 == nr && p.1 == nc,
            None => false,
        };
        if ate {
            self.pos.push_front((nr, nc));
            self.set_cell(nr, nc, Cell::Snake);
            self.apple = None;
        } else {
            let t = match self.pos.pop_back() {
                Some(t) => t,
                None => (0, 0),
            };
            self.set_cell(t.0, t.1, Cell::Empty);
            if self.grid[nr][nc] == Cell::Snake {
                self.dead = true;
            } else {
                self.pos.push_front((nr, nc));
                self.set_cell(nr, nc, Cell::Snake);
            }
        }
        ate
    }

    /// A fresh game: a snake of length one at `(sz / 2, 0)` heading
    /// rightward, and one apple placed at random among the empty cells
    /// (none on a single-cell board, which the snake already fills).
    pub fn with_size(sz: usize) -> (g: Grid)
        requires
            1 <= sz,
        ensures
            g.inv(),
            g@.sz == sz,
            g@.dead == false,
            g@.dir == Dir::Right,
            g@.snake.len() == 1,
            g@.snake[0].0 == sz as int / 2,
            g@.snake[0].1 == 0,
            sz > 1 ==> (g@.apple matches Some(p) && p != g@.snake[0] && in_range(g@, p)),
            sz == 1 ==> g@.apple is None,
    {
        let mut g = Grid::new_base(sz);
        let es = g.empty_cells();
        if es.len() > 0 {
            let k = rand_below(es.len());
            let p = es[k];
            proof {
                lemma_empties_upto(g@.cells, g@.sz, g@.sz as int);
                assert(es@[k as int] == empties_of(g@)[k as int]);
            }
            g.put_apple(p);
        } else {
            proof {
                lemma_no_empties_full(g@);
                assert(g@.cells[0][0] == Cell::Snake);
                assert(g@.snake.contains((0usize, 0usize)) ==> g@.snake[0] == (0usize, 0usize));
                assert(sz == 1);
            }
        }
        g
    }

    /// A fresh game with the apple on a chosen cell away from the snake:
    /// the deterministic constructor for a caller that makes its own
    /// placement choices.
    pub fn with_apple_at(sz: usize, ar: usize, ac: usize) -> (g: Grid)
        requires
            1 <= sz,
            ar < sz,
            ac < sz,
            !(ar == sz as int / 2 && ac == 0),
        ensures
            g.inv(),
            g@.sz == sz,
            g@.dead == false,
            g@.dir == Dir::Right,
            g@.snake.len() == 1,
            g@.snake[0].0 == sz as int / 2,
            g@.snake[0].1 == 0,
            g@.apple == Some((ar, ac)),
    {
        let mut g = Grid::new_base(sz);
        proof {
            assert(g@.cells[ar as int][ac as int] == Cell::Snake ==> g@.snake.contains(
                (ar, ac),
            ));
            assert(g@.snake.contains((ar, ac)) ==> g@.snake[0] == (ar, ac));
            assert(grid_at(g@.cells, (ar, ac)) != Cell::Apple);
        }
        g.put_apple((ar, ac));
        g
    }

    /// Advance the simulation one step, placing any new apple at random
    /// among the cells left empty. Reports whether visible state changed:
    /// exactly when the engine was neither dead nor frozen on a full
    /// board.
    pub fn tick(&mut self) -> (changed: bool)
        requires
            old(self).inv(),
        ensures
            final(self).inv(),
            changed == tick_changed(old(self)@),
            !live(old(self)@) ==> final(self)@ == old(self)@,
            (live(old(self)@) && !eats(old(self)@)) ==> final(self)@ == advance(old(self)@),
            (live(old(self)@) && eats(old(self)@)) ==> ({
                let a = advance(old(self)@);
                match final(self)@.apple {
                    Some(p) => {
                        &&& in_range(a, p)
                        &&& grid_at(a.cells, p) == Cell::Empty
                        &&& (final(self)@ =~= GridModel {
                            apple: Some(p),
                            cells: grid_set(a.cells, p, Cell::Apple),
                            ..a
                        })
                    },
                    None => final(self)@ == a && board_full(final(self)@),
                }
            }),
    {
        if self.dead {
            return false;
        }
        let frozen = match self.apple {
            Some(_) => false,
            None => true,
        };
        if frozen {
            return false;
        }
        let ate = self.step_move();
        proof {
            lemma_advance_wf(old(self)@);
        }
        if ate {
            let es = self.empty_cells();
            if es.len() > 0 {
                let k = rand_below(es.len());
                let p = es[k];
                proof {
                    lemma_empties_upto(self@.cells, self@.sz, self@.sz as int);
                    assert(es@[k as int] == empties_of(self@)[k as int]);
                }
                self.put_apple(p);
            } else {
                proof {
                    lemma_no_empties_full(self@);
                }
            }
        }
        true
    }

    /// Advance the simulation one step with an explicit placement choice:
    /// any new apple goes to the `choice`-th empty cell in row-major
    /// order, counting modulo their number. The whole step is a function
    /// of the prior state and `choice`.
    pub fn tick_placing(&mut self, choice: usize) -> (changed: bool)
        requires
            old(self).inv(),
        ensures
            final(self).inv(),
            changed == tick_changed(old(self)@),
            final(self)@ == tick_spec(old(self)@, choice as int),
    {
        if self.dead {
            return false;
        }
        let frozen = match self.apple {
            Some(_) => false,
            None => true,
        };
        if frozen {
            return false;
        }
        let ate = self.step_move();
        proof {
            lemma_advance_wf(old(self)@);
        }
        if ate {
            let es = self.empty_cells();
            if es.len() > 0 {
                let k = choice % es.len();
                let p = es[k];
                proof {
                    lemma_empties_upto(self@.cells, self@.sz, self@.sz as int);
                    assert(es@[k as int] == empties_of(self@)[k as int]);
                }
                self.put_apple(p);
            } else {
                proof {
                    lemma_no_empties_full(self@);
                }
            }
        }
        true
    }

    /// Queue a heading change for the next tick. A request for the exact
    /// reverse of the current heading is silently ignored; any other
    /// request, the current heading included, is taken.
    pub fn change_dir(&mut self, d: Dir)
        requires
            old(self).inv(),
        ensures
            final(self).inv(),
            (final(self)@ =~= GridModel { dir: new_dir(old(self)@.dir, d), ..old(self)@ }),
    {
        let rev = match (self.dir, d) {
            (Dir::Up, Dir::Down) => true,
            (Dir::Down, Dir::Up) => true,
            (Dir::Left, Dir::Right) => true,
            (Dir::Right, Dir::Left) => true,
            _ => false,
        };
        if !rev {
            self.dir = d;
        }
    }

    /// The cell at a validated in-range coordinate: a pure read.
    pub fn get_cell(&self, i: usize, j: usize) -> (r: Cell)
        requires
            self.inv(),
            i < self@.sz,
            j < self@.sz,
        ensures
            r == self@.cells[i as int][j as int],
    {
        self.grid[i][j]
    }
}

} // verus!
