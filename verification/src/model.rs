//! The mathematical model of the engine: cell states, headings, the ghost
//! state of a game, and the specification of one simulation step.

use vstd::prelude::*;

verus! {

/// What one grid cell holds.
#[derive(Clone, Copy, PartialEq, Eq, Structural, Debug)]
pub enum Cell {
    Empty,
    Snake,
    Apple,
}

/// A heading: one of the four axis-aligned unit vectors.
#[derive(Clone, Copy, PartialEq, Eq, Structural, Debug)]
pub enum Dir {
    Up,
    Down,
    Left,
    Right,
}

/// The ghost state of a game: grid size, cell contents, the snake body
/// (head first), the heading, the apple position, and the liveness flag.
#[verifier::ext_equal]
pub ghost struct GridModel {
    pub sz: nat,
    pub cells: Seq<Seq<Cell>>,
    pub snake: Seq<(usize, usize)>,
    pub dir: Dir,
    pub apple: Option<(usize, usize)>,
    pub dead: bool,
}

/// Row displacement of a heading.
pub open spec fn row_delta(d: Dir) -> int {
    match d {
        Dir::Up => -1,
        Dir::Down => 1,
        Dir::Left => 0,
        Dir::Right => 0,
    }
}

/// Column displacement of a heading.
pub open spec fn col_delta(d: Dir) -> int {
    match d {
        Dir::Up => 0,
        Dir::Down => 0,
        Dir::Left => -1,
        Dir::Right => 1,
    }
}

/// The reverse of a heading.
pub open spec fn opposite(d: Dir) -> Dir {
    match d {
        Dir::Up => Dir::Down,
        Dir::Down => Dir::Up,
        Dir::Left => Dir::Right,
        Dir::Right => Dir::Left,
    }
}

/// One coordinate moved by `d` on a torus of size `sz`: off one edge means
/// back in from the opposite edge.
pub open spec fn wrap_add(x: int, d: int, sz: int) -> int {
    (x + d + sz) % sz
}

/// Whether a position lies on the grid.
pub open spec fn in_range(m: GridModel, p: (usize, usize)) -> bool {
    p.0 < m.sz && p.1 < m.sz
}

/// The cell the head moves into next.
pub open spec fn next_head(m: GridModel) -> (usize, usize) {
    (
        wrap_add(m.snake[0].0 as int, row_delta(m.dir), m.sz as int) as usize,
        wrap_add(m.snake[0].1 as int, col_delta(m.dir), m.sz as int) as usize,
    )
}

/// The grid with the cell at `p` replaced by `v`.
pub open spec fn grid_set(cells: Seq<Seq<Cell>>, p: (usize, usize), v: Cell) -> Seq<Seq<Cell>> {
    cells.update(p.0 as int, cells[p.0 as int].update(p.1 as int, v))
}

/// The cell of the grid at `p`.
pub open spec fn grid_at(cells: Seq<Seq<Cell>>, p: (usize, usize)) -> Cell {
    cells[p.0 as int][p.1 as int]
}

/// Every cell of the grid holds Snake: the snake fills the board.
pub open spec fn board_full(m: GridModel) -> bool {
    forall|r: int, c: int|
        0 <= r < m.sz && 0 <= c < m.sz ==> m.cells[r][c] == Cell::Snake
}

/// Structural well-formedness, without the full-board clause: the grid is
/// `sz` by `sz`, the snake is a non-empty sequence of distinct on-grid
/// positions, a cell holds Snake exactly when the snake occupies it, and a
/// cell holds Apple exactly when the apple field names it.
pub open spec fn wf_base(m: GridModel) -> bool {
    &&& m.sz >= 1
    &&& m.sz <= usize::MAX
    &&& m.cells.len() == m.sz
    &&& (forall|r: int| 0 <= r < m.sz ==> (#[trigger] m.cells[r]).len() == m.sz)
    &&& m.snake.len() >= 1
    &&& (forall|k: int| 0 <= k < m.snake.len() ==> in_range(m, #[trigger] m.snake[k]))
    &&& (forall|k1: int, k2: int|
        0 <= k1 < k2 < m.snake.len() ==> #[trigger] m.snake[k1] != #[trigger] m.snake[k2])
    &&& (forall|r: int, c: int|
        0 <= r < m.sz && 0 <= c < m.sz ==>
            ((#[trigger] m.cells[r][c]) == Cell::Snake <==> m.snake.contains((r as usize, c as usize))))
    &&& (forall|r: int, c: int|
        0 <= r < m.sz && 0 <= c < m.sz ==>
            ((#[trigger] m.cells[r][c]) == Cell::Apple <==> m.apple == Some((r as usize, c as usize))))
    &&& (m.apple matches Some(p) ==> in_range(m, p))
}

/// The invariant of a reachable game state: well-formed, and the apple is
/// missing only when the snake fills the board.
pub open spec fn wf(m: GridModel) -> bool {
    &&& wf_base(m)
    &&& (m.apple is None ==> board_full(m))
}

/// Whether a `tick` still does work: the snake is alive and an apple is on
/// the board (no apple means the board is full and the game is frozen).
pub open spec fn live(m: GridModel) -> bool {
    !m.dead && m.apple is Some
}

/// Whether the next step eats the apple.
pub open spec fn eats(m: GridModel) -> bool {
    m.apple == Some(next_head(m))
}

/// The deterministic part of a step for a live state: move the head one
/// cell along the heading. Eating the apple keeps the tail (the snake
/// grows) and leaves the apple unplaced; otherwise the tail is vacated
/// first, and running into a cell the body still occupies kills the snake.
pub open spec fn advance(m: GridModel) -> GridModel {
    let nh = next_head(m);
    if eats(m) {
        GridModel {
            snake: seq![nh] + m.snake,
            cells: grid_set(m.cells, nh, Cell::Snake),
            apple: None,
            ..m
        }
    } else {
        let t = m.snake.last();
        let c1 = grid_set(m.cells, t, Cell::Empty);
        let s1 = m.snake.drop_last();
        if grid_at(c1, nh) == Cell::Snake {
            GridModel { snake: s1, cells: c1, dead: true, ..m }
        } else {
            GridModel { snake: seq![nh] + s1, cells: grid_set(c1, nh, Cell::Snake), ..m }
        }
    }
}

/// The empty cells of row `r` among columns `0..n`, in column order.
pub open spec fn row_empties(row: Seq<Cell>, r: usize, n: int) -> Seq<(usize, usize)>
    decreases n,
{
    if n <= 0 {
        Seq::empty()
    } else {
        row_empties(row, r, n - 1)
            + if row[n - 1] == Cell::Empty {
                seq![(r, (n - 1) as usize)]
            } else {
                Seq::empty()
            }
    }
}

/// The empty cells of rows `0..n` of an `sz`-column grid, in row-major order.
pub open spec fn empties_upto(cells: Seq<Seq<Cell>>, sz: nat, n: int) -> Seq<(usize, usize)>
    decreases n,
{
    if n <= 0 {
        Seq::empty()
    } else {
        empties_upto(cells, sz, n - 1) + row_empties(cells[n - 1], (n - 1) as usize, sz as int)
    }
}

/// All empty cells of the grid, in row-major order.
pub open spec fn empties_of(m: GridModel) -> Seq<(usize, usize)> {
    empties_upto(m.cells, m.sz, m.sz as int)
}

/// The state after placing the apple on the `choice`-th empty cell, counting
/// in row-major order and modulo their number; unchanged when no cell is
/// empty.
pub open spec fn place_apple_spec(m: GridModel, choice: int) -> GridModel {
    let es = empties_of(m);
    if es.len() == 0 {
        m
    } else {
        let p = es[choice % es.len() as int];
        GridModel { apple: Some(p), cells: grid_set(m.cells, p, Cell::Apple), ..m }
    }
}

/// One full simulation step with an explicit placement choice: a dead or
/// frozen state is left untouched; otherwise the snake advances, and if it
/// ate the apple a new one is placed on the chosen empty cell.
pub open spec fn tick_spec(m: GridModel, choice: int) -> GridModel {
    if !live(m) {
        m
    } else {
        let a = advance(m);
        if eats(m) {
            place_apple_spec(a, choice)
        } else {
            a
        }
    }
}

/// Whether a step reports a visible change: exactly when the state was live.
pub open spec fn tick_changed(m: GridModel) -> bool {
    live(m)
}

/// The heading after a direction request: the exact reverse of the current
/// heading is ignored, anything else is taken.
pub open spec fn new_dir(cur: Dir, d: Dir) -> Dir {
    if d == opposite(cur) {
        cur
    } else {
        d
    }
}

/// A wrapped coordinate stays on the grid; it is the plain sum while that
/// sum is on the grid, and re-enters from the opposite edge when the sum
/// leaves it.
pub proof fn lemma_wrap_cases(x: int, d: int, sz: int)
    requires
        0 <= x < sz,
        -1 <= d <= 1,
    ensures
        0 <= wrap_add(x, d, sz) < sz,
        0 <= x + d < sz ==> wrap_add(x, d, sz) == x + d,
        x + d == sz ==> wrap_add(x, d, sz) == 0,
        x + d < 0 ==> wrap_add(x, d, sz) == sz - 1,
{
    if 0 <= x + d < sz {
        vstd::arithmetic::div_mod::lemma_mod_add_multiples_vanish(x + d, sz);
        vstd::arithmetic::div_mod::lemma_small_mod((x + d) as nat, sz as nat);
    } else if x + d == sz {
        vstd::arithmetic::div_mod::lemma_mod_add_multiples_vanish(sz, sz);
        vstd::arithmetic::div_mod::lemma_mod_self_0(sz);
    } else {
        vstd::arithmetic::div_mod::lemma_small_mod((sz - 1) as nat, sz as nat);
    }
}

/// Membership in a sequence extended at the front by one element.
pub proof fn lemma_cons_contains(s: Seq<(usize, usize)>, x: (usize, usize), p: (usize, usize))
    ensures
        (seq![x] + s).contains(p) <==> (p == x || s.contains(p)),
{
    let t = seq![x] + s;
    if t.contains(p) {
        let i = choose|i: int| 0 <= i < t.len() && t[i] == p;
        if i == 0 {
            assert(p == x);
        } else {
            assert(s[i - 1] == p);
        }
    }
    if p == x {
        assert(t[0] == p);
    }
    if s.contains(p) {
        let i = choose|i: int| 0 <= i < s.len() && s[i] == p;
        assert(t[i + 1] == p);
    }
}

/// Membership in a sequence shortened by its last element.
pub proof fn lemma_drop_last_contains(s: Seq<(usize, usize)>, p: (usize, usize))
    requires
        s.len() >= 1,
    ensures
        s.drop_last().contains(p) ==> s.contains(p),
        s.contains(p) && p != s.last() ==> s.drop_last().contains(p),
{
    let d = s.drop_last();
    if d.contains(p) {
        let i = choose|i: int| 0 <= i < d.len() && d[i] == p;
        assert(s[i] == p);
    }
    if s.contains(p) && p != s.last() {
        let i = choose|i: int| 0 <= i < s.len() && s[i] == p;
        assert(i < s.len() - 1);
        assert(d[i] == p);
    }
}

/// Every entry of `row_empties` lies in row `r` on an empty cell in a
/// column below `n`, and every empty cell of the row below column `n` is
/// listed.
pub proof fn lemma_row_empties(row: Seq<Cell>, r: usize, n: int)
    requires
        0 <= n <= usize::MAX,
    ensures
        forall|i: int|
            0 <= i < row_empties(row, r, n).len() ==> {
                let p = #[trigger] row_empties(row, r, n)[i];
                p.0 == r && p.1 < n && row[p.1 as int] == Cell::Empty
            },
        forall|c: int|
            0 <= c < n && row[c] == Cell::Empty ==> row_empties(row, r, n).contains(
                (r, c as usize),
            ),
    decreases n,
{
    if n > 0 {
        lemma_row_empties(row, r, n - 1);
        let pre = row_empties(row, r, n - 1);
        let whole = row_empties(row, r, n);
        assert forall|i: int|
            0 <= i < whole.len() implies {
            let p = #[trigger] whole[i];
            p.0 == r && p.1 < n && row[p.1 as int] == Cell::Empty
        } by {
            if i < pre.len() {
                assert(whole[i] == pre[i]);
            } else {
                assert(row[n - 1] == Cell::Empty);
                assert(whole[i] == (r, (n - 1) as usize));
            }
        }
        assert forall|c: int|
            0 <= c < n && row[c] == Cell::Empty implies whole.contains((r, c as usize)) by {
            if c < n - 1 {
                let i = choose|i: int| 0 <= i < pre.len() && pre[i] == (r, c as usize);
                assert(whole[i] == (r, c as usize));
            } else {
                assert(whole[pre.len() as int] == (r, (n - 1) as usize));
            }
        }
    }
}

/// Every entry of `empties_upto` is an empty cell in a row below `n` and a
/// column below `sz`, and every such empty cell is listed.
pub proof fn lemma_empties_upto(cells: Seq<Seq<Cell>>, sz: nat, n: int)
    requires
        0 <= n <= usize::MAX,
        sz <= usize::MAX,
    ensures
        forall|i: int|
            0 <= i < empties_upto(cells, sz, n).len() ==> {
                let p = #[trigger] empties_upto(cells, sz, n)[i];
                p.0 < n && p.1 < sz && cells[p.0 as int][p.1 as int] == Cell::Empty
            },
        forall|r: int, c: int|
            0 <= r < n && 0 <= c < sz && cells[r][c] == Cell::Empty ==> empties_upto(
                cells,
                sz,
                n,
            ).contains((r as usize, c as usize)),
    decreases n,
{
    if n > 0 {
        lemma_empties_upto(cells, sz, n - 1);
        lemma_row_empties(cells[n - 1], (n - 1) as usize, sz as int);
        let pre = empties_upto(cells, sz, n - 1);
        let rowpart = row_empties(cells[n - 1], (n - 1) as usize, sz as int);
        let whole = empties_upto(cells, sz, n);
        assert forall|i: int|
            0 <= i < whole.len() implies {
            let p = #[trigger] whole[i];
            p.0 < n && p.1 < sz && cells[p.0 as int][p.1 as int] == Cell::Empty
        } by {
            if i < pre.len() {
                assert(whole[i] == pre[i]);
            } else {
                assert(whole[i] == rowpart[i - pre.len()]);
            }
        }
        assert forall|r: int, c: int|
            0 <= r < n && 0 <= c < sz && cells[r][c] == Cell::Empty implies whole.contains(
            (r as usize, c as usize),
        ) by {
            if r < n - 1 {
                let i = choose|i: int|
                    0 <= i < pre.len() && pre[i] == (r as usize, c as usize);
                assert(whole[i] == (r as usize, c as usize));
            } else {
                let i = choose|i: int|
                    0 <= i < rowpart.len() && rowpart[i] == ((n - 1) as usize, c as usize);
                assert(whole[pre.len() + i] == (r as usize, c as usize));
            }
        }
    }
}

/// Advancing a live, well-formed state yields a well-formed state, except
/// that the apple of a state whose step eats it is left unplaced.
pub proof fn lemma_advance_wf(m: GridModel)
    requires
        wf(m),
        live(m),
    ensures
        advance(m).sz == m.sz,
        advance(m).dir == m.dir,
        advance(m).apple == if eats(m) {
            None::<(usize, usize)>
        } else {
            m.apple
        },
        wf_base(advance(m)),
        eats(m) ==> !advance(m).dead && advance(m).snake.len() == m.snake.len() + 1,
        !eats(m) ==> wf(advance(m)),
        !eats(m) && !advance(m).dead ==> advance(m).snake.len() == m.snake.len(),
        !eats(m) && advance(m).dead ==> advance(m).snake.len() == m.snake.len() - 1,
        !advance(m).dead ==> advance(m).snake[0] == next_head(m),
{
    let a = advance(m);
    let nh = next_head(m);
    let sz = m.sz as int;
    assert(in_range(m, m.snake[0]));
    assert(nh.0 < m.sz && nh.1 < m.sz);
    if eats(m) {
        assert(m.apple == Some(nh));
        assert(m.cells[nh.0 as int][nh.1 as int] == Cell::Apple);
        assert(!m.snake.contains(nh));
        assert(a.snake =~= seq![nh] + m.snake);
        assert forall|k: int| 0 <= k < a.snake.len() implies in_range(a, #[trigger] a.snake[k]) by {
            if k == 0 {
                assert(a.snake[k] == nh);
            } else {
                assert(a.snake[k] == m.snake[k - 1]);
                assert(in_range(m, m.snake[k - 1]));
            }
        }
        assert forall|k1: int, k2: int|
            0 <= k1 < k2 < a.snake.len() implies #[trigger] a.snake[k1] != #[trigger] a.snake[k2] by {
            assert(a.snake[k2] == m.snake[k2 - 1]);
            assert(m.snake.contains(m.snake[k2 - 1]));
            if k1 > 0 {
                assert(a.snake[k1] == m.snake[k1 - 1]);
            }
        }
        assert forall|r: int, c: int|
            0 <= r < m.sz && 0 <= c < m.sz implies ((#[trigger] a.cells[r][c]) == Cell::Snake
            <==> a.snake.contains((r as usize, c as usize))) by {
            lemma_cons_contains(m.snake, nh, (r as usize, c as usize));
            if r == nh.0 && c == nh.1 {
                assert(a.cells[r][c] == Cell::Snake);
                assert((r as usize, c as usize) == nh);
            } else {
                assert(a.cells[r][c] == m.cells[r][c]);
            }
        }
        assert forall|r: int, c: int|
            0 <= r < m.sz && 0 <= c < m.sz implies ((#[trigger] a.cells[r][c]) == Cell::Apple
            <==> a.apple == Some((r as usize, c as usize))) by {
            if r == nh.0 && c == nh.1 {
                assert(a.cells[r][c] == Cell::Snake);
            } else {
                assert(a.cells[r][c] == m.cells[r][c]);
                assert(m.cells[r][c] == Cell::Apple <==> m.apple == Some(
                    (r as usize, c as usize),
                ));
            }
        }
    } else {
        let t = m.snake.last();
        let c1 = grid_set(m.cells, t, Cell::Empty);
        let s1 = m.snake.drop_last();
        let last = m.snake.len() - 1;
        assert(t == m.snake[last]);
        assert(in_range(m, m.snake[last]));
        assert(m.cells[t.0 as int][t.1 as int] == Cell::Snake) by {
            assert(m.snake.contains(t));
        }
        assert(m.apple != Some(t));
        assert(!s1.contains(t)) by {
            if s1.contains(t) {
                let i = choose|i: int| 0 <= i < s1.len() && s1[i] == t;
                assert(m.snake[i] == t);
                assert(m.snake[i] != m.snake[last]);
            }
        }
        assert forall|k: int| 0 <= k < s1.len() implies in_range(a, #[trigger] s1[k]) by {
            assert(s1[k] == m.snake[k]);
            assert(in_range(m, m.snake[k]));
        }
        assert forall|k1: int, k2: int|
            0 <= k1 < k2 < s1.len() implies #[trigger] s1[k1] != #[trigger] s1[k2] by {
            assert(s1[k1] == m.snake[k1]);
            assert(s1[k2] == m.snake[k2]);
        }
        // membership in the shortened snake, for any position
        assert forall|p: (usize, usize)| #[trigger]
            s1.contains(p) <==> (m.snake.contains(p) && p != t) by {
            lemma_drop_last_contains(m.snake, p);
            if s1.contains(p) {
                assert(p != t);
            }
        }
        if grid_at(c1, nh) == Cell::Snake {
            assert(nh != t) by {
                assert(c1[t.0 as int][t.1 as int] == Cell::Empty);
            }
            assert(c1[nh.0 as int][nh.1 as int] == m.cells[nh.0 as int][nh.1 as int]);
            assert(m.snake.contains(nh));
            assert(s1.contains(nh));
            assert(s1.len() >= 1);
            assert forall|r: int, c: int|
                0 <= r < m.sz && 0 <= c < m.sz implies ((#[trigger] a.cells[r][c])
                == Cell::Snake <==> a.snake.contains((r as usize, c as usize))) by {
                if r == t.0 && c == t.1 {
                    assert(a.cells[r][c] == Cell::Empty);
                    assert(!s1.contains(t));
                } else {
                    assert(a.cells[r][c] == m.cells[r][c]);
                    assert((r as usize, c as usize) != t);
                }
            }
            assert forall|r: int, c: int|
                0 <= r < m.sz && 0 <= c < m.sz implies ((#[trigger] a.cells[r][c])
                == Cell::Apple <==> a.apple == Some((r as usize, c as usize))) by {
                if r == t.0 && c == t.1 {
                    assert(a.cells[r][c] == Cell::Empty);
                    assert(m.apple != Some((r as usize, c as usize)));
                } else {
                    assert(a.cells[r][c] == m.cells[r][c]);
                    assert(m.cells[r][c] == Cell::Apple <==> m.apple == Some(
                        (r as usize, c as usize),
                    ));
                }
            }
        } else {
            assert(!s1.contains(nh)) by {
                if nh == t {
                } else {
                    assert(c1[nh.0 as int][nh.1 as int] == m.cells[nh.0 as int][nh.1 as int]);
                    assert(!m.snake.contains(nh));
                }
            }
            assert(a.snake =~= seq![nh] + s1);
            assert forall|k: int| 0 <= k < a.snake.len() implies in_range(
                a,
                #[trigger] a.snake[k],
            ) by {
                if k == 0 {
                    assert(a.snake[k] == nh);
                } else {
                    assert(a.snake[k] == s1[k - 1]);
                    assert(in_range(a, s1[k - 1]));
                }
            }
            assert forall|k1: int, k2: int|
                0 <= k1 < k2 < a.snake.len() implies #[trigger] a.snake[k1]
                != #[trigger] a.snake[k2] by {
                assert(a.snake[k2] == s1[k2 - 1]);
                assert(s1.contains(s1[k2 - 1]));
                if k1 > 0 {
                    assert(a.snake[k1] == s1[k1 - 1]);
                }
            }
            assert forall|r: int, c: int|
                0 <= r < m.sz && 0 <= c < m.sz implies ((#[trigger] a.cells[r][c])
                == Cell::Snake <==> a.snake.contains((r as usize, c as usize))) by {
                lemma_cons_contains(s1, nh, (r as usize, c as usize));
                if r == nh.0 && c == nh.1 {
                    assert(a.cells[r][c] == Cell::Snake);
                    assert((r as usize, c as usize) == nh);
                } else if r == t.0 && c == t.1 {
                    assert(a.cells[r][c] == c1[r][c]);
                    assert(a.cells[r][c] == Cell::Empty);
                    assert(!s1.contains(t));
                } else {
                    assert(a.cells[r][c] == m.cells[r][c]);
                    assert((r as usize, c as usize) != t);
                }
            }
            assert forall|r: int, c: int|
                0 <= r < m.sz && 0 <= c < m.sz implies ((#[trigger] a.cells[r][c])
                == Cell::Apple <==> a.apple == Some((r as usize, c as usize))) by {
                if r == nh.0 && c == nh.1 {
                    assert(a.cells[r][c] == Cell::Snake);
                    assert(m.apple != Some(nh));
                } else if r == t.0 && c == t.1 {
                    assert(a.cells[r][c] == Cell::Empty);
                    assert(m.apple != Some((r as usize, c as usize)));
                } else {
                    assert(a.cells[r][c] == m.cells[r][c]);
                    assert(m.cells[r][c] == Cell::Apple <==> m.apple == Some(
                        (r as usize, c as usize),
                    ));
                }
            }
        }
    }
}

/// A well-formed apple-less state with no empty cell left is a full board,
/// hence well formed in the strong sense.
pub proof fn lemma_no_empties_full(m: GridModel)
    requires
        wf_base(m),
        m.apple is None,
        empties_of(m).len() == 0,
    ensures
        wf(m),
        board_full(m),
{
    lemma_empties_upto(m.cells, m.sz, m.sz as int);
    assert forall|r: int, c: int|
        0 <= r < m.sz && 0 <= c < m.sz implies m.cells[r][c] == Cell::Snake by {
        if m.cells[r][c] == Cell::Empty {
            assert(empties_of(m).contains((r as usize, c as usize)));
        }
        assert(m.cells[r][c] != Cell::Apple);
    }
}

/// Placing the apple on an empty cell of a well-formed apple-less state
/// yields a well-formed state.
pub proof fn lemma_place_wf(m: GridModel, p: (usize, usize))
    requires
        wf_base(m),
        m.apple is None,
        in_range(m, p),
        grid_at(m.cells, p) == Cell::Empty,
    ensures
        wf(GridModel { apple: Some(p), cells: grid_set(m.cells, p, Cell::Apple), ..m }),
        !m.snake.contains(p),
{
    let a = GridModel { apple: Some(p), cells: grid_set(m.cells, p, Cell::Apple), ..m };
    assert(!m.snake.contains(p));
    assert forall|r: int, c: int|
        0 <= r < a.sz && 0 <= c < a.sz implies ((#[trigger] a.cells[r][c]) == Cell::Snake
        <==> a.snake.contains((r as usize, c as usize))) by {
        assert(m.cells[r][c] == Cell::Snake <==> m.snake.contains((r as usize, c as usize)));
    }
    assert forall|r: int, c: int|
        0 <= r < a.sz && 0 <= c < a.sz implies ((#[trigger] a.cells[r][c]) == Cell::Apple
        <==> a.apple == Some((r as usize, c as usize))) by {
        if r == p.0 && c == p.1 {
            assert(a.cells[r][c] == Cell::Apple);
        } else {
            assert(a.cells[r][c] == m.cells[r][c]);
            assert(m.cells[r][c] != Cell::Apple);
            assert(p != (r as usize, c as usize));
        }
    }
}

} // verus!
