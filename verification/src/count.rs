//! Counting over the cells of a grid: how many cells are revealed and how
//! many wall openings connect adjacent cells. Each opened connection is
//! counted once, at its left or upper cell.

use vstd::prelude::*;
use vstd::arithmetic::div_mod::lemma_fundamental_div_mod_converse;

use crate::coords::{opposite, step, Coords};
use crate::grid::{
    lemma_idx_in_range, lemma_idx_injective, unrevealed_sealed, walls_agree, Cell, Grid, Wall,
};

verus! {

/// The sum of `f` over the first `n` cells of row `y` of a row-major cell
/// sequence of width `w`.
pub open spec fn row_sum(s: Seq<Cell>, w: int, y: int, n: int, f: spec_fn(Cell, int, int) -> int) -> int
    decreases n,
{
    if n <= 0 {
        0
    } else {
        row_sum(s, w, y, n - 1, f) + f(s[y * w + (n - 1)], n - 1, y)
    }
}

/// The sum of `f` over the first `m` full rows.
pub open spec fn grid_sum_upto(
    s: Seq<Cell>,
    w: int,
    m: int,
    f: spec_fn(Cell, int, int) -> int,
) -> int
    decreases m,
{
    if m <= 0 {
        0
    } else {
        grid_sum_upto(s, w, m - 1, f) + row_sum(s, w, m - 1, w, f)
    }
}

/// Weight 1 for a revealed cell, 0 otherwise.
pub open spec fn reveal_weight() -> spec_fn(Cell, int, int) -> int {
    |c: Cell, x: int, y: int| if c.revealed {
        1int
    } else {
        0int
    }
}

/// The number of opened connections a cell contributes: its right wall when a
/// right neighbor exists, and its bottom wall when a lower neighbor exists.
pub open spec fn edge_weight(w: int, h: int) -> spec_fn(Cell, int, int) -> int {
    |c: Cell, x: int, y: int|
        (if c.walls[1] is Empty && x + 1 < w {
            1int
        } else {
            0int
        }) + (if c.walls[2] is Empty && y + 1 < h {
            1int
        } else {
            0int
        })
}

/// How many cells of the grid are revealed.
pub open spec fn revealed_count(g: Grid) -> int {
    grid_sum_upto(g.cells@, g.width as int, g.height as int, reveal_weight())
}

/// How many opened connections the grid holds, each counted once at its left
/// or upper end.
pub open spec fn edge_count(g: Grid) -> int {
    grid_sum_upto(
        g.cells@,
        g.width as int,
        g.height as int,
        edge_weight(g.width as int, g.height as int),
    )
}

proof fn lemma_row_sum_update(
    s: Seq<Cell>,
    w: int,
    y: int,
    n: int,
    f: spec_fn(Cell, int, int) -> int,
    i0: int,
    c: Cell,
)
    requires
        0 < w,
        0 <= y,
        0 <= n <= w,
        y * w + n <= s.len(),
        0 <= i0 < s.len(),
    ensures
        row_sum(s.update(i0, c), w, y, n, f) == row_sum(s, w, y, n, f) + (if y * w <= i0 < y * w
            + n {
            f(c, i0 - y * w, y) - f(s[i0], i0 - y * w, y)
        } else {
            0
        }),
    decreases n,
{
    if n > 0 {
        lemma_row_sum_update(s, w, y, n - 1, f, i0, c);
    }
}

proof fn lemma_grid_sum_update(
    s: Seq<Cell>,
    w: int,
    m: int,
    f: spec_fn(Cell, int, int) -> int,
    i0: int,
    c: Cell,
)
    requires
        0 < w,
        0 <= m,
        m * w <= s.len(),
        0 <= i0 < s.len(),
    ensures
        grid_sum_upto(s.update(i0, c), w, m, f) == grid_sum_upto(s, w, m, f) + (if i0 < m * w {
            f(c, i0 % w, i0 / w) - f(s[i0], i0 % w, i0 / w)
        } else {
            0
        }),
    decreases m,
{
    if m > 0 {
        assert((m - 1) * w == m * w - w) by (nonlinear_arith);
        lemma_grid_sum_update(s, w, m - 1, f, i0, c);
        lemma_row_sum_update(s, w, m - 1, w, f, i0, c);
        if (m - 1) * w <= i0 < m * w {
            lemma_fundamental_div_mod_converse(i0, w, m - 1, i0 - (m - 1) * w);
        }
        assert(grid_sum_upto(s.update(i0, c), w, m, f) == grid_sum_upto(s.update(i0, c), w, m - 1, f)
            + row_sum(s.update(i0, c), w, m - 1, w, f));
    } else {
        assert(m * w == 0) by (nonlinear_arith)
            requires m == 0;
    }
}

proof fn lemma_row_sum_bounds(
    g: Grid,
    y: int,
    n: int,
    f: spec_fn(Cell, int, int) -> int,
    lo: int,
    hi: int,
)
    requires
        g.wf(),
        0 <= y < g.height,
        0 <= n <= g.width,
        forall|c: Coords|
            g.in_bounds(c) ==> lo <= f(#[trigger] g.cell(c), c.x as int, c.y as int) && f(
                g.cell(c),
                c.x as int,
                c.y as int,
            ) <= hi,
    ensures
        n * lo <= row_sum(g.cells@, g.width as int, y, n, f) <= n * hi,
    decreases n,
{
    if n > 0 {
        lemma_row_sum_bounds(g, y, n - 1, f, lo, hi);
        let c = Coords { x: (n - 1) as isize, y: y as isize };
        assert(g.in_bounds(c));
        assert(g.cell(c) == g.cells@[y * (g.width as int) + (n - 1)]);
        assert(lo <= f(g.cell(c), n - 1, y) <= hi);
        assert((n - 1) * lo + lo == n * lo) by (nonlinear_arith);
        assert((n - 1) * hi + hi == n * hi) by (nonlinear_arith);
    }
}

proof fn lemma_grid_sum_bounds(
    g: Grid,
    m: int,
    f: spec_fn(Cell, int, int) -> int,
    lo: int,
    hi: int,
)
    requires
        g.wf(),
        0 <= m <= g.height,
        forall|c: Coords|
            g.in_bounds(c) ==> lo <= f(#[trigger] g.cell(c), c.x as int, c.y as int) && f(
                g.cell(c),
                c.x as int,
                c.y as int,
            ) <= hi,
    ensures
        (m * g.width) * lo <= grid_sum_upto(g.cells@, g.width as int, m, f) <= (m * g.width) * hi,
    decreases m,
{
    if m > 0 {
        lemma_grid_sum_bounds(g, m - 1, f, lo, hi);
        lemma_row_sum_bounds(g, m - 1, g.width as int, f, lo, hi);
        assert(((m - 1) * g.width) * lo + g.width * lo == (m * g.width) * lo) by (nonlinear_arith);
        assert(((m - 1) * g.width) * hi + g.width * hi == (m * g.width) * hi) by (nonlinear_arith);
    } else {
        assert((m * g.width) * lo == 0) by (nonlinear_arith)
            requires m == 0;
        assert((m * g.width) * hi == 0) by (nonlinear_arith)
            requires m == 0;
    }
}

/// Revealing one cell raises the revealed-cell count by one when the cell
/// was unrevealed, and opens no connection.
pub proof fn lemma_reveal_at_count(g1: Grid, g2: Grid, a: Coords)
    requires
        g1.wf(),
        g2.width == g1.width,
        g2.height == g1.height,
        g1.in_bounds(a),
        g2.cells@ == g1.cells@.update(g1.idx(a), Cell { revealed: true, ..g1.cell(a) }),
    ensures
        revealed_count(g2) == revealed_count(g1) + (if g1.cell(a).revealed {
            0int
        } else {
            1int
        }),
        edge_count(g2) == edge_count(g1),
{
    let w = g1.width as int;
    let h = g1.height as int;
    let ia = g1.idx(a);
    let c2 = Cell { revealed: true, ..g1.cell(a) };
    lemma_idx_in_range(g1, a);
    assert(h * w == g1.cells@.len() && h * w == w * h) by (nonlinear_arith)
        requires g1.cells@.len() == w * h;
    lemma_fundamental_div_mod_converse(ia, w, a.y as int, a.x as int);
    lemma_grid_sum_update(g1.cells@, w, h, reveal_weight(), ia, c2);
    lemma_grid_sum_update(g1.cells@, w, h, edge_weight(w, h), ia, c2);
}

/// Opening the wall between a revealed cell and an unrevealed neighbor
/// reveals exactly one more cell and opens exactly one more connection.
#[verifier::rlimit(60)]
pub proof fn lemma_open_wall_count_delta(g1: Grid, g2: Grid, a: Coords, d: int)
    requires
        g1.wf(),
        g2.wf(),
        g2.width == g1.width,
        g2.height == g1.height,
        g2.cells@.len() == g1.cells@.len(),
        g1.has_neighbor(a, d),
        forall|i: int|
            0 <= i < g1.cells@.len() && i != g1.idx(a) && i != g1.idx(step(a, d))
                ==> g2.cells@[i] == g1.cells@[i],
        g2.cell(a).revealed,
        g2.cell(a).walls@ == g1.cell(a).walls@.update(d, Wall::Empty),
        g2.cell(step(a, d)).revealed,
        g2.cell(step(a, d)).walls@ == g1.cell(step(a, d)).walls@.update(opposite(d), Wall::Empty),
        g1.cell(a).revealed,
        !g1.cell(step(a, d)).revealed,
        walls_agree(g1),
        unrevealed_sealed(g1),
    ensures
        revealed_count(g2) == revealed_count(g1) + 1,
        edge_count(g2) == edge_count(g1) + 1,
{
    let b = step(a, d);
    let w = g1.width as int;
    let h = g1.height as int;
    let ia = g1.idx(a);
    let ib = g1.idx(b);
    lemma_idx_in_range(g1, a);
    lemma_idx_in_range(g1, b);
    assert(a != b);
    lemma_idx_injective(g1, a, b);
    let s1 = g1.cells@;
    let ca2 = g2.cell(a);
    let cb2 = g2.cell(b);
    let mid = s1.update(ia, ca2);
    assert(g2.cells@ =~= mid.update(ib, cb2));
    assert(h * w == s1.len() && h * w == w * h) by (nonlinear_arith)
        requires s1.len() == w * h;
    lemma_fundamental_div_mod_converse(ia, w, a.y as int, a.x as int);
    lemma_fundamental_div_mod_converse(ib, w, b.y as int, b.x as int);
    // The wall being opened was not open before: the unrevealed side is
    // sealed, and facing walls agreed.
    assert(!(g1.cell(b).walls[opposite(d)] is Empty));
    assert(!(g1.cell(a).walls[d] is Empty));
    // Revealed cells: `a` stays revealed, `b` turns revealed.
    lemma_grid_sum_update(s1, w, h, reveal_weight(), ia, ca2);
    lemma_grid_sum_update(mid, w, h, reveal_weight(), ib, cb2);
    assert(revealed_count(g2) == revealed_count(g1) + 1);
    // Connections: exactly the opened wall is newly counted, at its left or
    // upper cell.
    let f = edge_weight(w, h);
    lemma_grid_sum_update(s1, w, h, f, ia, ca2);
    lemma_grid_sum_update(mid, w, h, f, ib, cb2);
    if d == 1 {
        assert(f(ca2, a.x as int, a.y as int) - f(g1.cell(a), a.x as int, a.y as int) == 1);
        assert(f(cb2, b.x as int, b.y as int) - f(g1.cell(b), b.x as int, b.y as int) == 0);
    } else if d == 2 {
        assert(f(ca2, a.x as int, a.y as int) - f(g1.cell(a), a.x as int, a.y as int) == 1);
        assert(f(cb2, b.x as int, b.y as int) - f(g1.cell(b), b.x as int, b.y as int) == 0);
    } else if d == 0 {
        assert(f(ca2, a.x as int, a.y as int) - f(g1.cell(a), a.x as int, a.y as int) == 0);
        assert(f(cb2, b.x as int, b.y as int) - f(g1.cell(b), b.x as int, b.y as int) == 1);
    } else {
        assert(f(ca2, a.x as int, a.y as int) - f(g1.cell(a), a.x as int, a.y as int) == 0);
        assert(f(cb2, b.x as int, b.y as int) - f(g1.cell(b), b.x as int, b.y as int) == 1);
    }
    assert(edge_count(g2) == edge_count(g1) + 1);
}

/// The revealed-cell count lies between 0 and the number of cells.
pub proof fn lemma_revealed_count_bounds(g: Grid)
    requires
        g.wf(),
    ensures
        0 <= revealed_count(g) <= g.width * g.height,
{
    lemma_grid_sum_bounds(g, g.height as int, reveal_weight(), 0, 1);
    assert(((g.height as int) * g.width) * 1 == g.width * g.height) by (nonlinear_arith);
    assert(((g.height as int) * g.width) * 0 == 0) by (nonlinear_arith);
}

/// When every cell is revealed, the revealed-cell count is the number of
/// cells.
pub proof fn lemma_revealed_count_full(g: Grid)
    requires
        g.wf(),
        forall|c: Coords| g.in_bounds(c) ==> (#[trigger] g.cell(c)).revealed,
    ensures
        revealed_count(g) == g.width * g.height,
{
    lemma_grid_sum_bounds(g, g.height as int, reveal_weight(), 1, 1);
    assert(((g.height as int) * g.width) * 1 == g.width * g.height) by (nonlinear_arith);
}

/// On a grid of fresh cells, nothing is revealed and nothing is connected.
pub proof fn lemma_counts_fresh(g: Grid)
    requires
        g.wf(),
        forall|c: Coords|
            g.in_bounds(c) ==> crate::grid::cell_fresh(#[trigger] g.cell(c), c),
    ensures
        revealed_count(g) == 0,
        edge_count(g) == 0,
{
    lemma_grid_sum_bounds(g, g.height as int, reveal_weight(), 0, 0);
    lemma_grid_sum_bounds(
        g,
        g.height as int,
        edge_weight(g.width as int, g.height as int),
        0,
        0,
    );
    assert(((g.height as int) * g.width) * 0 == 0) by (nonlinear_arith);
}

} // verus!
