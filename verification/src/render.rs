//! Deterministic text rendering of wall state: three text lines per row of
//! cells, three characters per cell and line, `#` for blocking walls and
//! corners, `.` for opened walls and revealed centers.

use vstd::prelude::*;
use vstd::string::StringExecFns;

use crate::coords::Coords;
use crate::grid::{lemma_idx_in_range, Cell, Grid, Wall};

verus! {

/// The character one wall renders as: `.` when passable, `#` otherwise
/// (`Void` renders like `Filled`).
pub open spec fn wall_char(w: Wall) -> char {
    match w {
        Wall::Empty => '.',
        Wall::Void => '#',
        Wall::Filled => '#',
    }
}

/// The center character of a cell: `.` once revealed, `#` before.
pub open spec fn center_char(c: Cell) -> char {
    if c.revealed {
        '.'
    } else {
        '#'
    }
}

/// Text line `k` (0 = top, 1 = middle, 2 = bottom) of a cell's three-line,
/// three-column rendering. The outer characters of the top and bottom lines
/// are fixed corner fillers, not wall state.
pub open spec fn cell_line(c: Cell, k: int) -> Seq<char> {
    if k == 1 {
        seq![wall_char(c.walls[3]), center_char(c), wall_char(c.walls[1])]
    } else {
        seq!['#', wall_char(c.walls[if k == 0 { 0int } else { 2int }]), '#']
    }
}

/// A cell rendered on its own: its three lines, each ended by a newline.
pub open spec fn cell_text(c: Cell) -> Seq<char> {
    cell_line(c, 0) + seq!['\n'] + cell_line(c, 1) + seq!['\n'] + cell_line(c, 2) + seq!['\n']
}

/// Text line `k` of row `row`, restricted to the first `n` cells of the row.
pub open spec fn row_line_prefix(s: Seq<Cell>, w: int, row: int, k: int, n: int) -> Seq<char>
    decreases n,
{
    if n <= 0 {
        Seq::<char>::empty()
    } else {
        row_line_prefix(s, w, row, k, n - 1) + cell_line(s[row * w + (n - 1)], k)
    }
}

/// A full text line of a row of cells, ended by a newline.
pub open spec fn row_line(s: Seq<Cell>, w: int, row: int, k: int) -> Seq<char> {
    row_line_prefix(s, w, row, k, w) + seq!['\n']
}

/// The first `k` text lines of a row of cells.
pub open spec fn row_text_prefix(s: Seq<Cell>, w: int, row: int, k: int) -> Seq<char>
    decreases k,
{
    if k <= 0 {
        Seq::<char>::empty()
    } else {
        row_text_prefix(s, w, row, k - 1) + row_line(s, w, row, k - 1)
    }
}

/// The first `m` rows of cells, each rendered as three text lines.
pub open spec fn rows_text(s: Seq<Cell>, w: int, m: int) -> Seq<char>
    decreases m,
{
    if m <= 0 {
        Seq::<char>::empty()
    } else {
        rows_text(s, w, m - 1) + row_text_prefix(s, w, m - 1, 3)
    }
}

/// The whole grid's rendering.
pub open spec fn grid_text(g: Grid) -> Seq<char> {
    rows_text(g.cells@, g.width as int, g.height as int)
}

impl Cell {
    /// The one-character rendering of the wall on side `wall_at`.
    fn render_wall(&self, wall_at: usize) -> (r: String)
        requires
            wall_at < 4,
        ensures
            r@ == seq![wall_char(self.walls[wall_at as int])],
    {
        proof {
            reveal_strlit(".");
            reveal_strlit("#");
        }
        let r = match self.walls[wall_at] {
            Wall::Empty => String::from_str("."),
            Wall::Filled => String::from_str("#"),
            Wall::Void => String::from_str("#"),
        };
        proof {
            assert(r@ =~= seq![wall_char(self.walls[wall_at as int])]);
        }
        r
    }

    /// The one-character rendering of the cell's center.
    fn render_center(&self) -> (r: String)
        ensures
            r@ == seq![center_char(*self)],
    {
        proof {
            reveal_strlit(".");
            reveal_strlit("#");
        }
        let r = match self.revealed {
            true => String::from_str("."),
            false => String::from_str("#"),
        };
        proof {
            assert(r@ =~= seq![center_char(*self)]);
        }
        r
    }

    /// One of the cell's three text lines.
    fn wall_str(&self, wall_at: usize) -> (r: String)
        requires
            wall_at < 3,
        ensures
            r@ == cell_line(*self, wall_at as int),
    {
        proof {
            reveal_strlit("#");
        }
        let mut s = String::new();
        match wall_at {
            1 => {
                let left = self.render_wall(3);
                s.append(left.as_str());
                let center = self.render_center();
                s.append(center.as_str());
                let right = self.render_wall(1);
                s.append(right.as_str());
            },
            _ => {
                s.append("#");
                let wall = self.render_wall(wall_at);
                s.append(wall.as_str());
                s.append("#");
            },
        }
        proof {
            assert(s@ =~= cell_line(*self, wall_at as int));
        }
        s
    }

    /// The cell rendered on its own: three lines of three characters, each
    /// ended by a newline.
    pub fn render(&self) -> (r: String)
        ensures
            r@ == cell_text(*self),
    {
        proof {
            reveal_strlit("\n");
        }
        let mut s = self.wall_str(0);
        s.append("\n");
        let mid = self.wall_str(1);
        s.append(mid.as_str());
        s.append("\n");
        let bottom = self.wall_str(2);
        s.append(bottom.as_str());
        s.append("\n");
        proof {
            assert(s@ =~= cell_text(*self));
        }
        s
    }
}

impl Grid {
    /// The grid rendered as text: for each row of cells its three text lines,
    /// each the concatenation of the row's cells' corresponding line, ended
    /// by a newline.
    pub fn render(&self) -> (r: String)
        requires
            self.wf(),
        ensures
            r@ == grid_text(*self),
    {
        proof {
            reveal_strlit("\n");
        }
        let ghost cs = self.cells@;
        let ghost w = self.width as int;
        let mut s = String::new();
        let mut row: isize = 0;
        while row < self.height
            invariant
                self.wf(),
                cs == self.cells@,
                w == self.width as int,
                0 <= row <= self.height,
                s@ == rows_text(cs, w, row as int),
            decreases self.height - row,
        {
            let mut k: usize = 0;
            while k < 3
                invariant
                    self.wf(),
                    cs == self.cells@,
                    w == self.width as int,
                    0 <= row < self.height,
                    k <= 3,
                    s@ == rows_text(cs, w, row as int) + row_text_prefix(cs, w, row as int, k as int),
                decreases 3 - k,
            {
                let mut x: isize = 0;
                while x < self.width
                    invariant
                        self.wf(),
                        cs == self.cells@,
                        w == self.width as int,
                        0 <= row < self.height,
                        k < 3,
                        0 <= x <= self.width,
                        s@ == rows_text(cs, w, row as int) + row_text_prefix(cs, w, row as int, k as int)
                            + row_line_prefix(cs, w, row as int, k as int, x as int),
                    decreases self.width - x,
                {
                    let c = Coords::from(x, row);
                    proof {
                        lemma_idx_in_range(*self, c);
                    }
                    let idx = c.to_index(self.width);
                    let cell = &self.cells[idx];
                    let piece = cell.wall_str(k);
                    s.append(piece.as_str());
                    proof {
                        assert(s@ =~= rows_text(cs, w, row as int) + row_text_prefix(
                            cs,
                            w,
                            row as int,
                            k as int,
                        ) + row_line_prefix(cs, w, row as int, k as int, x as int + 1));
                    }
                    x = x + 1;
                }
                s.append("\n");
                proof {
                    reveal_strlit("\n");
                    assert(s@ =~= rows_text(cs, w, row as int) + row_text_prefix(
                        cs,
                        w,
                        row as int,
                        k as int + 1,
                    ));
                }
                k = k + 1;
            }
            proof {
                assert(s@ =~= rows_text(cs, w, row as int + 1));
            }
            row = row + 1;
        }
        s
    }
}

} // verus!
