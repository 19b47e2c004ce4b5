//! The grid of cells: per-side wall state, visitation, and the wall-opening
//! mutation that keeps facing walls of neighboring cells in agreement.

use vstd::prelude::*;
use vstd::arithmetic::div_mod::lemma_fundamental_div_mod_converse;

use crate::coords::{
    adjacent, all_nbrs, dir_to, lemma_all_nbrs_sound, lemma_step_adjacent, opposite, step, Coords,
};

verus! {

/// The state of one side of a cell. `Void` is reserved for absent sides and
/// renders like `Filled`.
#[derive(Clone, Copy)]
pub enum Wall {
    Empty,
    Void,
    Filled,
}

/// One grid position's state: four walls indexed by direction
/// (0 = top, 1 = right, 2 = bottom, 3 = left) and whether the cell has been
/// incorporated into the maze (revealed).
pub struct Cell {
    pub coords: Coords,
    pub walls: [Wall; 4],
    pub revealed: bool,
}

/// A cell as `Grid::new` makes it for position `at`: all four walls
/// `Filled`, not yet revealed.
pub open spec fn cell_fresh(c: Cell, at: Coords) -> bool {
    &&& c.coords == at
    &&& !c.revealed
    &&& forall|d: int| 0 <= d < 4 ==> c.walls[d] is Filled
}

impl Cell {
    /// A fresh cell: all four walls `Filled`, not yet revealed.
    pub fn init(x: isize, y: isize) -> (c: Cell)
        ensures
            cell_fresh(c, Coords { x, y }),
    {
        Cell {
            coords: Coords::from(x, y),
            revealed: false,
            walls: [Wall::Filled, Wall::Filled, Wall::Filled, Wall::Filled],
        }
    }

    /// Set the wall on side `wall_at` to `Empty`. Opening a wall toward a
    /// neighbor must go through `Grid::open_wall_at`, which opens both sides.
    pub fn open(&mut self, wall_at: usize)
        requires
            wall_at < 4,
        ensures
            final(self).walls@ == old(self).walls@.update(wall_at as int, Wall::Empty),
            final(self).revealed == old(self).revealed,
            final(self).coords == old(self).coords,
    {
        self.walls[wall_at] = Wall::Empty;
    }

    /// Mark the cell as incorporated into the maze.
    pub fn mark_revealed(&mut self)
        ensures
            final(self).revealed,
            final(self).walls == old(self).walls,
            final(self).coords == old(self).coords,
    {
        self.revealed = true;
    }
}

/// A rectangular maze: `width * height` cells in row-major order.
pub struct Grid {
    pub cells: Vec<Cell>,
    pub width: isize,
    pub height: isize,
}

impl Grid {
    /// Well-formedness: positive dimensions, one cell per position, and each
    /// cell stores the coordinate it sits at.
    pub open spec fn wf(self) -> bool {
        &&& 0 < self.width
        &&& 0 < self.height
        &&& self.width * self.height <= isize::MAX
        &&& self.cells@.len() == self.width * self.height
        &&& forall|c: Coords| self.in_bounds(c) ==> (#[trigger] self.cell(c)).coords == c
    }

    pub open spec fn in_bounds(self, c: Coords) -> bool {
        0 <= c.x < self.width && 0 <= c.y < self.height
    }

    /// The flat row-major index of an in-bounds coordinate.
    pub open spec fn idx(self, c: Coords) -> int {
        c.y * self.width + c.x
    }

    /// The cell at an in-bounds coordinate.
    pub open spec fn cell(self, c: Coords) -> Cell {
        self.cells@[self.idx(c)]
    }

    /// There is a cell on the other side of wall `d` of `c`.
    pub open spec fn has_neighbor(self, c: Coords, d: int) -> bool {
        0 <= d < 4 && self.in_bounds(c) && self.in_bounds(step(c, d))
    }

    /// A grid of `width * height` fresh cells in row-major order.
    pub fn new(width: isize, height: isize) -> (g: Grid)
        requires
            0 < width,
            0 < height,
            width * height <= isize::MAX,
        ensures
            g.wf(),
            g.width == width,
            g.height == height,
            forall|c: Coords| g.in_bounds(c) ==> cell_fresh(#[trigger] g.cell(c), c),
    {
        let mut cells: Vec<Cell> = Vec::new();
        let mut y: isize = 0;
        while y < height
            invariant
                0 < width,
                0 < height,
                width * height <= isize::MAX,
                0 <= y <= height,
                cells@.len() == y * width,
                forall|i: int|
                    0 <= i < cells@.len() ==> cell_fresh(
                        #[trigger] cells@[i],
                        Coords { x: (i % (width as int)) as isize, y: (i / (width as int)) as isize },
                    ),
            decreases height - y,
        {
            let mut x: isize = 0;
            while x < width
                invariant
                    0 < width,
                    0 < height,
                    width * height <= isize::MAX,
                    0 <= y < height,
                    0 <= x <= width,
                    cells@.len() == y * width + x,
                    forall|i: int|
                        0 <= i < cells@.len() ==> cell_fresh(
                            #[trigger] cells@[i],
                            Coords {
                                x: (i % (width as int)) as isize,
                                y: (i / (width as int)) as isize,
                            },
                        ),
                decreases width - x,
            {
                cells.push(Cell::init(x, y));
                proof {
                    lemma_fundamental_div_mod_converse(
                        y * width + x,
                        width as int,
                        y as int,
                        x as int,
                    );
                }
                x = x + 1;
            }
            proof {
                assert(y * width + width == (y + 1) * width) by (nonlinear_arith);
            }
            y = y + 1;
        }
        let g = Grid { cells, width, height };
        proof {
            assert(height * width == width * height) by (nonlinear_arith);
            assert forall|c: Coords| g.in_bounds(c) implies cell_fresh(
                #[trigger] g.cell(c),
                c,
            ) by {
                assert(0 <= c.y * width + c.x < width * height) by (nonlinear_arith)
                    requires 0 <= c.x < width && 0 <= c.y < height;
                lemma_fundamental_div_mod_converse(
                    c.y * width + c.x,
                    width as int,
                    c.y as int,
                    c.x as int,
                );
            }
        }
        g
    }

    /// The grid-adjacent coordinates of `coords` whose cells are not yet
    /// revealed: `None` when there is no such neighbor (the backtrack-or-stop
    /// signal of the generation loop), otherwise the non-empty collection.
    pub fn get_unvisited_neighbors_at(&self, coords: &Coords) -> (r: Option<Vec<Coords>>)
        requires
            self.wf(),
            self.in_bounds(*coords),
        ensures
            match r {
                Some(v) => v@ == unvisited_nbrs(*self, *coords) && v@.len() > 0,
                None => unvisited_nbrs(*self, *coords).len() == 0,
            },
    {
        let nbor_coords = coords.get_all_neighbors(self);
        let ghost all = nbor_coords@;
        proof {
            lemma_all_nbrs_sound(*coords, self.width as int, self.height as int);
        }
        let mut unvisited_nbors: Vec<Coords> = Vec::new();
        let mut i: usize = 0;
        while i < nbor_coords.len()
            invariant
                self.wf(),
                self.in_bounds(*coords),
                i <= nbor_coords@.len(),
                nbor_coords@ == all,
                all == all_nbrs(*coords, self.width as int, self.height as int),
                forall|j: int|
                    0 <= j < all.len() ==> self.in_bounds(#[trigger] all[j]),
                unvisited_nbors@ == unvisited_filter(*self, all.take(i as int)),
            decreases nbor_coords@.len() - i,
        {
            let nbor_coord = nbor_coords[i];
            proof {
                lemma_idx_in_range(*self, nbor_coord);
            }
            match self.get_at(&nbor_coord) {
                Some(nbor) => {
                    if !nbor.revealed {
                        unvisited_nbors.push(nbor_coord);
                    }
                },
                None => {},
            }
            proof {
                assert(all.take(i + 1).drop_last() =~= all.take(i as int));
                assert(all.take(i + 1).last() == all[i as int]);
                assert(unvisited_nbors@ =~= unvisited_filter(*self, all.take(i + 1)));
            }
            i = i + 1;
        }
        proof {
            assert(all.take(all.len() as int) =~= all);
        }
        if unvisited_nbors.len() < 1 {
            return None;
        }
        Some(unvisited_nbors)
    }

    /// Open the wall `wall_number` of the cell at `coords_a` and the facing
    /// wall of the neighbor across it, revealing both cells. This is the only
    /// wall mutation, and it keeps the two facing walls in agreement.
    pub fn open_wall_at(&mut self, coords_a: &Coords, wall_number: usize)
        requires
            old(self).wf(),
            old(self).in_bounds(*coords_a),
            wall_number < 4,
            old(self).has_neighbor(*coords_a, wall_number as int),
        ensures
            final(self).wf(),
            final(self).width == old(self).width,
            final(self).height == old(self).height,
            final(self).cells@.len() == old(self).cells@.len(),
            ({
                let a = *coords_a;
                let d = wall_number as int;
                let b = step(a, d);
                let ia = old(self).idx(a);
                let ib = old(self).idx(b);
                &&& forall|i: int|
                    0 <= i < old(self).cells@.len() && i != ia && i != ib
                        ==> final(self).cells@[i] == old(self).cells@[i]
                &&& final(self).cell(a).coords == old(self).cell(a).coords
                &&& final(self).cell(a).revealed
                &&& final(self).cell(a).walls@ == old(self).cell(a).walls@.update(d, Wall::Empty)
                &&& final(self).cell(b).coords == old(self).cell(b).coords
                &&& final(self).cell(b).revealed
                &&& final(self).cell(b).walls@ == old(self).cell(b).walls@.update(
                    opposite(d),
                    Wall::Empty,
                )
            }),
    {
        let ghost a = *coords_a;
        let ghost d = wall_number as int;
        let ghost b_spec = step(a, d);
        proof {
            lemma_idx_in_range(*old(self), a);
            lemma_idx_in_range(*old(self), b_spec);
            lemma_idx_injective(*old(self), a, b_spec);
            lemma_step_adjacent(a, d);
        }
        let coords_b_opt = coords_a.get_wall_neighbor_coords(wall_number, self);
        match coords_b_opt {
            Some(coords_b) => {
                let (wall_num_a, wall_num_b) = get_wall_numbers(coords_a, &coords_b);
                let idx_a = coords_a.to_index(self.width);
                let cell_a = &mut self.cells[idx_a];
                cell_a.mark_revealed();
                cell_a.open(wall_num_a);
                let idx_b = coords_b.to_index(self.width);
                let cell_b = &mut self.cells[idx_b];
                cell_b.mark_revealed();
                cell_b.open(wall_num_b);
                proof {
                    assert forall|c: Coords| self.in_bounds(c) implies (
                    #[trigger] self.cell(c)).coords == c by {
                        lemma_idx_in_range(*old(self), c);
                        if c != a {
                            lemma_idx_injective(*old(self), c, a);
                        }
                        if c != b_spec {
                            lemma_idx_injective(*old(self), c, b_spec);
                        }
                        assert(old(self).cell(c).coords == c);
                    }
                }
            },
            None => {
                proof {
                    assert(false);
                }
            },
        }
    }

    /// Bounds-checked lookup by flat index: `None` when the index falls
    /// outside the backing vector.
    pub fn get_at(&self, coords: &Coords) -> (r: Option<&Cell>)
        requires
            self.wf(),
            0 <= coords.x,
            0 <= coords.y,
            coords.y * self.width + coords.x <= isize::MAX,
        ensures
            match r {
                Some(cell) => 0 <= self.idx(*coords) < self.cells@.len() && *cell
                    == self.cells@[self.idx(*coords)],
                None => self.idx(*coords) >= self.cells@.len(),
            },
            self.in_bounds(*coords) ==> r is Some,
    {
        proof {
            if self.in_bounds(*coords) {
                lemma_idx_in_range(*self, *coords);
            }
            assert(0 <= coords.y * self.width) by (nonlinear_arith)
                requires 0 <= coords.y && 0 < self.width;
        }
        let idx = coords.to_index(self.width);
        if idx < self.cells.len() {
            Some(&self.cells[idx])
        } else {
            None
        }
    }

    /// Lookup for mutation. The coordinate must be in bounds: a contract
    /// cannot follow a mutable reference through an `Option`, so unlike
    /// `get_at` this does not hand back an absence value.
    pub fn get_at_mut(&mut self, coords: &Coords) -> (cell: &mut Cell)
        requires
            old(self).wf(),
            old(self).in_bounds(*coords),
        ensures
            *cell == old(self).cells@[old(self).idx(*coords)],
            final(self).cells@ == old(self).cells@.update(old(self).idx(*coords), *final(cell)),
            final(self).width == old(self).width,
            final(self).height == old(self).height,
    {
        proof {
            lemma_idx_in_range(*self, *coords);
        }
        let idx = coords.to_index(self.width);
        &mut self.cells[idx]
    }

    /// Mark the cell at `at` revealed; everything else is unchanged.
    pub fn reveal_at(&mut self, at: &Coords)
        requires
            old(self).wf(),
            old(self).in_bounds(*at),
        ensures
            final(self).wf(),
            final(self).width == old(self).width,
            final(self).height == old(self).height,
            final(self).cells@ == old(self).cells@.update(
                old(self).idx(*at),
                Cell { revealed: true, ..old(self).cell(*at) },
            ),
    {
        proof {
            lemma_idx_in_range(*old(self), *at);
        }
        let idx = at.to_index(self.width);
        let cell = &mut self.cells[idx];
        cell.mark_revealed();
        proof {
            assert(self.cells@ == old(self).cells@.update(
                old(self).idx(*at),
                Cell { revealed: true, ..old(self).cell(*at) },
            ));
            assert forall|c: Coords| self.in_bounds(c) implies (#[trigger] self.cell(c)).coords
                == c by {
                lemma_idx_in_range(*old(self), c);
                if c != *at {
                    lemma_idx_injective(*old(self), c, *at);
                }
                assert(old(self).cell(c).coords == c);
            }
        }
    }
}

/// The subsequence of `s` whose cells exist in `g` and are not yet revealed.
pub open spec fn unvisited_filter(g: Grid, s: Seq<Coords>) -> Seq<Coords>
    decreases s.len(),
{
    if s.len() == 0 {
        Seq::<Coords>::empty()
    } else {
        unvisited_filter(g, s.drop_last()) + (if g.in_bounds(s.last()) && !g.cell(
            s.last(),
        ).revealed {
            seq![s.last()]
        } else {
            Seq::<Coords>::empty()
        })
    }
}

/// The unvisited grid-adjacent coordinates of `c`, in the order of
/// `get_all_neighbors`.
pub open spec fn unvisited_nbrs(g: Grid, c: Coords) -> Seq<Coords> {
    unvisited_filter(g, all_nbrs(c, g.width as int, g.height as int))
}

/// Facing walls of neighboring cells agree: the wall of a cell toward a
/// neighbor is open exactly when the neighbor's wall back is.
pub open spec fn walls_agree(g: Grid) -> bool {
    forall|c: Coords, d: int|
        #[trigger] g.has_neighbor(c, d) ==> (g.cell(c).walls[d] is Empty <==> g.cell(
            step(c, d),
        ).walls[opposite(d)] is Empty)
}

/// A cell that was never revealed still has all its walls closed.
pub open spec fn unrevealed_sealed(g: Grid) -> bool {
    forall|c: Coords, d: int|
        g.in_bounds(c) && 0 <= d < 4 && !g.cell(c).revealed ==> !((
        #[trigger] g.cell(c).walls[d]) is Empty)
}

/// Every neighbor of `c` that exists in the grid is revealed.
pub open spec fn nbrs_revealed(g: Grid, c: Coords) -> bool {
    forall|d: int| #[trigger] g.has_neighbor(c, d) ==> g.cell(step(c, d)).revealed
}

/// Going from `g1` to `g2`, no cell loses its revealed mark.
pub open spec fn revealed_monotone(g1: Grid, g2: Grid) -> bool {
    forall|c: Coords|
        g1.in_bounds(c) && (#[trigger] g1.cell(c)).revealed ==> g2.cell(c).revealed
}

/// Everything the filter keeps comes from `s`, lies in the grid, and is
/// unrevealed.
pub proof fn lemma_unvisited_filter_sound(g: Grid, s: Seq<Coords>)
    ensures
        forall|i: int|
            0 <= i < unvisited_filter(g, s).len() ==> {
                let n = #[trigger] unvisited_filter(g, s)[i];
                s.contains(n) && g.in_bounds(n) && !g.cell(n).revealed
            },
    decreases s.len(),
{
    if s.len() > 0 {
        lemma_unvisited_filter_sound(g, s.drop_last());
        assert forall|i: int| 0 <= i < unvisited_filter(g, s).len() implies {
            let n = #[trigger] unvisited_filter(g, s)[i];
            s.contains(n) && g.in_bounds(n) && !g.cell(n).revealed
        } by {
            let n = unvisited_filter(g, s)[i];
            if i < unvisited_filter(g, s.drop_last()).len() {
                let j = choose|j: int|
                    0 <= j < s.drop_last().len() && s.drop_last()[j] == n;
                assert(s[j] == n);
            } else {
                assert(s[s.len() - 1] == n);
            }
        }
    }
}

/// When the filter keeps nothing, every in-grid coordinate of `s` is
/// revealed.
pub proof fn lemma_unvisited_filter_empty(g: Grid, s: Seq<Coords>)
    requires
        unvisited_filter(g, s).len() == 0,
    ensures
        forall|j: int|
            0 <= j < s.len() && g.in_bounds(#[trigger] s[j]) ==> g.cell(s[j]).revealed,
    decreases s.len(),
{
    if s.len() > 0 {
        lemma_unvisited_filter_empty(g, s.drop_last());
        assert forall|j: int|
            0 <= j < s.len() && g.in_bounds(#[trigger] s[j]) implies g.cell(s[j]).revealed by {
            if j < s.len() - 1 {
                assert(s.drop_last()[j] == s[j]);
            }
        }
    }
}

/// The pair of wall indices to open between two adjacent coordinates: the
/// direction from `a` toward `b`, and the opposite one, from `b` toward `a`.
fn get_wall_numbers(a: &Coords, b: &Coords) -> (r: (usize, usize))
    requires
        adjacent(*a, *b),
    ensures
        r.0 == dir_to(*a, *b),
        r.1 == dir_to(*b, *a),
        r.1 == opposite(r.0 as int),
        r.0 < 4,
        r.1 < 4,
{
    let dx = a.x - b.x;
    let dy = a.y - b.y;
    if dy == 1 {
        (0, 2)
    } else if dy == -1 {
        (2, 0)
    } else if dx == 1 {
        (3, 1)
    } else {
        (1, 3)
    }
}

/// An in-bounds coordinate's flat index lies inside the cell vector.
pub proof fn lemma_idx_in_range(g: Grid, c: Coords)
    requires
        g.wf(),
        g.in_bounds(c),
    ensures
        0 <= g.idx(c) < g.cells@.len(),
{
    assert(0 <= c.y * g.width + c.x < g.width * g.height) by (nonlinear_arith)
        requires
            0 <= c.x < g.width,
            0 <= c.y < g.height;
}

/// Distinct in-bounds coordinates have distinct flat indices.
pub proof fn lemma_idx_injective(g: Grid, a: Coords, b: Coords)
    requires
        g.wf(),
        g.in_bounds(a),
        g.in_bounds(b),
        a != b,
    ensures
        g.idx(a) != g.idx(b),
{
    assert(a.y * g.width + a.x != b.y * g.width + b.x) by (nonlinear_arith)
        requires
            0 <= a.x < g.width,
            0 <= b.x < g.width,
            0 <= a.y,
            0 <= b.y,
            !(a.x == b.x && a.y == b.y);
}

} // verus!
