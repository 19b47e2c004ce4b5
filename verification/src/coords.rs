//! Coordinates into a rectangular grid, and the neighbor geometry of the
//! four-direction enumeration (0 = top, 1 = right, 2 = bottom, 3 = left).

use vstd::prelude::*;

verus! {

/// A position in a grid's rectangular index space. A `Coords` carries no
/// bounds of its own: validity is always judged against a grid's width and
/// height at the point of use.
#[derive(Debug, Clone, Copy, PartialEq, Eq, Structural)]
pub struct Coords {
    pub x: isize,
    pub y: isize,
}

/// Two coordinates are adjacent when they are exactly one unit apart along
/// exactly one axis.
pub open spec fn adjacent(a: Coords, b: Coords) -> bool {
    ||| (a.y == b.y && a.x - b.x == 1)
    ||| (a.y == b.y && b.x - a.x == 1)
    ||| (a.x == b.x && a.y - b.y == 1)
    ||| (a.x == b.x && b.y - a.y == 1)
}

/// The direction (0 = top, 1 = right, 2 = bottom, 3 = left) from `a` toward
/// an adjacent coordinate `b`.
pub open spec fn dir_to(a: Coords, b: Coords) -> int {
    if a.y == b.y && a.x - b.x == 1 {
        3
    } else if a.y == b.y && b.x - a.x == 1 {
        1
    } else if a.x == b.x && a.y - b.y == 1 {
        0
    } else {
        2
    }
}

/// The direction opposite to `d`: top/bottom and right/left swap.
pub open spec fn opposite(d: int) -> int {
    if d < 2 {
        d + 2
    } else {
        d - 2
    }
}

/// The coordinate one step from `c` in direction `d`, with no bounds applied.
pub open spec fn step(c: Coords, d: int) -> Coords {
    if d == 0 {
        Coords { x: c.x, y: (c.y - 1) as isize }
    } else if d == 1 {
        Coords { x: (c.x + 1) as isize, y: c.y }
    } else if d == 2 {
        Coords { x: c.x, y: (c.y + 1) as isize }
    } else {
        Coords { x: (c.x - 1) as isize, y: c.y }
    }
}

/// The horizontally adjacent coordinates of `c` that stay inside
/// `[0, w)` on the x axis, lower x first.
pub open spec fn x_nbrs(c: Coords, w: int) -> Seq<Coords> {
    (if c.x > 0 {
        seq![Coords { x: (c.x - 1) as isize, y: c.y }]
    } else {
        Seq::<Coords>::empty()
    }) + (if c.x < w - 1 {
        seq![Coords { x: (c.x + 1) as isize, y: c.y }]
    } else {
        Seq::<Coords>::empty()
    })
}

/// The vertically adjacent coordinates of `c` that stay inside
/// `[0, h)` on the y axis, lower y first.
pub open spec fn y_nbrs(c: Coords, h: int) -> Seq<Coords> {
    (if c.y > 0 {
        seq![Coords { x: c.x, y: (c.y - 1) as isize }]
    } else {
        Seq::<Coords>::empty()
    }) + (if c.y < h - 1 {
        seq![Coords { x: c.x, y: (c.y + 1) as isize }]
    } else {
        Seq::<Coords>::empty()
    })
}

/// All grid-adjacent coordinates of `c` inside a `w` by `h` box:
/// x-neighbors first, then y-neighbors.
pub open spec fn all_nbrs(c: Coords, w: int, h: int) -> Seq<Coords> {
    x_nbrs(c, w) + y_nbrs(c, h)
}

impl Coords {
    pub fn from(x: isize, y: isize) -> (c: Coords)
        ensures
            c == (Coords { x, y }),
    {
        Coords { x, y }
    }

    /// The flat row-major offset of this coordinate in a grid of the given
    /// width.
    pub fn to_index(&self, width: isize) -> (idx: usize)
        requires
            0 < width,
            0 <= self.x,
            0 <= self.y,
            self.y * width + self.x <= isize::MAX,
        ensures
            idx == self.y * width + self.x,
    {
        proof {
            assert(0 <= self.y * width) by (nonlinear_arith)
                requires 0 <= self.y && 0 < width;
        }
        let y: isize = self.y * width;
        (self.x + y) as usize
    }

    /// The direction from `self` toward an adjacent coordinate `other`.
    pub fn wall_to(&self, other: &Coords) -> (d: usize)
        requires
            adjacent(*self, *other),
        ensures
            d == dir_to(*self, *other),
            d < 4,
            step(*self, d as int) == *other,
    {
        let dx = self.x - other.x;
        let dy = self.y - other.y;
        if dx == 1 {
            return 3;
        }
        if dx == -1 {
            return 1;
        }
        if dy == 1 {
            return 0;
        }
        2
    }

    /// The coordinate across wall `wall_number` of `self`, or `None` when
    /// that side faces out of the grid.
    pub fn get_wall_neighbor_coords(&self, wall_number: usize, grid: &crate::grid::Grid) -> (r:
        Option<Coords>)
        requires
            grid.wf(),
            grid.in_bounds(*self),
            wall_number < 4,
        ensures
            match r {
                Some(n) => grid.has_neighbor(*self, wall_number as int) && n == step(
                    *self,
                    wall_number as int,
                ),
                None => !grid.has_neighbor(*self, wall_number as int),
            },
    {
        match wall_number {
            0 => {
                if self.y == 0 {
                    return None;
                }
                Some(Coords::from(self.x, self.y - 1))
            },
            1 => {
                if self.x == grid.width - 1 {
                    return None;
                }
                Some(Coords::from(self.x + 1, self.y))
            },
            2 => {
                if self.y == grid.height - 1 {
                    return None;
                }
                Some(Coords::from(self.x, self.y + 1))
            },
            _ => {
                if self.x == 0 {
                    return None;
                }
                Some(Coords::from(self.x - 1, self.y))
            },
        }
    }

    /// All grid-adjacent coordinates, x-neighbors first, then y-neighbors.
    pub fn get_all_neighbors(&self, grid: &crate::grid::Grid) -> (v: Vec<Coords>)
        requires
            grid.wf(),
            grid.in_bounds(*self),
        ensures
            v@ == all_nbrs(*self, grid.width as int, grid.height as int),
    {
        let mut nbors = self.get_x_neighbors(grid.width);
        let mut y_nbors = self.get_y_neighbors(grid.height);
        nbors.append(&mut y_nbors);
        nbors
    }

    /// The horizontally adjacent coordinates that stay inside `[0, width)`.
    pub fn get_x_neighbors(&self, width: isize) -> (v: Vec<Coords>)
        requires
            0 < width,
            0 <= self.x < width,
        ensures
            v@ == x_nbrs(*self, width as int),
            forall|i: int|
                0 <= i < v@.len() ==> 0 <= (#[trigger] v@[i]).x < width && v@[i].y == self.y,
    {
        let mut nbors: Vec<Coords> = Vec::new();
        if self.x > 0 {
            nbors.push(Coords::from(self.x - 1, self.y));
        }
        if self.x < width - 1 {
            nbors.push(Coords::from(self.x + 1, self.y));
        }
        proof {
            assert(nbors@ =~= x_nbrs(*self, width as int));
        }
        nbors
    }

    /// The vertically adjacent coordinates that stay inside `[0, height)`.
    pub fn get_y_neighbors(&self, height: isize) -> (v: Vec<Coords>)
        requires
            0 < height,
            0 <= self.y < height,
        ensures
            v@ == y_nbrs(*self, height as int),
            forall|i: int|
                0 <= i < v@.len() ==> 0 <= (#[trigger] v@[i]).y < height && v@[i].x == self.x,
    {
        let mut nbors: Vec<Coords> = Vec::new();
        if self.y > 0 {
            nbors.push(Coords::from(self.x, self.y - 1));
        }
        if self.y < height - 1 {
            nbors.push(Coords::from(self.x, self.y + 1));
        }
        proof {
            assert(nbors@ =~= y_nbrs(*self, height as int));
        }
        nbors
    }
}

/// The direction back is the opposite of the direction there: when
/// `a.wall_to(b)` is `d`, `b.wall_to(a)` is `(d + 2) % 4`.
pub proof fn lemma_wall_to_involutive(a: Coords, b: Coords)
    requires
        adjacent(a, b),
    ensures
        adjacent(b, a),
        dir_to(b, a) == (dir_to(a, b) + 2) % 4,
        dir_to(b, a) == opposite(dir_to(a, b)),
{
}

/// Stepping along a direction gives an adjacent coordinate, and the
/// direction toward it is the direction stepped.
pub proof fn lemma_step_adjacent(c: Coords, d: int)
    requires
        0 <= d < 4,
        0 <= c.x < isize::MAX,
        0 <= c.y < isize::MAX,
    ensures
        adjacent(c, step(c, d)),
        dir_to(c, step(c, d)) == d,
{
}

/// Every coordinate among the neighbors of `c` is adjacent to `c`, lies in
/// the same box as `c`, and is the step from `c` along its own direction.
pub proof fn lemma_all_nbrs_sound(c: Coords, w: int, h: int)
    requires
        0 <= c.x < w,
        0 <= c.y < h,
        w <= isize::MAX,
        h <= isize::MAX,
    ensures
        forall|i: int|
            0 <= i < all_nbrs(c, w, h).len() ==> {
                let n = #[trigger] all_nbrs(c, w, h)[i];
                &&& 0 <= n.x < w
                &&& 0 <= n.y < h
                &&& adjacent(c, n)
                &&& n == step(c, dir_to(c, n))
            },
{
}

/// Every direction that stays inside the box is covered by the neighbor
/// sequence.
pub proof fn lemma_all_nbrs_complete(c: Coords, w: int, h: int, d: int)
    requires
        0 <= c.x < w,
        0 <= c.y < h,
        w <= isize::MAX,
        h <= isize::MAX,
        0 <= d < 4,
        0 <= step(c, d).x < w,
        0 <= step(c, d).y < h,
    ensures
        all_nbrs(c, w, h).contains(step(c, d)),
{
    let xs = x_nbrs(c, w);
    let v = all_nbrs(c, w, h);
    if d == 3 {
        assert(v[0] == step(c, d));
    } else if d == 1 {
        let i: int = if c.x > 0 { 1 } else { 0 };
        assert(v[i] == step(c, d));
    } else if d == 0 {
        assert(v[xs.len() as int] == step(c, d));
    } else {
        let i: int = xs.len() + (if c.y > 0 { 1int } else { 0 });
        assert(v[i] == step(c, d));
    }
}

} // verus!
