//! Randomized spanning-tree generation: iterative backtracking depth-first
//! search from the origin, opening one wall toward one unvisited neighbor at
//! a time. Every opening connects exactly one new cell, so at the end the
//! opened connections number one less than the cells.

use vstd::prelude::*;

use crate::coords::{all_nbrs, lemma_all_nbrs_complete, lemma_all_nbrs_sound, opposite, step, Coords};
use crate::count::{
    edge_count, lemma_open_wall_count_delta, lemma_reveal_at_count, lemma_revealed_count_bounds,
    lemma_revealed_count_full, revealed_count,
};
use crate::grid::{
    cell_fresh, lemma_idx_in_range, lemma_idx_injective, lemma_unvisited_filter_empty,
    lemma_unvisited_filter_sound, nbrs_revealed, revealed_monotone, unrevealed_sealed,
    unvisited_nbrs, walls_agree, Grid,
};

verus! {

/// Relies on rand::random_range: a uniformly drawn value in `0..n`, which is
/// non-empty, so the draw lies below `n`.
#[verifier::external_body]
fn choose_index(n: usize) -> (r: usize)
    requires
        0 < n,
    ensures
        r < n,
{
    rand::random_range(0..n)
}

/// The origin can be walked to `c` in at most `k` steps, each through an
/// opened wall.
pub open spec fn reachable_in(g: Grid, c: Coords, k: nat) -> bool
    decreases k,
{
    c == (Coords { x: 0, y: 0 }) || (k > 0 && exists|d: int|
        (#[trigger] g.has_neighbor(c, d)) && g.cell(c).walls[d] is Empty && reachable_in(
            g,
            step(c, d),
            (k - 1) as nat,
        ))
}

/// `c` is connected to the origin through opened walls.
pub open spec fn reachable(g: Grid, c: Coords) -> bool {
    exists|k: nat| reachable_in(g, c, k)
}

/// Opening further walls never disconnects: whatever was reachable stays so.
proof fn lemma_reachable_in_monotone(g1: Grid, g2: Grid, c: Coords, k: nat)
    requires
        g2.width == g1.width,
        g2.height == g1.height,
        forall|cc: Coords, d: int|
            #[trigger] g1.has_neighbor(cc, d) && g1.cell(cc).walls[d] is Empty ==> g2.cell(
                cc,
            ).walls[d] is Empty,
        reachable_in(g1, c, k),
    ensures
        reachable_in(g2, c, k),
    decreases k,
{
    if c != (Coords { x: 0, y: 0 }) {
        let d = choose|d: int|
            (#[trigger] g1.has_neighbor(c, d)) && g1.cell(c).walls[d] is Empty && reachable_in(
                g1,
                step(c, d),
                (k - 1) as nat,
            );
        lemma_reachable_in_monotone(g1, g2, step(c, d), (k - 1) as nat);
        assert(g2.has_neighbor(c, d));
        assert(g2.cell(c).walls[d] is Empty);
    }
}

/// Revealing cells never unseals a cell's neighbors.
proof fn lemma_nbrs_revealed_monotone(g1: Grid, g2: Grid, c: Coords)
    requires
        g2.width == g1.width,
        g2.height == g1.height,
        nbrs_revealed(g1, c),
        revealed_monotone(g1, g2),
    ensures
        nbrs_revealed(g2, c),
{
    assert forall|d: int| #[trigger] g2.has_neighbor(c, d) implies g2.cell(
        step(c, d),
    ).revealed by {
        assert(g1.has_neighbor(c, d));
        assert(g1.cell(step(c, d)).revealed);
    }
}

/// When the origin is revealed and every revealed cell has only revealed
/// neighbors, every cell is revealed: walk to `c` from the origin, one axis
/// at a time.
proof fn lemma_all_revealed(g: Grid, c: Coords)
    requires
        g.wf(),
        g.in_bounds(c),
        g.cell(Coords { x: 0, y: 0 }).revealed,
        forall|cc: Coords|
            g.in_bounds(cc) && (#[trigger] g.cell(cc)).revealed ==> nbrs_revealed(g, cc),
    ensures
        g.cell(c).revealed,
    decreases c.x + c.y,
{
    if c.x > 0 {
        let p = Coords { x: (c.x - 1) as isize, y: c.y };
        lemma_all_revealed(g, p);
        assert(g.has_neighbor(p, 1));
        assert(step(p, 1) == c);
    } else if c.y > 0 {
        let p = Coords { x: c.x, y: (c.y - 1) as isize };
        lemma_all_revealed(g, p);
        assert(g.has_neighbor(p, 2));
        assert(step(p, 2) == c);
    }
}

/// Generate a perfect maze: reveal the origin, then repeatedly open a wall
/// from the current cell toward a randomly chosen unvisited neighbor,
/// backtracking along an explicit stack when no unvisited neighbor is left.
/// Every cell ends up revealed and connected to the origin through opened
/// walls, facing walls agree, and the number of opened connections is exactly
/// one less than the number of cells.
#[verifier::rlimit(100)]
pub fn generate(width: isize, height: isize) -> (g: Grid)
    requires
        0 < width,
        0 < height,
        width * height <= isize::MAX,
    ensures
        g.wf(),
        g.width == width,
        g.height == height,
        forall|c: Coords| g.in_bounds(c) ==> (#[trigger] g.cell(c)).revealed,
        forall|c: Coords| g.in_bounds(c) ==> #[trigger] reachable(g, c),
        walls_agree(g),
        edge_count(g) == width * height - 1,
{
    let mut grid = Grid::new(width, height);
    let ghost g0 = grid;
    let current = Coords::from(0, 0);
    grid.reveal_at(&current);
    proof {
        crate::count::lemma_counts_fresh(g0);
        lemma_reveal_at_count(g0, grid, current);
        lemma_idx_in_range(g0, current);
        lemma_revealed_count_bounds(grid);
        assert(grid.cell(current).revealed);
        assert forall|c: Coords| grid.in_bounds(c) implies (#[trigger] grid.cell(c)).walls
            == g0.cell(c).walls by {
            lemma_idx_in_range(g0, c);
            if c != current {
                lemma_idx_injective(g0, c, current);
            }
        }
        assert forall|c: Coords, d: int| #[trigger] grid.has_neighbor(c, d) implies (grid.cell(
            c,
        ).walls[d] is Empty <==> grid.cell(step(c, d)).walls[opposite(d)] is Empty) by {
            assert(cell_fresh(g0.cell(c), c));
            assert(cell_fresh(g0.cell(step(c, d)), step(c, d)));
            assert(grid.cell(c).walls == g0.cell(c).walls);
            assert(grid.cell(step(c, d)).walls == g0.cell(step(c, d)).walls);
        }
        assert forall|c: Coords, d: int|
            grid.in_bounds(c) && 0 <= d < 4 && !grid.cell(c).revealed implies !((
        #[trigger] grid.cell(c).walls[d]) is Empty) by {
            assert(cell_fresh(g0.cell(c), c));
            assert(grid.cell(c).walls == g0.cell(c).walls);
        }
    }
    let mut stack: Vec<Coords> = Vec::new();
    let mut current = current;
    let mut done = false;
    proof {
        assert forall|c: Coords|
            grid.in_bounds(c) && (#[trigger] grid.cell(c)).revealed && c
                != current implies nbrs_revealed(grid, c) by {
            lemma_idx_in_range(g0, c);
            lemma_idx_injective(g0, c, current);
            assert(cell_fresh(g0.cell(c), c));
            assert(grid.cell(c) == g0.cell(c));
        }
        assert forall|c: Coords|
            grid.in_bounds(c) && (#[trigger] grid.cell(c)).revealed implies reachable(
            grid,
            c,
        ) by {
            if c == current {
                assert(reachable_in(grid, c, 0));
            } else {
                lemma_idx_in_range(g0, c);
                lemma_idx_injective(g0, c, current);
                assert(cell_fresh(g0.cell(c), c));
                assert(grid.cell(c) == g0.cell(c));
            }
        }
    }
    while !done
        invariant
            0 < width,
            0 < height,
            width * height <= isize::MAX,
            grid.wf(),
            grid.width == width,
            grid.height == height,
            walls_agree(grid),
            unrevealed_sealed(grid),
            revealed_count(grid) == edge_count(grid) + 1,
            1 <= revealed_count(grid) <= width * height,
            grid.in_bounds(current),
            grid.cell(current).revealed,
            grid.cell(Coords { x: 0, y: 0 }).revealed,
            forall|i: int|
                0 <= i < stack@.len() ==> grid.in_bounds(#[trigger] stack@[i]) && grid.cell(
                    stack@[i],
                ).revealed,
            forall|c: Coords|
                grid.in_bounds(c) && (#[trigger] grid.cell(c)).revealed && c != current
                    && !stack@.contains(c) ==> nbrs_revealed(grid, c),
            forall|c: Coords|
                grid.in_bounds(c) && (#[trigger] grid.cell(c)).revealed ==> reachable(grid, c),
            done ==> stack@.len() == 0 && nbrs_revealed(grid, current),
        decreases 2 * (width * height - revealed_count(grid)) + stack@.len() + (if done {
            0int
        } else {
            1int
        }),
    {
        match grid.get_unvisited_neighbors_at(&current) {
            Some(neighbors) => {
                let ghost g1 = grid;
                let ghost all = all_nbrs(current, width as int, height as int);
                let ghost old_stack = stack@;
                proof {
                    lemma_unvisited_filter_sound(grid, all);
                    lemma_all_nbrs_sound(current, width as int, height as int);
                }
                stack.push(current);
                let j: usize = choose_index(neighbors.len());
                let nbor = neighbors[j];
                proof {
                    assert(unvisited_nbrs(g1, current)[j as int] == nbor);
                    assert(all.contains(nbor) && g1.in_bounds(nbor) && !g1.cell(nbor).revealed);
                    let k = choose|k: int| 0 <= k < all.len() && all[k] == nbor;
                    assert(crate::coords::adjacent(current, nbor));
                }
                let wall_number = current.wall_to(&nbor);
                proof {
                    assert(grid.has_neighbor(current, wall_number as int));
                }
                grid.open_wall_at(&current, wall_number);
                proof {
                    let a = current;
                    let b = nbor;
                    let d = wall_number as int;
                    lemma_idx_in_range(g1, a);
                    lemma_idx_in_range(g1, b);
                    lemma_idx_injective(g1, a, b);
                    lemma_open_wall_count_delta(g1, grid, a, d);
                    lemma_revealed_count_bounds(grid);
                    // Cells other than the two ends are untouched.
                    assert forall|c: Coords|
                        grid.in_bounds(c) && c != a && c != b implies #[trigger] grid.cell(c)
                        == g1.cell(c) by {
                        lemma_idx_in_range(g1, c);
                        lemma_idx_injective(g1, c, a);
                        lemma_idx_injective(g1, c, b);
                    }
                    assert(revealed_monotone(g1, grid));
                    // Facing walls still agree: the two flipped walls face
                    // each other, and every other pair is unchanged.
                    assert forall|c: Coords, dd: int| #[trigger] grid.has_neighbor(
                        c,
                        dd,
                    ) implies (grid.cell(c).walls[dd] is Empty <==> grid.cell(
                        step(c, dd),
                    ).walls[opposite(dd)] is Empty) by {
                        let n = step(c, dd);
                        assert(g1.has_neighbor(c, dd));
                        assert(g1.cell(c).walls[dd] is Empty <==> g1.cell(n).walls[opposite(
                            dd,
                        )] is Empty);
                        if c != a && c != b {
                            assert(grid.cell(c) == g1.cell(c));
                        }
                        if n != a && n != b {
                            assert(grid.cell(n) == g1.cell(n));
                        }
                    }
                    // Unrevealed cells keep all their walls: neither end of
                    // the opened wall is unrevealed afterwards.
                    assert forall|c: Coords, dd: int|
                        grid.in_bounds(c) && 0 <= dd < 4 && !grid.cell(c).revealed implies !((
                    #[trigger] grid.cell(c).walls[dd]) is Empty) by {
                        assert(grid.cell(c) == g1.cell(c));
                        assert(!((#[trigger] g1.cell(c).walls[dd]) is Empty));
                    }
                    // Walls only ever open, so reachability is kept, and the
                    // newly revealed cell is reached through the opened wall.
                    assert forall|cc: Coords, dd: int|
                        #[trigger] g1.has_neighbor(cc, dd) && g1.cell(cc).walls[dd]
                            is Empty implies grid.cell(cc).walls[dd] is Empty by {
                        if cc != a && cc != b {
                            assert(grid.cell(cc) == g1.cell(cc));
                        }
                    }
                    assert forall|c: Coords|
                        grid.in_bounds(c) && (#[trigger] grid.cell(c)).revealed implies reachable(
                        grid,
                        c,
                    ) by {
                        if c == b {
                            assert(reachable(g1, a));
                            let k = choose|k: nat| reachable_in(g1, a, k);
                            lemma_reachable_in_monotone(g1, grid, a, k);
                            assert(step(b, opposite(d)) == a);
                            assert(grid.has_neighbor(b, opposite(d)));
                            assert(grid.cell(b).walls[opposite(d)] is Empty);
                            assert(reachable_in(grid, b, k + 1));
                        } else {
                            if c != a {
                                assert(grid.cell(c) == g1.cell(c));
                            }
                            assert(g1.cell(c).revealed);
                            assert(reachable(g1, c));
                            let k = choose|k: nat| reachable_in(g1, c, k);
                            lemma_reachable_in_monotone(g1, grid, c, k);
                        }
                    }
                    // Retired cells keep only revealed neighbors.
                    assert forall|c: Coords|
                        grid.in_bounds(c) && (#[trigger] grid.cell(c)).revealed && c != b
                            && !stack@.contains(c) implies nbrs_revealed(grid, c) by {
                        assert(stack@[old_stack.len() as int] == a);
                        assert(c != a);
                        if old_stack.contains(c) {
                            let i = choose|i: int|
                                0 <= i < old_stack.len() && old_stack[i] == c;
                            assert(stack@[i] == c);
                        }
                        assert(!old_stack.contains(c));
                        assert(grid.cell(c) == g1.cell(c));
                        assert(nbrs_revealed(g1, c));
                        lemma_nbrs_revealed_monotone(g1, grid, c);
                    }
                }
                current = nbor;
            },
            None => {
                let ghost all = all_nbrs(current, width as int, height as int);
                proof {
                    lemma_unvisited_filter_empty(grid, all);
                    assert forall|d: int| #[trigger] grid.has_neighbor(current, d) implies grid.cell(
                        step(current, d),
                    ).revealed by {
                        lemma_all_nbrs_complete(current, width as int, height as int, d);
                        let k = choose|k: int|
                            0 <= k < all.len() && all[k] == step(current, d);
                        assert(grid.in_bounds(all[k]));
                        assert(grid.cell(all[k]).revealed);
                    }
                    assert(nbrs_revealed(grid, current));
                }
                let ghost old_stack = stack@;
                match stack.pop() {
                    Some(next) => {
                        proof {
                            assert(old_stack =~= stack@.push(next));
                            assert forall|c: Coords|
                                grid.in_bounds(c) && (#[trigger] grid.cell(c)).revealed && c
                                    != next && !stack@.contains(c) implies nbrs_revealed(
                                grid,
                                c,
                            ) by {
                                if c != current {
                                    if old_stack.contains(c) {
                                        let i = choose|i: int|
                                            0 <= i < old_stack.len() && old_stack[i] == c;
                                        assert(stack@.push(next)[i] == c);
                                        assert(stack@[i] == c);
                                    }
                                    assert(!old_stack.contains(c));
                                }
                            }
                        }
                        current = next;
                    },
                    None => {
                        done = true;
                    },
                }
            },
        }
    }
    proof {
        assert forall|c: Coords|
            grid.in_bounds(c) && (#[trigger] grid.cell(c)).revealed implies nbrs_revealed(
            grid,
            c,
        ) by {
            if c != current {
                assert(!stack@.contains(c));
            }
        }
        assert forall|c: Coords| grid.in_bounds(c) implies (#[trigger] grid.cell(c)).revealed by {
            lemma_all_revealed(grid, c);
        }
        assert forall|c: Coords| grid.in_bounds(c) implies #[trigger] reachable(grid, c) by {
            assert(grid.cell(c).revealed);
        }
        lemma_revealed_count_full(grid);
    }
    grid
}

} // verus!

