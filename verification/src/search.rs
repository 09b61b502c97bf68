//! The backtracking search for tilings.

use vstd::prelude::*;
use crate::listing::{
    lemma_listing_done, lemma_listing_grow, lemma_listing_leaf, lemma_listing_skip,
    lemma_listing_start, lists_below,
};
use crate::matrix::{
    Matrix, before, block_fits, block_is_free, has_cell, in_block, lemma_cells, with_block,
};
use crate::step::{lemma_place_keeps_partial, lemma_square_count};
use crate::tiling::{
    first_empty_at, is_enumeration, is_full, is_partial, is_tiling, keeps_prefix,
    lemma_is_squarings, lists_completions, squarings,
};

verus! {

/// The largest side for which tilings are enumerated.
pub const MAX_SIDE: usize = 6;

/// All tilings of the `n x n` grid by squares, in the order the search meets
/// them: at each corner the smaller square is tried first.
pub fn find_squarings(n: usize) -> (solutions: Vec<Vec<Vec<i32>>>)
    requires
        n <= MAX_SIDE,
    ensures
        is_enumeration(solutions.deep_view(), n as int),
        solutions.deep_view() == squarings(n as int),
{
    if n == 0 {
        let none: Vec<Vec<i32>> = Vec::new();
        let mut only: Vec<Vec<Vec<i32>>> = Vec::new();
        only.push(none);
        proof {
            let sols = only.deep_view();
            assert(sols[0].len() == 0);
            assert forall|t: Matrix| #![trigger is_tiling(t, 0)] is_tiling(t, 0) implies exists|
                i: int,
            |
                0 <= i < sols.len() && #[trigger] sols[i] == t by {
                assert(t =~= sols[0]);
            }
            lemma_is_squarings(sols, 0);
        }
        return only;
    }
    let mut solutions: Vec<Vec<Vec<i32>>> = Vec::new();
    let row: Vec<i32> = vec![0; n];
    let initial_grid: Vec<Vec<i32>> = vec![row; n];
    proof {
        let m = initial_grid.deep_view();
        assert(row@ =~= Seq::new(n as nat, |j: int| 0i32));
        assert(m =~~= Seq::new(n as nat, |i: int| Seq::new(n as nat, |j: int| 0i32)));
        assert(is_partial(m, n as int, 0));
        assert(n * n < i32::MAX) by (nonlinear_arith)
            requires
                n <= 6,
        ;
    }
    solve(n, initial_grid, 1, &mut solutions);
    proof {
        lemma_is_squarings(solutions.deep_view(), n as int);
    }
    solutions
}

/// Appends to `solutions` every tiling that completes `grid`, a state of the
/// search in which the squares below `next_id` are placed.
pub fn solve(n: usize, grid: Vec<Vec<i32>>, next_id: i32, solutions: &mut Vec<Vec<Vec<i32>>>)
    requires
        n * n < i32::MAX,
        is_partial(grid.deep_view(), n as int, next_id - 1),
    ensures
        keeps_prefix(final(solutions).deep_view(), old(solutions).deep_view()),
        lists_completions(
            final(solutions).deep_view(),
            old(solutions).deep_view().len() as int,
            grid.deep_view(),
            n as int,
            next_id - 1,
        ),
    decreases n * n + 1 - next_id,
{
    let ghost m = grid.deep_view();
    let ghost k = next_id - 1;
    let ghost earlier = solutions.deep_view();
    proof {
        lemma_square_count(m, n as int, k);
        assert(n < 0x1_0000) by (nonlinear_arith)
            requires
                n * n < 0x8000_0000,
        ;
    }
    match find_first_empty(&grid) {
        Some((r, c)) => {
            let max_s = if n - r < n - c {
                n - r
            } else {
                n - c
            };
            proof {
                lemma_listing_start(earlier, m, n as int, k, r as int, c as int);
            }
            let mut s: usize = 1;
            while s <= max_s
                invariant
                    1 <= s <= max_s + 1,
                    n < 0x1_0000,
                    r < n,
                    c < n,
                    max_s == if n - r < n - c {
                        n - r
                    } else {
                        n - c
                    },
                    n * n < i32::MAX,
                    m == grid.deep_view(),
                    k == next_id - 1,
                    k < i32::MAX,
                    is_partial(m, n as int, k),
                    first_empty_at(m, r as int, c as int),
                    keeps_prefix(solutions.deep_view(), earlier),
                    lists_below(
                        solutions.deep_view(),
                        earlier.len() as int,
                        m,
                        n as int,
                        k,
                        r as int,
                        c as int,
                        s as int,
                    ),
                decreases max_s + 1 - s,
            {
                let ghost mid = solutions.deep_view();
                if can_place(&grid, r, c, s) {
                    let mut new_grid = grid.clone();
                    place_square(&mut new_grid, r, c, s, next_id);
                    proof {
                        lemma_place_keeps_partial(
                            m,
                            n as int,
                            k,
                            r as int,
                            c as int,
                            s as int,
                            next_id,
                        );
                        lemma_square_count(new_grid.deep_view(), n as int, k + 1);
                    }
                    solve(n, new_grid, next_id + 1, solutions);
                    proof {
                        lemma_listing_grow(
                            mid,
                            solutions.deep_view(),
                            earlier.len() as int,
                            m,
                            n as int,
                            k,
                            r as int,
                            c as int,
                            s as int,
                        );
                    }
                } else {
                    proof {
                        lemma_listing_skip(
                            mid,
                            earlier.len() as int,
                            m,
                            n as int,
                            k,
                            r as int,
                            c as int,
                            s as int,
                        );
                    }
                }
                s += 1;
            }
            proof {
                lemma_listing_done(
                    solutions.deep_view(),
                    earlier.len() as int,
                    m,
                    n as int,
                    k,
                    r as int,
                    c as int,
                    s as int,
                );
            }
        },
        None => {
            solutions.push(grid);
            proof {
                assert(solutions.deep_view() =~= earlier.push(m));
                lemma_listing_leaf(solutions.deep_view(), earlier, m, n as int, k);
            }
        },
    }
}

/// The first cell of `grid`, in row-major order, that holds 0, if there is
/// one. The rows need not be of one length.
pub fn find_first_empty(grid: &Vec<Vec<i32>>) -> (found: Option<(usize, usize)>)
    ensures
        match found {
            Some((r, c)) => first_empty_at(grid.deep_view(), r as int, c as int),
            None => is_full(grid.deep_view()),
        },
{
    for r in 0..grid.len()
        invariant
            forall|i: int, j: int|
                has_cell(grid.deep_view(), i, j) && i < r ==> #[trigger] grid.deep_view()[i][j]
                    != 0,
    {
        let width = grid[r].len();
        for c in 0..width
            invariant
                r < grid.len(),
                width == grid[r as int].len(),
                forall|i: int, j: int|
                    has_cell(grid.deep_view(), i, j) && before(i, j, r as int, c as int)
                        ==> #[trigger] grid.deep_view()[i][j] != 0,
        {
            if grid[r][c] == 0 {
                return Some((r, c));
            }
        }
    }
    None
}

/// Whether the block of side `s` at `(r_start, c_start)` is entirely unassigned.
pub fn can_place(grid: &Vec<Vec<i32>>, r_start: usize, c_start: usize, s: usize) -> (free: bool)
    requires
        block_fits(grid.deep_view(), r_start as int, c_start as int, s as int),
    ensures
        free == block_is_free(grid.deep_view(), r_start as int, c_start as int, s as int),
{
    proof {
        lemma_cells(grid);
    }
    let r_end = r_start + s;
    for r in r_start..r_end
        invariant
            r_end == r_start + s,
            block_fits(grid.deep_view(), r_start as int, c_start as int, s as int),
            forall|i: int, j: int|
                in_block(i, j, r_start as int, c_start as int, s as int) && i < r
                    ==> #[trigger] grid.deep_view()[i][j] == 0,
    {
        proof {
            lemma_cells(grid);
            assert(c_start + s <= grid.deep_view()[r as int].len());
        }
        let c_end = c_start + s;
        for c in c_start..c_end
            invariant
                r_start <= r < r_end,
                r_end == r_start + s,
                c_end == c_start + s,
                block_fits(grid.deep_view(), r_start as int, c_start as int, s as int),
                forall|i: int, j: int|
                    in_block(i, j, r_start as int, c_start as int, s as int) && before(
                        i,
                        j,
                        r as int,
                        c as int,
                    ) ==> #[trigger] grid.deep_view()[i][j] == 0,
        {
            proof {
                lemma_cells(grid);
            }
            if grid[r][c] != 0 {
                return false;
            }
        }
    }
    true
}

/// Writes `id` into every cell of the block of side `s` at `(r_start, c_start)`.
pub fn place_square(grid: &mut Vec<Vec<i32>>, r_start: usize, c_start: usize, s: usize, id: i32)
    requires
        block_fits(old(grid).deep_view(), r_start as int, c_start as int, s as int),
    ensures
        final(grid).deep_view() == with_block(
            old(grid).deep_view(),
            r_start as int,
            c_start as int,
            s as int,
            id,
        ),
{
    let ghost start = grid.deep_view();
    proof {
        lemma_cells(grid);
    }
    let r_end = r_start + s;
    for r in r_start..r_end
        invariant
            r_end == r_start + s,
            block_fits(start, r_start as int, c_start as int, s as int),
            painted_up_to(grid.deep_view(), start, r_start as int, c_start as int, s as int, id,
                r as int, c_start as int),
    {
        proof {
            lemma_cells(grid);
            assert(c_start + s <= grid.deep_view()[r as int].len());
        }
        let c_end = c_start + s;
        for c in c_start..c_end
            invariant
                r_start <= r < r_end,
                r_end == r_start + s,
                c_end == c_start + s,
                block_fits(start, r_start as int, c_start as int, s as int),
                painted_up_to(grid.deep_view(), start, r_start as int, c_start as int, s as int,
                    id, r as int, c as int),
        {
            let ghost prev = grid.deep_view();
            proof {
                lemma_cells(grid);
            }
            grid[r][c] = id;
            proof {
                lemma_cells(grid);
                assert forall|i: int, j: int| has_cell(grid.deep_view(), i, j) implies (
                #[trigger] grid.deep_view()[i][j]) == if i == r && j == c {
                    id
                } else {
                    prev[i][j]
                } by {}
            }
        }
    }
    assert(grid.deep_view() =~~= with_block(start, r_start as int, c_start as int, s as int, id));
}

/// `m` is `start` with `id` written into the cells of the block that are scanned
/// before `(r, c)`.
spec fn painted_up_to(
    m: Matrix,
    start: Matrix,
    r0: int,
    c0: int,
    s: int,
    id: i32,
    r: int,
    c: int,
) -> bool {
    &&& m.len() == start.len()
    &&& forall|i: int| 0 <= i < m.len() ==> (#[trigger] m[i]).len() == start[i].len()
    &&& forall|i: int, j: int|
        has_cell(m, i, j) ==> #[trigger] m[i][j] == if in_block(i, j, r0, c0, s) && before(
            i,
            j,
            r,
            c,
        ) {
            id
        } else {
            start[i][j]
        }
}

} // verus!
