//! How one step of the search relates a state to its completions.

use vstd::prelude::*;
use crate::matrix::{
    Matrix, before, block_fits, block_is_free, has_cell, in_block, is_square_grid, with_block,
};
use crate::tiling::{
    agree_before, extends, first_empty_at, follows_predecessor, in_square_tile, is_full,
    is_partial, is_tiling, precedes, settled_before, tile_at,
};

verus! {

/// Placing square `id = k + 1` on a free block at the first unassigned cell of
/// a state with `k` squares gives a state with `k + 1` squares.
pub(crate) proof fn lemma_place_keeps_partial(m: Matrix, n: int, k: int, r: int, c: int, s: int, id: i32)
    requires
        is_partial(m, n, k),
        first_empty_at(m, r, c),
        s >= 1,
        block_fits(m, r, c, s),
        block_is_free(m, r, c, s),
        id == k + 1,
    ensures
        is_partial(with_block(m, r, c, s, id), n, k + 1),
{
    reveal(follows_predecessor);
    let m2 = with_block(m, r, c, s, id);
    assert(m2[r][c] == id);
    // The new square is a tile of the new state: no cell held `id` before.
    assert(tile_at(m2, id, r, c, s));
    assert forall|i: int, j: int| #![trigger m2[i][j]] has_cell(m2, i, j) implies 0 <= m2[i][j]
        <= k + 1 && (m2[i][j] != 0 ==> in_square_tile(m2, i, j) && follows_predecessor(m2, i, j)) by {
        if in_block(i, j, r, c, s) {
            if k >= 1 {
                // Square `k` has a cell before the first unassigned one, hence
                // before every cell of the new square, and outside it.
                let (p, q) = choose|p: int, q: int|
                    has_cell(m, p, q) && m[p][q] == k && #[trigger] settled_before(m, p, q);
                assert(before(p, q, r, c));
                assert(!in_block(p, q, r, c, s));
                assert(m2[p][q] == k);
            }
        } else {
            let v = m[i][j];
            if v != 0 {
                // An older square keeps its cells: the block was free, so it
                // held none of them.
                let (r0, c0, s0) = choose|r0: int, c0: int, s0: int| tile_at(m, v, r0, c0, s0);
                assert(tile_at(m2, v, r0, c0, s0)) by {
                    assert forall|a: int, b: int| has_cell(m2, a, b) implies (#[trigger] m2[a][b]
                        == v <==> in_block(a, b, r0, c0, s0)) by {
                        if in_block(a, b, r, c, s) {
                            assert(m[a][b] == 0);
                        }
                    }
                    assert forall|a: int| r0 <= a < r0 + s0 implies c0 + s0 <= (
                    #[trigger] m2[a]).len() by {}
                }
                if v > 1 {
                    let (p, q) = choose|p: int, q: int|
                        has_cell(m, p, q) && before(p, q, i, j) && #[trigger] m[p][q] == v - 1;
                    assert(!in_block(p, q, r, c, s));
                    assert(has_cell(m2, p, q) && m2[p][q] == v - 1);
                }
            }
        }
    }
    assert(settled_before(m2, r, c));
}

/// A state with no unassigned cell is a tiling, and the only one that
/// completes it.
pub(crate) proof fn lemma_full_is_tiling(m: Matrix, n: int, k: int)
    requires
        is_partial(m, n, k),
        is_full(m),
    ensures
        is_tiling(m, n),
        extends(m, m, k),
        forall|t: Matrix| is_tiling(t, n) && #[trigger] extends(t, m, k) ==> t == m,
{
    assert forall|t: Matrix| is_tiling(t, n) && #[trigger] extends(t, m, k) implies t == m by {
        // No cell of `m` is wiped out, so `t` holds what `m` holds.
        assert forall|i: int| 0 <= i < n implies t[i] == m[i] by {
            assert forall|j: int| 0 <= j < n implies t[i][j] == m[i][j] by {}
        }
    }
}

/// Every tiling that completes a state with an unassigned cell has its square
/// `k + 1` cornered at the first such cell.
pub(crate) proof fn lemma_next_square(t: Matrix, m: Matrix, n: int, k: int, r: int, c: int) -> (s: int)
    requires
        is_partial(m, n, k),
        first_empty_at(m, r, c),
        is_tiling(t, n),
        extends(t, m, k),
    ensures
        1 <= s,
        r + s <= n,
        c + s <= n,
        k + 1 <= i32::MAX,
        tile_at(t, (k + 1) as i32, r, c, s),
{
    reveal(follows_predecessor);
    let v = t[r][c];
    // The cell is unassigned in `m`, so `v` is above `k`; the id below `v`
    // comes earlier, where `m` is assigned, so it is at most `k`.
    assert(v == k + 1) by {
        if v > 1 {
            let (p, q) = choose|p: int, q: int|
                has_cell(t, p, q) && before(p, q, r, c) && #[trigger] t[p][q] == v - 1;
            assert(m[p][q] != 0);
        }
    }
    // The corner of that square is unassigned in `m` and not after `(r, c)`,
    // the first unassigned cell: it is `(r, c)`.
    let (r0, c0, s0) = choose|r0: int, c0: int, s0: int| tile_at(t, v, r0, c0, s0);
    assert(has_cell(t, r0, c0));
    assert(m[r0][c0] == 0);
    s0
}

/// The tilings that complete the state after placing square `id = k + 1` with
/// side `s` are those completions of the state before whose square `id` has
/// side `s`.
pub(crate) proof fn lemma_completions_after_place(
    t: Matrix,
    m: Matrix,
    n: int,
    k: int,
    r: int,
    c: int,
    s: int,
    id: i32,
)
    requires
        is_partial(m, n, k),
        s >= 1,
        block_fits(m, r, c, s),
        block_is_free(m, r, c, s),
        id == k + 1,
        is_tiling(t, n),
    ensures
        extends(t, with_block(m, r, c, s, id), k + 1) <==> extends(t, m, k) && tile_at(
            t,
            id,
            r,
            c,
            s,
        ),
{
    let m2 = with_block(m, r, c, s, id);
    assert(block_fits(t, r, c, s)) by {
        assert forall|a: int| r <= a < r + s implies c + s <= (#[trigger] t[a]).len() by {
            assert(c + s <= m[a].len());
        }
    }
    if extends(t, m2, k + 1) {
        assert forall|a: int, b: int| has_cell(m, a, b) implies #[trigger] m[a][b] == if t[a][b]
            <= k {
            t[a][b]
        } else {
            0
        } by {
            assert(m2[a][b] == if t[a][b] <= k + 1 {
                t[a][b]
            } else {
                0
            });
        }
        assert forall|a: int, b: int| has_cell(t, a, b) implies (#[trigger] t[a][b] == id
            <==> in_block(a, b, r, c, s)) by {
            assert(m2[a][b] == if t[a][b] <= k + 1 {
                t[a][b]
            } else {
                0
            });
        }
    }
    if extends(t, m, k) && tile_at(t, id, r, c, s) {
        assert forall|a: int, b: int| has_cell(m2, a, b) implies #[trigger] m2[a][b] == if t[a][b]
            <= k + 1 {
            t[a][b]
        } else {
            0
        } by {
            assert(m[a][b] == if t[a][b] <= k {
                t[a][b]
            } else {
                0
            });
        }
    }
}

/// Of two completions of one state, the one whose next square is smaller is
/// listed first.
pub(crate) proof fn lemma_smaller_square_first(
    t1: Matrix,
    t2: Matrix,
    m: Matrix,
    n: int,
    k: int,
    r: int,
    c: int,
    s1: int,
    s2: int,
    id: i32,
)
    requires
        is_partial(m, n, k),
        first_empty_at(m, r, c),
        id == k + 1,
        is_tiling(t1, n),
        is_tiling(t2, n),
        extends(t1, m, k),
        extends(t2, m, k),
        tile_at(t1, id, r, c, s1),
        tile_at(t2, id, r, c, s2),
        s1 < s2,
    ensures
        precedes(t1, t2),
{
    // Just right of the smaller square `t2` still holds `id`, and `t1` holds a
    // later id. Before that cell both hold what `m` holds, or `id`.
    let q = c + s1;
    assert(m[r][q] == 0);
    assert(agree_before(t1, t2, r, q)) by {
        assert forall|i: int, j: int|
            has_cell(t1, i, j) && has_cell(t2, i, j) && before(i, j, r, q) implies #[trigger] t1[i][j]
            == t2[i][j] by {
            if before(i, j, r, c) {
                assert(m[i][j] != 0);
            }
        }
    }
}

/// No tiling that completes a state puts its next square on a block that is
/// not free.
pub(crate) proof fn lemma_blocked_square(t: Matrix, m: Matrix, n: int, k: int, r: int, c: int, s: int, id: i32)
    requires
        is_partial(m, n, k),
        block_fits(m, r, c, s),
        !block_is_free(m, r, c, s),
        id == k + 1,
        is_tiling(t, n),
        extends(t, m, k),
    ensures
        !tile_at(t, id, r, c, s),
{
    // An assigned cell of the block holds an id of at most `k` in `t` too.
    let (a, b) = choose|a: int, b: int| in_block(a, b, r, c, s) && #[trigger] m[a][b] != 0;
    assert(has_cell(t, a, b) && t[a][b] <= k);
}

/// In a state of the search an id is at most the number of cells scanned up to
/// and including its own.
pub(crate) proof fn lemma_id_bound(m: Matrix, n: int, k: int, r: int, c: int)
    requires
        is_partial(m, n, k),
        has_cell(m, r, c),
    ensures
        m[r][c] <= r * n + c + 1,
    decreases r, c,
{
    reveal(follows_predecessor);
    let v = m[r][c];
    assert(r * n >= 0) by (nonlinear_arith)
        requires
            r >= 0,
            n >= 0,
    ;
    if v > 1 {
        let (p, q) = choose|p: int, q: int|
            has_cell(m, p, q) && before(p, q, r, c) && #[trigger] m[p][q] == v - 1;
        lemma_id_bound(m, n, k, p, q);
        if p < r {
            assert((p + 1) * n <= r * n) by (nonlinear_arith)
                requires
                    p + 1 <= r,
                    n >= 0,
            ;
            assert((p + 1) * n == p * n + n) by (nonlinear_arith);
        }
    }
}

/// A state of the search on the `n x n` grid holds at most `n * n` squares.
pub(crate) proof fn lemma_square_count(m: Matrix, n: int, k: int)
    requires
        is_partial(m, n, k),
    ensures
        k <= n * n,
{
    if k >= 1 {
        let (i, j) = choose|i: int, j: int|
            has_cell(m, i, j) && m[i][j] == k && #[trigger] settled_before(m, i, j);
        lemma_id_bound(m, n, k, i, j);
        assert(i * n + n <= n * n) by (nonlinear_arith)
            requires
                i + 1 <= n,
                n >= 0,
        ;
    }
}

} // verus!
