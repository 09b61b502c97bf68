//! What a tiling is, and in which order tilings are listed.

use vstd::prelude::*;
use crate::matrix::{Matrix, before, block_fits, has_cell, in_block, is_square_grid};

verus! {

/// The cells of `m` that hold `id` are exactly the block of side `s` at
/// `(r0, c0)`, and that block is a non-empty part of `m`.
pub open spec fn tile_at(m: Matrix, id: i32, r0: int, c0: int, s: int) -> bool {
    &&& s >= 1
    &&& block_fits(m, r0, c0, s)
    &&& forall|r: int, c: int|
        has_cell(m, r, c) ==> (#[trigger] m[r][c] == id <==> in_block(r, c, r0, c0, s))
}

/// The id at `(r, c)` marks out one whole square of `m`.
pub open spec fn in_square_tile(m: Matrix, r: int, c: int) -> bool {
    exists|r0: int, c0: int, s: int| tile_at(m, m[r][c], r0, c0, s)
}

/// An id above 1 at `(r, c)` is met only after the id just below it in a
/// row-major scan, so that ids count the tiles in the order of their
/// top-left corners. The body is opaque, to keep it from unfolding down the
/// chain of ids: a proof that needs it says `reveal(follows_predecessor)`.
#[verifier::opaque]
pub open spec fn follows_predecessor(m: Matrix, r: int, c: int) -> bool {
    m[r][c] > 1 ==> exists|i: int, j: int|
        has_cell(m, i, j) && before(i, j, r, c) && #[trigger] m[i][j] == m[r][c] - 1
}

/// `m` is a complete tiling of the `n x n` grid: every cell holds a positive
/// id, the cells of each id form one square, and the ids 1, 2, 3, ... are given
/// to the squares in the row-major order of their top-left corners.
pub open spec fn is_tiling(m: Matrix, n: int) -> bool {
    &&& is_square_grid(m, n)
    &&& forall|r: int, c: int|
        #![trigger m[r][c]]
        has_cell(m, r, c) ==> m[r][c] >= 1 && in_square_tile(m, r, c) && follows_predecessor(
            m,
            r,
            c,
        )
}

/// Every cell of `m` scanned before `(r, c)` is assigned.
pub open spec fn settled_before(m: Matrix, r: int, c: int) -> bool {
    forall|i: int, j: int| has_cell(m, i, j) && before(i, j, r, c) ==> #[trigger] m[i][j] != 0
}

/// `(r, c)` is the first unassigned cell of `m` in row-major order.
pub open spec fn first_empty_at(m: Matrix, r: int, c: int) -> bool {
    has_cell(m, r, c) && m[r][c] == 0 && settled_before(m, r, c)
}

/// No cell of `m` is unassigned.
pub open spec fn is_full(m: Matrix) -> bool {
    forall|i: int, j: int| has_cell(m, i, j) ==> #[trigger] m[i][j] != 0
}

/// `m` is a state of the search on the `n x n` grid after `k` squares were
/// placed: the assigned cells form the squares 1 to `k`, numbered in the order
/// of their corners, and nothing is unassigned up to the corner of square `k`.
pub open spec fn is_partial(m: Matrix, n: int, k: int) -> bool {
    &&& is_square_grid(m, n)
    &&& 0 <= k
    &&& forall|r: int, c: int|
        #![trigger m[r][c]]
        has_cell(m, r, c) ==> 0 <= m[r][c] <= k && (m[r][c] != 0 ==> in_square_tile(m, r, c)
            && follows_predecessor(m, r, c))
    &&& k >= 1 ==> exists|i: int, j: int|
        has_cell(m, i, j) && m[i][j] == k && #[trigger] settled_before(m, i, j)
}

/// The tiling `t` completes the state `m` in which `k` squares were placed:
/// `m` is `t` with every id above `k` wiped out.
pub open spec fn extends(t: Matrix, m: Matrix, k: int) -> bool {
    forall|r: int, c: int|
        has_cell(m, r, c) ==> #[trigger] m[r][c] == if t[r][c] <= k {
            t[r][c]
        } else {
            0
        }
}

/// `a` and `b` hold the same id in every cell scanned before `(r, c)`.
pub open spec fn agree_before(a: Matrix, b: Matrix, r: int, c: int) -> bool {
    forall|i: int, j: int|
        has_cell(a, i, j) && has_cell(b, i, j) && before(i, j, r, c) ==> #[trigger] a[i][j]
            == b[i][j]
}

/// The order in which tilings are listed: `a` comes before `b` when, at the
/// first cell of a row-major scan in which they differ, `a` holds the larger
/// id. At that cell `a` has begun a new square where `b` continues one, so `a`
/// took the smaller square at the last corner they share.
pub open spec fn precedes(a: Matrix, b: Matrix) -> bool {
    exists|r: int, c: int|
        has_cell(a, r, c) && has_cell(b, r, c) && a[r][c] > b[r][c] && #[trigger] agree_before(
            a,
            b,
            r,
            c,
        )
}

/// `later` begins with the entries of `earlier`.
pub open spec fn keeps_prefix(later: Seq<Matrix>, earlier: Seq<Matrix>) -> bool {
    &&& earlier.len() <= later.len()
    &&& forall|i: int| 0 <= i < earlier.len() ==> #[trigger] later[i] == earlier[i]
}

/// The entries of `all` from index `from` on are the tilings of the `n x n`
/// grid that complete the state `m` with `k` squares, each once, in listing
/// order.
pub open spec fn lists_completions(all: Seq<Matrix>, from: int, m: Matrix, n: int, k: int) -> bool {
    &&& 0 <= from <= all.len()
    &&& forall|i: int|
        from <= i < all.len() ==> is_tiling(#[trigger] all[i], n) && extends(all[i], m, k)
    &&& forall|t: Matrix|
        #![trigger is_tiling(t, n)]
        is_tiling(t, n) && extends(t, m, k) ==> exists|i: int|
            from <= i < all.len() && #[trigger] all[i] == t
    &&& forall|i: int, j: int|
        from <= i < j < all.len() ==> precedes(#[trigger] all[i], #[trigger] all[j])
}

/// `sols` lists the tilings of the `n x n` grid, each once, in listing order.
pub open spec fn is_enumeration(sols: Seq<Matrix>, n: int) -> bool {
    &&& forall|i: int| 0 <= i < sols.len() ==> is_tiling(#[trigger] sols[i], n)
    &&& forall|t: Matrix|
        #![trigger is_tiling(t, n)]
        is_tiling(t, n) ==> exists|i: int| 0 <= i < sols.len() && #[trigger] sols[i] == t
    &&& forall|i: int, j: int|
        0 <= i < j < sols.len() ==> precedes(#[trigger] sols[i], #[trigger] sols[j])
}

/// No two tilings come before each other.
pub proof fn lemma_precedes_asymmetric(a: Matrix, b: Matrix)
    ensures
        !(precedes(a, b) && precedes(b, a)),
{
    if precedes(a, b) && precedes(b, a) {
        let (r, c) = choose|r: int, c: int|
            has_cell(a, r, c) && has_cell(b, r, c) && a[r][c] > b[r][c] && #[trigger] agree_before(
                a,
                b,
                r,
                c,
            );
        let (p, q) = choose|p: int, q: int|
            has_cell(b, p, q) && has_cell(a, p, q) && b[p][q] > a[p][q] && #[trigger] agree_before(
                b,
                a,
                p,
                q,
            );
        if before(r, c, p, q) {
            assert(b[r][c] == a[r][c]);
        } else if before(p, q, r, c) {
            assert(a[p][q] == b[p][q]);
        }
    }
}

/// The entries of `a`, in their order, pairwise `precedes` one another.
pub open spec fn in_listing_order(a: Seq<Matrix>) -> bool {
    forall|i: int, j: int| 0 <= i < j < a.len() ==> precedes(#[trigger] a[i], #[trigger] a[j])
}

/// `t` is an entry of `b`.
pub open spec fn is_entry_of(t: Matrix, b: Seq<Matrix>) -> bool {
    exists|j: int| 0 <= j < b.len() && #[trigger] b[j] == t
}

/// Every entry of `a` is an entry of `b`.
pub open spec fn all_found_in(a: Seq<Matrix>, b: Seq<Matrix>) -> bool {
    forall|i: int| 0 <= i < a.len() ==> is_entry_of(#[trigger] a[i], b)
}

/// Two sequences in listing order with the same entries are the same sequence.
pub proof fn lemma_listing_order_unique(a: Seq<Matrix>, b: Seq<Matrix>)
    requires
        in_listing_order(a),
        in_listing_order(b),
        all_found_in(a, b),
        all_found_in(b, a),
    ensures
        a == b,
    decreases a.len(),
{
    if a.len() == 0 {
        if b.len() > 0 {
            assert(is_entry_of(b[0], a));
        }
        assert(a =~= b);
    } else {
        assert(is_entry_of(a[0], b));
        let j0 = choose|j: int| 0 <= j < b.len() && #[trigger] b[j] == a[0];
        assert(is_entry_of(b[0], a));
        let i0 = choose|i: int| 0 <= i < a.len() && #[trigger] a[i] == b[0];
        assert(a[0] == b[0]) by {
            if j0 > 0 && i0 > 0 {
                assert(precedes(b[0], b[j0]));
                assert(precedes(a[0], a[i0]));
                lemma_precedes_asymmetric(a[0], b[0]);
            }
        }
        let ta = a.subrange(1, a.len() as int);
        let tb = b.subrange(1, b.len() as int);
        assert forall|i: int| 0 <= i < ta.len() implies is_entry_of(#[trigger] ta[i], tb) by {
            assert(is_entry_of(a[i + 1], b));
            let j = choose|j: int| 0 <= j < b.len() && #[trigger] b[j] == a[i + 1];
            assert(precedes(a[0], a[i + 1]));
            lemma_precedes_asymmetric(a[0], a[0]);
            assert(j != 0);
            assert(tb[j - 1] == ta[i]);
        }
        assert forall|j: int| 0 <= j < tb.len() implies is_entry_of(#[trigger] tb[j], ta) by {
            assert(is_entry_of(b[j + 1], a));
            let i = choose|i: int| 0 <= i < a.len() && #[trigger] a[i] == b[j + 1];
            assert(precedes(b[0], b[j + 1]));
            lemma_precedes_asymmetric(b[0], b[0]);
            assert(i != 0);
            assert(ta[i - 1] == tb[j]);
        }
        assert forall|i: int, j: int| 0 <= i < j < ta.len() implies precedes(
            #[trigger] ta[i],
            #[trigger] ta[j],
        ) by {
            assert(precedes(a[i + 1], a[j + 1]));
        }
        assert forall|i: int, j: int| 0 <= i < j < tb.len() implies precedes(
            #[trigger] tb[i],
            #[trigger] tb[j],
        ) by {
            assert(precedes(b[i + 1], b[j + 1]));
        }
        lemma_listing_order_unique(ta, tb);
        assert(a.len() == b.len());
        assert forall|i: int| 0 <= i < a.len() implies a[i] == b[i] by {
            if i > 0 {
                assert(ta[i - 1] == tb[i - 1]);
            }
        }
        assert(a =~= b);
    }
}

/// The grid of side `n` has one enumeration: two sequences that each list its
/// tilings, each once, in listing order, are equal entry by entry.
pub proof fn lemma_enumeration_unique(a: Seq<Matrix>, b: Seq<Matrix>, n: int)
    requires
        is_enumeration(a, n),
        is_enumeration(b, n),
    ensures
        a == b,
{
    assert forall|i: int| 0 <= i < a.len() implies is_entry_of(#[trigger] a[i], b) by {
        assert(is_tiling(a[i], n));
    }
    assert forall|j: int| 0 <= j < b.len() implies is_entry_of(#[trigger] b[j], a) by {
        assert(is_tiling(b[j], n));
    }
    lemma_listing_order_unique(a, b);
}

/// The enumeration of the grid of side `n`: its tilings, each once, in listing
/// order. `find_squarings` computes it.
pub open spec fn squarings(n: int) -> Seq<Matrix> {
    choose|sols: Seq<Matrix>| is_enumeration(sols, n)
}

/// Any enumeration of the grid of side `n` is `squarings(n)`.
pub proof fn lemma_is_squarings(sols: Seq<Matrix>, n: int)
    requires
        is_enumeration(sols, n),
    ensures
        sols == squarings(n),
        is_enumeration(squarings(n), n),
{
    lemma_enumeration_unique(sols, squarings(n), n);
}

/// The grid of side `n` as one square: every cell holds 1.
pub open spec fn whole_grid(n: int) -> Matrix {
    Seq::new(n as nat, |r: int| Seq::new(n as nat, |c: int| 1i32))
}

/// The grid as one square is a tiling, so every side has a tiling.
pub proof fn lemma_whole_grid_is_tiling(n: int)
    requires
        0 <= n,
    ensures
        is_tiling(whole_grid(n), n),
{
    reveal(follows_predecessor);
    let t = whole_grid(n);
    assert forall|r: int, c: int| #![trigger t[r][c]] has_cell(t, r, c) implies t[r][c] >= 1
        && in_square_tile(t, r, c) && follows_predecessor(t, r, c) by {
        assert(t[r][c] == 1);
        assert(block_fits(t, 0, 0, n)) by {
            assert forall|i: int| 0 <= i < n implies n <= (#[trigger] t[i]).len() by {}
        }
        assert forall|i: int, j: int| has_cell(t, i, j) implies (#[trigger] t[i][j] == 1i32
            <==> in_block(i, j, 0, 0, n)) by {}
        assert(tile_at(t, 1i32, 0, 0, n));
    }
}

/// An enumeration is never empty.
pub proof fn lemma_enumeration_nonempty(sols: Seq<Matrix>, n: int)
    requires
        is_enumeration(sols, n),
        0 <= n,
    ensures
        sols.len() > 0,
{
    lemma_whole_grid_is_tiling(n);
}

} // verus!
