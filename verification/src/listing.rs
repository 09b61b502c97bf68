//! The bookkeeping of the search: which completions have been listed so far.

use vstd::prelude::*;
use crate::matrix::{Matrix, block_fits, block_is_free, with_block};
use crate::step::{
    lemma_blocked_square, lemma_completions_after_place, lemma_full_is_tiling, lemma_next_square,
    lemma_smaller_square_first,
};
use crate::tiling::{
    extends, first_empty_at, is_full, is_partial, is_tiling, keeps_prefix, lists_completions,
    precedes, tile_at,
};

verus! {

/// Square `id` of `t` is cornered at `(r, c)` and its side is below `s`.
pub(crate) open spec fn next_side_below(t: Matrix, id: i32, r: int, c: int, s: int) -> bool {
    exists|w: int| w < s && #[trigger] tile_at(t, id, r, c, w)
}

/// The entries of `all` from index `from` on are those completions of the state
/// `m` with `k` squares whose next square, cornered at `(r, c)`, has a side
/// below `s`: each once, in listing order.
pub(crate) open spec fn lists_below(
    all: Seq<Matrix>,
    from: int,
    m: Matrix,
    n: int,
    k: int,
    r: int,
    c: int,
    s: int,
) -> bool {
    &&& 0 <= from <= all.len()
    &&& forall|i: int|
        from <= i < all.len() ==> is_tiling(#[trigger] all[i], n) && extends(all[i], m, k)
            && next_side_below(all[i], (k + 1) as i32, r, c, s)
    &&& forall|t: Matrix|
        #![trigger is_tiling(t, n)]
        is_tiling(t, n) && extends(t, m, k) && next_side_below(t, (k + 1) as i32, r, c, s)
            ==> exists|i: int| from <= i < all.len() && #[trigger] all[i] == t
    &&& forall|i: int, j: int|
        from <= i < j < all.len() ==> precedes(#[trigger] all[i], #[trigger] all[j])
}

/// Before any side is tried nothing is listed.
pub(crate) proof fn lemma_listing_start(all: Seq<Matrix>, m: Matrix, n: int, k: int, r: int, c: int)
    ensures
        lists_below(all, all.len() as int, m, n, k, r, c, 1),
{
}

/// A side whose block is not free adds nothing.
pub(crate) proof fn lemma_listing_skip(
    all: Seq<Matrix>,
    from: int,
    m: Matrix,
    n: int,
    k: int,
    r: int,
    c: int,
    s: int,
)
    requires
        lists_below(all, from, m, n, k, r, c, s),
        is_partial(m, n, k),
        k < i32::MAX,
        block_fits(m, r, c, s),
        !block_is_free(m, r, c, s),
    ensures
        lists_below(all, from, m, n, k, r, c, s + 1),
{
    let id = (k + 1) as i32;
    assert forall|t: Matrix|
        #![trigger is_tiling(t, n)]
        is_tiling(t, n) && extends(t, m, k) && next_side_below(t, id, r, c, s + 1) implies exists|
        i: int,
    |
        from <= i < all.len() && #[trigger] all[i] == t by {
        lemma_blocked_square(t, m, n, k, r, c, s, id);
        let w = choose|w: int| w < s + 1 && #[trigger] tile_at(t, id, r, c, w);
        assert(w < s);
        assert(next_side_below(t, id, r, c, s));
    }
    assert forall|i: int| from <= i < all.len() implies next_side_below(
        #[trigger] all[i],
        id,
        r,
        c,
        s + 1,
    ) by {
        let w = choose|w: int| w < s && #[trigger] tile_at(all[i], id, r, c, w);
        assert(w < s + 1);
    }
}

/// A side whose block is free adds the completions of the state with that
/// square placed, after all that was listed before.
pub(crate) proof fn lemma_listing_grow(
    mid: Seq<Matrix>,
    after: Seq<Matrix>,
    from: int,
    m: Matrix,
    n: int,
    k: int,
    r: int,
    c: int,
    s: int,
)
    requires
        lists_below(mid, from, m, n, k, r, c, s),
        is_partial(m, n, k),
        first_empty_at(m, r, c),
        k < i32::MAX,
        s >= 1,
        block_fits(m, r, c, s),
        block_is_free(m, r, c, s),
        keeps_prefix(after, mid),
        lists_completions(after, mid.len() as int, with_block(m, r, c, s, (k + 1) as i32), n, k + 1),
    ensures
        lists_below(after, from, m, n, k, r, c, s + 1),
{
    let id = (k + 1) as i32;
    let m2 = with_block(m, r, c, s, id);
    assert forall|i: int| from <= i < after.len() implies is_tiling(#[trigger] after[i], n)
        && extends(after[i], m, k) && next_side_below(after[i], id, r, c, s + 1) by {
        if i < mid.len() {
            assert(after[i] == mid[i]);
            let w = choose|w: int| w < s && #[trigger] tile_at(mid[i], id, r, c, w);
            assert(w < s + 1);
        } else {
            lemma_completions_after_place(after[i], m, n, k, r, c, s, id);
            assert(tile_at(after[i], id, r, c, s));
        }
    }
    assert forall|t: Matrix|
        #![trigger is_tiling(t, n)]
        is_tiling(t, n) && extends(t, m, k) && next_side_below(t, id, r, c, s + 1) implies exists|
        i: int,
    |
        from <= i < after.len() && #[trigger] after[i] == t by {
        let w = choose|w: int| w < s + 1 && #[trigger] tile_at(t, id, r, c, w);
        if w < s {
            assert(next_side_below(t, id, r, c, s));
            let i = choose|i: int| from <= i < mid.len() && #[trigger] mid[i] == t;
            assert(after[i] == t);
        } else {
            lemma_completions_after_place(t, m, n, k, r, c, s, id);
            assert(extends(t, m2, k + 1));
            let i = choose|i: int| mid.len() <= i < after.len() && #[trigger] after[i] == t;
            assert(after[i] == t);
        }
    }
    assert forall|i: int, j: int| from <= i < j < after.len() implies precedes(
        #[trigger] after[i],
        #[trigger] after[j],
    ) by {
        if j < mid.len() {
            assert(after[i] == mid[i] && after[j] == mid[j]);
        } else if i < mid.len() {
            assert(after[i] == mid[i]);
            let w = choose|w: int| w < s && #[trigger] tile_at(mid[i], id, r, c, w);
            lemma_completions_after_place(after[j], m, n, k, r, c, s, id);
            lemma_smaller_square_first(after[i], after[j], m, n, k, r, c, w, s, id);
        }
    }
}

/// Once every side that fits has been tried, all completions are listed.
pub(crate) proof fn lemma_listing_done(
    all: Seq<Matrix>,
    from: int,
    m: Matrix,
    n: int,
    k: int,
    r: int,
    c: int,
    s: int,
)
    requires
        lists_below(all, from, m, n, k, r, c, s),
        is_partial(m, n, k),
        first_empty_at(m, r, c),
        s > n - r || s > n - c,
    ensures
        lists_completions(all, from, m, n, k),
{
    assert forall|t: Matrix|
        #![trigger is_tiling(t, n)]
        is_tiling(t, n) && extends(t, m, k) implies exists|i: int|
        from <= i < all.len() && #[trigger] all[i] == t by {
        let w = lemma_next_square(t, m, n, k, r, c);
        assert(next_side_below(t, (k + 1) as i32, r, c, s));
    }
}

/// A state with no unassigned cell is its own single completion.
pub(crate) proof fn lemma_listing_leaf(all: Seq<Matrix>, earlier: Seq<Matrix>, m: Matrix, n: int, k: int)
    requires
        is_partial(m, n, k),
        is_full(m),
        all == earlier.push(m),
    ensures
        keeps_prefix(all, earlier),
        lists_completions(all, earlier.len() as int, m, n, k),
{
    lemma_full_is_tiling(m, n, k);
    assert(all[earlier.len() as int] == m);
}

} // verus!
