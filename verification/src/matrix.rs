//! The mathematical model of a grid of tile ids.

use vstd::prelude::*;

verus! {

/// A table of tile ids as contracts see it: a sequence of rows.
pub type Matrix = Seq<Seq<i32>>;

/// `(r, c)` names a cell of `m`.
pub open spec fn has_cell(m: Matrix, r: int, c: int) -> bool {
    0 <= r < m.len() && 0 <= c < m[r].len()
}

/// Row-major order on cells: `(r1, c1)` is scanned strictly before `(r2, c2)`.
pub open spec fn before(r1: int, c1: int, r2: int, c2: int) -> bool {
    r1 < r2 || (r1 == r2 && c1 < c2)
}

/// `m` has `n` rows of `n` cells each.
pub open spec fn is_square_grid(m: Matrix, n: int) -> bool {
    m.len() == n && forall|r: int| 0 <= r < n ==> (#[trigger] m[r]).len() == n
}

/// `(r, c)` lies in the block of side `s` whose top-left corner is `(r0, c0)`.
pub open spec fn in_block(r: int, c: int, r0: int, c0: int, s: int) -> bool {
    r0 <= r < r0 + s && c0 <= c < c0 + s
}

/// The block of side `s` at `(r0, c0)` lies inside `m`.
pub open spec fn block_fits(m: Matrix, r0: int, c0: int, s: int) -> bool {
    &&& 0 <= r0 && 0 <= c0 && 0 <= s
    &&& r0 + s <= m.len()
    &&& forall|r: int| r0 <= r < r0 + s ==> c0 + s <= (#[trigger] m[r]).len()
}

/// `m` with every cell of the block of side `s` at `(r0, c0)` set to `id`.
pub open spec fn with_block(m: Matrix, r0: int, c0: int, s: int, id: i32) -> Matrix {
    Seq::new(
        m.len(),
        |r: int|
            Seq::new(
                m[r].len(),
                |c: int|
                    if in_block(r, c, r0, c0, s) {
                        id
                    } else {
                        m[r][c]
                    },
            ),
    )
}

/// Every cell of the block of side `s` at `(r0, c0)` holds 0.
pub open spec fn block_is_free(m: Matrix, r0: int, c0: int, s: int) -> bool {
    forall|r: int, c: int| in_block(r, c, r0, c0, s) ==> #[trigger] m[r][c] == 0
}

/// What the deep view of a vector of rows is, row by row, and that its
/// dimensions are machine-sized.
pub proof fn lemma_cells(grid: &Vec<Vec<i32>>)
    ensures
        grid.deep_view().len() == grid@.len(),
        grid@.len() <= usize::MAX,
        forall|r: int|
            #![trigger grid.deep_view()[r]]
            #![trigger grid@[r]]
            0 <= r < grid@.len() ==> grid.deep_view()[r] == grid@[r]@ && grid@[r]@.len()
                <= usize::MAX,
{
    assert forall|r: int|
        #![trigger grid.deep_view()[r]]
        #![trigger grid@[r]]
        0 <= r < grid@.len() implies grid.deep_view()[r] == grid@[r]@ && grid@[r]@.len()
        <= usize::MAX by {
        assert(grid.deep_view()[r] =~= grid@[r]@);
        assert(grid@[r].len() <= usize::MAX);
    }
    assert(grid.len() <= usize::MAX);
}

} // verus!
