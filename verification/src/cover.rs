//! What the layout of a tiling is: its squares, one per id, which cover the
//! grid without gap or overlap.

use vstd::prelude::*;
use crate::layout::{
    Square, frames, has_square_boxes, is_bounding_box, is_layout, is_layout_of, occurs,
};
use crate::matrix::{Matrix, before, has_cell, in_block};
use crate::order::ascending;
use crate::tiling::{follows_predecessor, in_square_tile, is_tiling, tile_at};

verus! {

/// The cell `(r, c)` lies in `sq`.
pub open spec fn covers(sq: Square, r: int, c: int) -> bool {
    in_block(r, c, sq.row as int, sq.col as int, sq.size as int)
}

/// Where the cells of an id are a square block, that block is their bounding
/// box.
pub proof fn lemma_box_of_tile(
    m: Matrix,
    id: i32,
    a: int,
    b: int,
    s: int,
    r0: int,
    c0: int,
    r1: int,
    c1: int,
)
    requires
        tile_at(m, id, a, b, s),
        is_bounding_box(m, id, r0, c0, r1, c1),
    ensures
        r0 == a,
        c0 == b,
        r1 == a + s - 1,
        c1 == b + s - 1,
{
    assert(b + s <= m[a].len());
    assert(b + s <= m[a + s - 1].len());
    assert(has_cell(m, a, b) && in_block(a, b, a, b, s));
    assert(m[a][b] == id);
    assert(has_cell(m, a + s - 1, b + s - 1) && in_block(a + s - 1, b + s - 1, a, b, s));
    assert(m[a + s - 1][b + s - 1] == id);
    let j0 = choose|c: int| has_cell(m, r0, c) && #[trigger] m[r0][c] == id;
    assert(in_block(r0, j0, a, b, s));
    let j1 = choose|c: int| has_cell(m, r1, c) && #[trigger] m[r1][c] == id;
    assert(in_block(r1, j1, a, b, s));
    let i0 = choose|r: int| has_cell(m, r, c0) && #[trigger] m[r][c0] == id;
    assert(in_block(i0, c0, a, b, s));
    let i1 = choose|r: int| has_cell(m, r, c1) && #[trigger] m[r][c1] == id;
    assert(in_block(i1, c1, a, b, s));
}

/// In a tiling every bounding box is a square, so its layout can be derived.
pub proof fn lemma_tiling_has_square_boxes(m: Matrix, n: int)
    requires
        is_tiling(m, n),
    ensures
        has_square_boxes(m),
{
    assert forall|id: i32, r0: int, c0: int, r1: int, c1: int|
        id > 0 && #[trigger] is_bounding_box(m, id, r0, c0, r1, c1) implies r1 - r0 == c1 - c0 by {
        let j0 = choose|c: int| has_cell(m, r0, c) && #[trigger] m[r0][c] == id;
        assert(in_square_tile(m, r0, j0));
        let (a, b, s) = choose|a: int, b: int, s: int| tile_at(m, id, a, b, s);
        lemma_box_of_tile(m, id, a, b, s, r0, c0, r1, c1);
    }
}

/// In a tiling every id above 1 comes with the id just below it.
pub proof fn lemma_predecessor_occurs(m: Matrix, n: int, v: i32)
    requires
        is_tiling(m, n),
        occurs(m, v),
        v > 1,
    ensures
        occurs(m, (v - 1) as i32),
{
    reveal(follows_predecessor);
    let (r, c) = choose|r: int, c: int| has_cell(m, r, c) && #[trigger] m[r][c] == v;
    let (p, q) = choose|p: int, q: int|
        has_cell(m, p, q) && before(p, q, r, c) && #[trigger] m[p][q] == v - 1;
    assert(has_cell(m, p, q) && m[p][q] == (v - 1) as i32);
}

/// The ids of a tiling are 1, 2, 3, ... without a gap: the layout has one
/// square for each, and the square at index `i` is that of id `i + 1`.
proof fn lemma_layout_counts_ids(m: Matrix, n: int, ids: Seq<i32>, squares: Seq<Square>, i: int)
    requires
        is_tiling(m, n),
        is_layout_of(m, ids, squares),
        0 <= i < ids.len(),
    ensures
        ids[i] == i + 1,
    decreases i,
{
    let v = ids[i];
    assert(v > 0 && occurs(m, v));
    if i > 0 {
        lemma_layout_counts_ids(m, n, ids, squares, i - 1);
        assert(ids[i - 1] < ids[i]);
    }
    if v > i + 1 {
        lemma_predecessor_occurs(m, n, v);
        let u = (v - 1) as i32;
        assert(ids.contains(u));
        let j = choose|j: int| 0 <= j < ids.len() && ids[j] == u;
        if j >= i {
            if j > i {
                assert(ids[i] < ids[j]);
            }
        } else if i > 0 && j < i - 1 {
            assert(ids[j] < ids[i - 1]);
        }
    }
}

/// The layout of a tiling lists its squares by id: the entry at index `i`
/// frames the cells that hold `i + 1`, and no id is left out.
pub proof fn lemma_layout_by_id(m: Matrix, n: int, squares: Seq<Square>)
    requires
        is_tiling(m, n),
        is_layout(m, squares),
    ensures
        squares.len() <= i32::MAX,
        forall|i: int| 0 <= i < squares.len() ==> frames(m, (i + 1) as i32, #[trigger] squares[i]),
        forall|r: int, c: int| has_cell(m, r, c) ==> 1 <= #[trigger] m[r][c] <= squares.len(),
{
    let ids = choose|ids: Seq<i32>| is_layout_of(m, ids, squares);
    if squares.len() > 0 {
        lemma_layout_counts_ids(m, n, ids, squares, squares.len() - 1);
    }
    assert forall|i: int| 0 <= i < squares.len() implies frames(
        m,
        (i + 1) as i32,
        #[trigger] squares[i],
    ) by {
        lemma_layout_counts_ids(m, n, ids, squares, i);
        assert(frames(m, ids[i], squares[i]));
    }
    assert forall|r: int, c: int| has_cell(m, r, c) implies 1 <= #[trigger] m[r][c]
        <= squares.len() by {
        let v = m[r][c];
        assert(occurs(m, v));
        assert(ids.contains(v));
        let j = choose|j: int| 0 <= j < ids.len() && ids[j] == v;
        lemma_layout_counts_ids(m, n, ids, squares, j);
    }
}

/// The squares of a tiling's layout lie inside the grid, and every cell of the
/// grid lies in exactly one of them: the squares leave no gap and do not
/// overlap.
pub proof fn lemma_layout_partitions_grid(m: Matrix, n: int, squares: Seq<Square>)
    requires
        is_tiling(m, n),
        is_layout(m, squares),
    ensures
        forall|i: int|
            0 <= i < squares.len() ==> {
                let sq = #[trigger] squares[i];
                sq.size >= 1 && sq.row + sq.size <= n && sq.col + sq.size <= n
            },
        forall|r: int, c: int|
            0 <= r < n && 0 <= c < n ==> 0 <= #[trigger] m[r][c] - 1 < squares.len() && covers(
                squares[m[r][c] - 1],
                r,
                c,
            ),
        forall|i: int, r: int, c: int|
            0 <= i < squares.len() && 0 <= r < n && 0 <= c < n && covers(#[trigger] squares[i], r, c)
                ==> #[trigger] m[r][c] == i + 1,
{
    lemma_layout_by_id(m, n, squares);
    assert forall|i: int| 0 <= i < squares.len() implies {
        let sq = #[trigger] squares[i];
        &&& tile_at(m, (i + 1) as i32, sq.row as int, sq.col as int, sq.size as int)
        &&& sq.size >= 1 && sq.row + sq.size <= n && sq.col + sq.size <= n
    } by {
        let sq = squares[i];
        let id = (i + 1) as i32;
        assert(frames(m, id, sq));
        let j0 = choose|c: int| has_cell(m, sq.row as int, c) && #[trigger] m[sq.row as int][c] == id;
        assert(in_square_tile(m, sq.row as int, j0));
        let (a, b, s) = choose|a: int, b: int, s: int| tile_at(m, id, a, b, s);
        lemma_box_of_tile(
            m,
            id,
            a,
            b,
            s,
            sq.row as int,
            sq.col as int,
            sq.row + sq.size - 1,
            sq.col + sq.size - 1,
        );
        assert(b + s <= m[a].len());
    }
    assert forall|r: int, c: int| 0 <= r < n && 0 <= c < n implies 0 <= #[trigger] m[r][c] - 1
        < squares.len() && covers(squares[m[r][c] - 1], r, c) by {
        assert(has_cell(m, r, c));
        let i = m[r][c] - 1;
        let sq = squares[i];
        assert(tile_at(m, (i + 1) as i32, sq.row as int, sq.col as int, sq.size as int));
    }
    assert forall|i: int, r: int, c: int|
        0 <= i < squares.len() && 0 <= r < n && 0 <= c < n && covers(
            #[trigger] squares[i],
            r,
            c,
        ) implies #[trigger] m[r][c] == i + 1 by {
        assert(has_cell(m, r, c));
        let sq = squares[i];
        assert(tile_at(m, (i + 1) as i32, sq.row as int, sq.col as int, sq.size as int));
    }
}

/// No two entries of a tiling's layout are the same square: the layout has as
/// many distinct entries as the tiling has ids.
pub proof fn lemma_layout_squares_distinct(m: Matrix, n: int, squares: Seq<Square>)
    requires
        is_tiling(m, n),
        is_layout(m, squares),
    ensures
        squares.no_duplicates(),
{
    lemma_layout_partitions_grid(m, n, squares);
    assert forall|i: int, j: int|
        0 <= i < squares.len() && 0 <= j < squares.len() && i != j implies squares[i]
        != squares[j] by {
        let sq = squares[i];
        assert(covers(sq, sq.row as int, sq.col as int));
        if squares[j] == sq {
            assert(covers(squares[j], sq.row as int, sq.col as int));
            assert(m[sq.row as int][sq.col as int] == i + 1);
            assert(m[sq.row as int][sq.col as int] == j + 1);
        }
    }
}

/// Two ascending sequences with the same entries are the same sequence.
proof fn lemma_ascending_unique(a: Seq<i32>, b: Seq<i32>)
    requires
        ascending(a),
        ascending(b),
        forall|i: int| 0 <= i < a.len() ==> b.contains(#[trigger] a[i]),
        forall|j: int| 0 <= j < b.len() ==> a.contains(#[trigger] b[j]),
    ensures
        a == b,
    decreases a.len(),
{
    if a.len() == 0 {
        if b.len() > 0 {
            assert(a.contains(b[0]));
        }
        assert(a =~= b);
    } else {
        assert(b.contains(a[0]));
        let j0 = choose|j: int| 0 <= j < b.len() && b[j] == a[0];
        assert(a.contains(b[0]));
        let i0 = choose|i: int| 0 <= i < a.len() && a[i] == b[0];
        assert(a[0] == b[0]) by {
            if j0 > 0 && i0 > 0 {
                assert(b[0] < b[j0]);
                assert(a[0] < a[i0]);
            }
        }
        let ta = a.subrange(1, a.len() as int);
        let tb = b.subrange(1, b.len() as int);
        assert forall|i: int| 0 <= i < ta.len() implies tb.contains(#[trigger] ta[i]) by {
            assert(b.contains(a[i + 1]));
            let j = choose|j: int| 0 <= j < b.len() && b[j] == a[i + 1];
            assert(a[0] < a[i + 1]);
            assert(tb[j - 1] == ta[i]);
        }
        assert forall|j: int| 0 <= j < tb.len() implies ta.contains(#[trigger] tb[j]) by {
            assert(a.contains(b[j + 1]));
            let i = choose|i: int| 0 <= i < a.len() && a[i] == b[j + 1];
            assert(b[0] < b[j + 1]);
            assert(ta[i - 1] == tb[j]);
        }
        assert(ascending(ta)) by {
            assert forall|i: int, j: int| 0 <= i < j < ta.len() implies ta[i] < ta[j] by {
                assert(a[i + 1] < a[j + 1]);
            }
        }
        assert(ascending(tb)) by {
            assert forall|i: int, j: int| 0 <= i < j < tb.len() implies tb[i] < tb[j] by {
                assert(b[i + 1] < b[j + 1]);
            }
        }
        lemma_ascending_unique(ta, tb);
        assert forall|i: int| 0 <= i < a.len() implies a[i] == b[i] by {
            if i > 0 {
                assert(ta[i - 1] == tb[i - 1]);
            }
        }
        assert(a =~= b);
    }
}

/// The cells of an id have one bounding box.
pub proof fn lemma_bounding_box_unique(
    m: Matrix,
    id: i32,
    r0: int,
    c0: int,
    r1: int,
    c1: int,
    top: int,
    left: int,
    bottom: int,
    right: int,
)
    requires
        is_bounding_box(m, id, r0, c0, r1, c1),
        is_bounding_box(m, id, top, left, bottom, right),
    ensures
        r0 == top,
        c0 == left,
        r1 == bottom,
        c1 == right,
{
    let a = choose|c: int| has_cell(m, r0, c) && #[trigger] m[r0][c] == id;
    let b = choose|c: int| has_cell(m, top, c) && #[trigger] m[top][c] == id;
    assert(m[r0][a] == id && m[top][b] == id);
    let a = choose|c: int| has_cell(m, r1, c) && #[trigger] m[r1][c] == id;
    let b = choose|c: int| has_cell(m, bottom, c) && #[trigger] m[bottom][c] == id;
    assert(m[r1][a] == id && m[bottom][b] == id);
    let a = choose|r: int| has_cell(m, r, c0) && #[trigger] m[r][c0] == id;
    let b = choose|r: int| has_cell(m, r, left) && #[trigger] m[r][left] == id;
    assert(m[a][c0] == id && m[b][left] == id);
    let a = choose|r: int| has_cell(m, r, c1) && #[trigger] m[r][c1] == id;
    let b = choose|r: int| has_cell(m, r, right) && #[trigger] m[r][right] == id;
    assert(m[a][c1] == id && m[b][right] == id);
}

/// A matrix has one layout: two sequences of squares that are each a layout
/// of it are equal entry by entry.
pub proof fn lemma_layout_unique(m: Matrix, a: Seq<Square>, b: Seq<Square>)
    requires
        is_layout(m, a),
        is_layout(m, b),
    ensures
        a == b,
{
    let ia = choose|ids: Seq<i32>| is_layout_of(m, ids, a);
    let ib = choose|ids: Seq<i32>| is_layout_of(m, ids, b);
    assert forall|i: int| 0 <= i < ia.len() implies ib.contains(#[trigger] ia[i]) by {
        assert(occurs(m, ia[i]));
    }
    assert forall|j: int| 0 <= j < ib.len() implies ia.contains(#[trigger] ib[j]) by {
        assert(occurs(m, ib[j]));
    }
    lemma_ascending_unique(ia, ib);
    assert forall|i: int| 0 <= i < a.len() implies a[i] == b[i] by {
        assert(frames(m, ia[i], a[i]));
        assert(frames(m, ib[i], b[i]));
        lemma_bounding_box_unique(
            m,
            ia[i],
            a[i].row as int,
            a[i].col as int,
            a[i].row + a[i].size - 1,
            a[i].col + a[i].size - 1,
            b[i].row as int,
            b[i].col as int,
            b[i].row + b[i].size - 1,
            b[i].col + b[i].size - 1,
        );
    }
    assert(a =~= b);
}

} // verus!
