//! The squares of a tiling, in the order of their ids.

use std::collections::BTreeMap;
use vstd::prelude::*;
use vstd::std_specs::iter::IteratorSpec;
use crate::matrix::{Matrix, before, has_cell, is_square_grid, lemma_cells};
use crate::order::{ascending, lemma_increasing_is_ascending};

verus! {

/// Position and size of a square within the grid, in cells.
#[derive(Debug, Clone, Copy)]
pub struct Square {
    /// Row of the top-left corner.
    pub row: usize,
    /// Column of the top-left corner.
    pub col: usize,
    /// Side of the square.
    pub size: usize,
}

/// Some cell of `m` holds `id`.
pub open spec fn occurs(m: Matrix, id: i32) -> bool {
    exists|r: int, c: int| has_cell(m, r, c) && #[trigger] m[r][c] == id
}

/// The ids above 0 that `m` holds.
pub open spec fn positive_ids(m: Matrix) -> Set<i32> {
    Set::new(|id: i32| id > 0 && occurs(m, id))
}

/// Rows `r0..=r1` and columns `c0..=c1` are the bounding box of the cells of
/// `m` that hold `id`: all of them lie inside, and one lies on each edge.
pub open spec fn is_bounding_box(m: Matrix, id: i32, r0: int, c0: int, r1: int, c1: int) -> bool {
    &&& forall|r: int, c: int|
        has_cell(m, r, c) && #[trigger] m[r][c] == id ==> r0 <= r <= r1 && c0 <= c <= c1
    &&& exists|c: int| has_cell(m, r0, c) && #[trigger] m[r0][c] == id
    &&& exists|c: int| has_cell(m, r1, c) && #[trigger] m[r1][c] == id
    &&& exists|r: int| has_cell(m, r, c0) && #[trigger] m[r][c0] == id
    &&& exists|r: int| has_cell(m, r, c1) && #[trigger] m[r][c1] == id
}

/// The bounding box of every id above 0 in `m` is as wide as it is high.
pub open spec fn has_square_boxes(m: Matrix) -> bool {
    forall|id: i32, r0: int, c0: int, r1: int, c1: int|
        id > 0 && #[trigger] is_bounding_box(m, id, r0, c0, r1, c1) ==> r1 - r0 == c1 - c0
}

/// `sq` is the bounding box of the cells of `m` that hold `id`.
pub open spec fn frames(m: Matrix, id: i32, sq: Square) -> bool {
    is_bounding_box(
        m,
        id,
        sq.row as int,
        sq.col as int,
        sq.row + sq.size - 1,
        sq.col + sq.size - 1,
    )
}

/// `ids` are the ids above 0 of `m` in ascending order, and `squares` holds
/// the bounding box of each, at the same index.
pub open spec fn is_layout_of(m: Matrix, ids: Seq<i32>, squares: Seq<Square>) -> bool {
    &&& ids.len() == squares.len()
    &&& ascending(ids)
    &&& forall|i: int|
        0 <= i < ids.len() ==> (#[trigger] ids[i]) > 0 && occurs(m, ids[i]) && frames(
            m,
            ids[i],
            squares[i],
        )
    &&& forall|id: i32| id > 0 && #[trigger] occurs(m, id) ==> ids.contains(id)
}

/// `squares` holds one bounding box for each id above 0 of `m`, in ascending
/// order of the ids: as many entries as `m` has such ids.
pub open spec fn is_layout(m: Matrix, squares: Seq<Square>) -> bool {
    &&& squares.len() == positive_ids(m).len()
    &&& exists|ids: Seq<i32>| is_layout_of(m, ids, squares)
}

/// The bounding box found so far for one id: top row, left column, bottom row,
/// right column.
type Extent = (usize, usize, usize, usize);

/// Some cell of `m` scanned before `(lr, lc)` holds `id`.
spec fn occurs_before(m: Matrix, id: i32, lr: int, lc: int) -> bool {
    exists|r: int, c: int| has_cell(m, r, c) && before(r, c, lr, lc) && #[trigger] m[r][c] == id
}

/// `e` is the bounding box of the cells of `m` that hold `id` among those
/// scanned before `(lr, lc)`.
spec fn is_box_before(m: Matrix, id: i32, lr: int, lc: int, e: Extent) -> bool {
    &&& forall|r: int, c: int|
        has_cell(m, r, c) && before(r, c, lr, lc) && #[trigger] m[r][c] == id ==> e.0 <= r <= e.2
            && e.1 <= c <= e.3
    &&& exists|c: int|
        has_cell(m, e.0 as int, c) && before(e.0 as int, c, lr, lc) && #[trigger] m[e.0 as int][c]
            == id
    &&& exists|c: int|
        has_cell(m, e.2 as int, c) && before(e.2 as int, c, lr, lc) && #[trigger] m[e.2 as int][c]
            == id
    &&& exists|r: int|
        has_cell(m, r, e.1 as int) && before(r, e.1 as int, lr, lc) && #[trigger] m[r][e.1 as int]
            == id
    &&& exists|r: int|
        has_cell(m, r, e.3 as int) && before(r, e.3 as int, lr, lc) && #[trigger] m[r][e.3 as int]
            == id
}

/// `boxes` maps each id above 0 met before `(lr, lc)` to its bounding box so
/// far.
spec fn boxes_before(m: Matrix, boxes: Map<i32, Extent>, lr: int, lc: int) -> bool {
    &&& forall|id: i32| #[trigger] boxes.contains_key(id) <==> id > 0 && occurs_before(m, id, lr, lc)
    &&& forall|id: i32| boxes.contains_key(id) ==> is_box_before(m, id, lr, lc, #[trigger] boxes[id])
}

/// `e` grown to hold the cell `(r, c)`.
spec fn grown(e: Extent, r: usize, c: usize) -> Extent {
    (
        if r < e.0 {
            r
        } else {
            e.0
        },
        if c < e.1 {
            c
        } else {
            e.1
        },
        if r > e.2 {
            r
        } else {
            e.2
        },
        if c > e.3 {
            c
        } else {
            e.3
        },
    )
}

/// Scanning one more cell that holds an id above 0 grows the box of that id,
/// or starts it, and leaves the others as they are.
proof fn lemma_scan_cell(m: Matrix, boxes: Map<i32, Extent>, r: usize, c: usize)
    requires
        has_cell(m, r as int, c as int),
        boxes_before(m, boxes, r as int, c as int),
        m[r as int][c as int] > 0,
    ensures
        boxes_before(
            m,
            boxes.insert(
                m[r as int][c as int],
                if boxes.contains_key(m[r as int][c as int]) {
                    grown(boxes[m[r as int][c as int]], r, c)
                } else {
                    (r, c, r, c)
                },
            ),
            r as int,
            c + 1,
        ),
{
    let v = m[r as int][c as int];
    let e = if boxes.contains_key(v) {
        grown(boxes[v], r, c)
    } else {
        (r, c, r, c)
    };
    let after = boxes.insert(v, e);
    assert(before(r as int, c as int, r as int, c + 1));
    assert forall|id: i32| #[trigger] after.contains_key(id) <==> id > 0 && occurs_before(
        m,
        id,
        r as int,
        c + 1,
    ) by {
        if after.contains_key(id) {
            if id != v {
                let (i, j) = choose|i: int, j: int|
                    has_cell(m, i, j) && before(i, j, r as int, c as int) && #[trigger] m[i][j]
                        == id;
                assert(before(i, j, r as int, c + 1));
            }
            assert(occurs_before(m, id, r as int, c + 1));
        }
        if id > 0 && occurs_before(m, id, r as int, c + 1) {
            if id != v {
                let (i, j) = choose|i: int, j: int|
                    has_cell(m, i, j) && before(i, j, r as int, c + 1) && #[trigger] m[i][j]
                        == id;
                assert(before(i, j, r as int, c as int));
                assert(occurs_before(m, id, r as int, c as int));
            }
        }
    }
    assert forall|id: i32| after.contains_key(id) implies is_box_before(
        m,
        id,
        r as int,
        c + 1,
        #[trigger] after[id],
    ) by {
        if id != v {
            let b = boxes[id];
            assert(is_box_before(m, id, r as int, c as int, b));
            lemma_box_carries(m, id, r as int, c as int, r as int, c + 1, b);
        } else if boxes.contains_key(v) {
            let b = boxes[v];
            assert(is_box_before(m, v, r as int, c as int, b));
            lemma_box_grows(m, r, c, b);
        } else {
            assert(!occurs_before(m, v, r as int, c as int));
            let e0: Extent = (r, c, r, c);
            assert forall|i: int, j: int|
                has_cell(m, i, j) && before(i, j, r as int, c + 1) && #[trigger] m[i][j]
                    == v implies e0.0 <= i <= e0.2 && e0.1 <= j <= e0.3 by {
                if before(i, j, r as int, c as int) {
                    assert(occurs_before(m, v, r as int, c as int));
                }
            }
        }
    }
}

/// A box stays the box of its id while no further cell of that id is scanned.
proof fn lemma_box_carries(m: Matrix, id: i32, lr: int, lc: int, lr2: int, lc2: int, e: Extent)
    requires
        is_box_before(m, id, lr, lc, e),
        forall|i: int, j: int|
            has_cell(m, i, j) && #[trigger] m[i][j] == id ==> (before(i, j, lr, lc) <==> before(
                i,
                j,
                lr2,
                lc2,
            )),
    ensures
        is_box_before(m, id, lr2, lc2, e),
{
    let c0 = choose|c: int|
        has_cell(m, e.0 as int, c) && before(e.0 as int, c, lr, lc) && #[trigger] m[e.0 as int][c]
            == id;
    assert(before(e.0 as int, c0, lr2, lc2));
    let c2 = choose|c: int|
        has_cell(m, e.2 as int, c) && before(e.2 as int, c, lr, lc) && #[trigger] m[e.2 as int][c]
            == id;
    assert(before(e.2 as int, c2, lr2, lc2));
    let r1 = choose|r: int|
        has_cell(m, r, e.1 as int) && before(r, e.1 as int, lr, lc) && #[trigger] m[r][e.1 as int]
            == id;
    assert(before(r1, e.1 as int, lr2, lc2));
    let r3 = choose|r: int|
        has_cell(m, r, e.3 as int) && before(r, e.3 as int, lr, lc) && #[trigger] m[r][e.3 as int]
            == id;
    assert(before(r3, e.3 as int, lr2, lc2));
}

/// Scanning a further cell of an id grows its box to hold that cell.
proof fn lemma_box_grows(m: Matrix, r: usize, c: usize, e: Extent)
    requires
        has_cell(m, r as int, c as int),
        is_box_before(m, m[r as int][c as int], r as int, c as int, e),
    ensures
        is_box_before(m, m[r as int][c as int], r as int, c + 1, grown(e, r, c)),
{
    let id = m[r as int][c as int];
    let g = grown(e, r, c);
    let lr = r as int;
    let lc = c as int;
    assert(before(lr, lc, lr, lc + 1));
    let c0 = choose|j: int|
        has_cell(m, e.0 as int, j) && before(e.0 as int, j, lr, lc) && #[trigger] m[e.0 as int][j]
            == id;
    assert(before(e.0 as int, c0, lr, lc + 1));
    assert(has_cell(m, g.0 as int, if r < e.0 { lc } else { c0 }));
    assert(m[g.0 as int][if r < e.0 { lc } else { c0 }] == id);
    let c2 = choose|j: int|
        has_cell(m, e.2 as int, j) && before(e.2 as int, j, lr, lc) && #[trigger] m[e.2 as int][j]
            == id;
    assert(before(e.2 as int, c2, lr, lc + 1));
    assert(m[g.2 as int][if r > e.2 { lc } else { c2 }] == id);
    let r1 = choose|i: int|
        has_cell(m, i, e.1 as int) && before(i, e.1 as int, lr, lc) && #[trigger] m[i][e.1 as int]
            == id;
    assert(before(r1, e.1 as int, lr, lc + 1));
    assert(m[if c < e.1 { lr } else { r1 }][g.1 as int] == id);
    let r3 = choose|i: int|
        has_cell(m, i, e.3 as int) && before(i, e.3 as int, lr, lc) && #[trigger] m[i][e.3 as int]
            == id;
    assert(before(r3, e.3 as int, lr, lc + 1));
    assert(m[if c > e.3 { lr } else { r3 }][g.3 as int] == id);
    assert forall|i: int, j: int|
        has_cell(m, i, j) && before(i, j, lr, lc + 1) && #[trigger] m[i][j] == id implies g.0 <= i
        <= g.2 && g.1 <= j <= g.3 by {
        if !(i == lr && j == lc) {
            assert(before(i, j, lr, lc));
        }
    }
}

/// Moving the scan limit past cells that hold no id above 0 changes no box.
proof fn lemma_scan_moves(m: Matrix, boxes: Map<i32, Extent>, lr: int, lc: int, lr2: int, lc2: int)
    requires
        boxes_before(m, boxes, lr, lc),
        forall|i: int, j: int|
            has_cell(m, i, j) && #[trigger] m[i][j] > 0 ==> (before(i, j, lr, lc) <==> before(
                i,
                j,
                lr2,
                lc2,
            )),
    ensures
        boxes_before(m, boxes, lr2, lc2),
{
    assert forall|id: i32| #[trigger] boxes.contains_key(id) <==> id > 0 && occurs_before(
        m,
        id,
        lr2,
        lc2,
    ) by {
        if boxes.contains_key(id) {
            let (i, j) = choose|i: int, j: int|
                has_cell(m, i, j) && before(i, j, lr, lc) && #[trigger] m[i][j] == id;
            assert(before(i, j, lr2, lc2));
        }
        if id > 0 && occurs_before(m, id, lr2, lc2) {
            let (i, j) = choose|i: int, j: int|
                has_cell(m, i, j) && before(i, j, lr2, lc2) && #[trigger] m[i][j] == id;
            assert(before(i, j, lr, lc));
        }
    }
    assert forall|id: i32| boxes.contains_key(id) implies is_box_before(
        m,
        id,
        lr2,
        lc2,
        #[trigger] boxes[id],
    ) by {
        lemma_box_carries(m, id, lr, lc, lr2, lc2, boxes[id]);
    }
}

/// Once every cell is scanned, the boxes are the bounding boxes of the ids
/// above 0.
proof fn lemma_scan_done(m: Matrix, boxes: Map<i32, Extent>, side: int)
    requires
        is_square_grid(m, side),
        boxes_before(m, boxes, side, 0),
    ensures
        boxes.dom() == positive_ids(m),
        forall|id: i32|
            boxes.contains_key(id) ==> {
                let e = #[trigger] boxes[id];
                &&& is_bounding_box(m, id, e.0 as int, e.1 as int, e.2 as int, e.3 as int)
                &&& e.0 <= e.2 < side
                &&& e.1 <= e.3 < side
            },
{
    assert forall|id: i32| boxes.contains_key(id) <==> id > 0 && occurs(m, id) by {
        if boxes.contains_key(id) {
            let (i, j) = choose|i: int, j: int|
                has_cell(m, i, j) && before(i, j, side, 0) && #[trigger] m[i][j] == id;
            assert(occurs(m, id));
        }
        if id > 0 && occurs(m, id) {
            let (i, j) = choose|i: int, j: int| has_cell(m, i, j) && #[trigger] m[i][j] == id;
            assert(before(i, j, side, 0));
            assert(occurs_before(m, id, side, 0));
        }
    }
    assert(boxes.dom() =~= positive_ids(m));
    assert forall|id: i32| boxes.contains_key(id) implies {
        let e = #[trigger] boxes[id];
        &&& is_bounding_box(m, id, e.0 as int, e.1 as int, e.2 as int, e.3 as int)
        &&& e.0 <= e.2 < side
        &&& e.1 <= e.3 < side
    } by {
        let e = boxes[id];
        assert(is_box_before(m, id, side, 0, e));
        let c0 = choose|c: int|
            has_cell(m, e.0 as int, c) && before(e.0 as int, c, side, 0)
                && #[trigger] m[e.0 as int][c] == id;
        let c2 = choose|c: int|
            has_cell(m, e.2 as int, c) && before(e.2 as int, c, side, 0)
                && #[trigger] m[e.2 as int][c] == id;
        let r1 = choose|r: int|
            has_cell(m, r, e.1 as int) && before(r, e.1 as int, side, 0)
                && #[trigger] m[r][e.1 as int] == id;
        let r3 = choose|r: int|
            has_cell(m, r, e.3 as int) && before(r, e.3 as int, side, 0)
                && #[trigger] m[r][e.3 as int] == id;
        assert forall|r: int, c: int| has_cell(m, r, c) && #[trigger] m[r][c] == id implies e.0
            <= r <= e.2 && e.1 <= c <= e.3 by {
            assert(before(r, c, side, 0));
        }
    }
}

/// The square that a box stands for: its corner, and its height as the side.
spec fn square_of(e: Extent) -> Square {
    Square { row: e.0, col: e.1, size: (e.2 - e.0 + 1) as usize }
}

/// The boxes of all ids, read out in ascending order of the ids, are a layout.
proof fn lemma_boxes_are_layout(
    m: Matrix,
    boxes: Map<i32, Extent>,
    side: int,
    all: Seq<(i32, Extent)>,
    squares: Seq<Square>,
)
    requires
        is_square_grid(m, side),
        has_square_boxes(m),
        side <= usize::MAX,
        boxes_before(m, boxes, side, 0),
        ascending(all.map_values(|kv: (i32, Extent)| kv.0)),
        forall|i: int|
            0 <= i < all.len() ==> boxes.contains_key((#[trigger] all[i]).0) && boxes[all[i].0]
                == all[i].1,
        forall|id: i32|
            #[trigger] boxes.contains_key(id) ==> exists|i: int|
                0 <= i < all.len() && (#[trigger] all[i]).0 == id,
        squares.len() == all.len(),
        forall|i: int| 0 <= i < all.len() ==> #[trigger] squares[i] == square_of(all[i].1),
    ensures
        exists|ids: Seq<i32>| is_layout_of(m, ids, squares),
{
    lemma_scan_done(m, boxes, side);
    let ids = all.map_values(|kv: (i32, Extent)| kv.0);
    assert forall|i: int| 0 <= i < ids.len() implies (#[trigger] ids[i]) > 0 && occurs(m, ids[i])
        && frames(m, ids[i], squares[i]) by {
        let id = all[i].0;
        let e = all[i].1;
        assert(ids[i] == id);
        assert(boxes.contains_key(id) && boxes[id] == e);
        assert(positive_ids(m).contains(id));
        assert(is_bounding_box(m, id, e.0 as int, e.1 as int, e.2 as int, e.3 as int));
        assert(e.2 - e.0 == e.3 - e.1);
        assert(squares[i] == square_of(e));
    }
    assert forall|id: i32| id > 0 && #[trigger] occurs(m, id) implies ids.contains(id) by {
        assert(positive_ids(m).contains(id));
        assert(boxes.contains_key(id));
        let i = choose|i: int| 0 <= i < all.len() && (#[trigger] all[i]).0 == id;
        assert(ids[i] == id);
    }
    assert(is_layout_of(m, ids, squares));
}

/// The squares of `matrix`: for each id above 0, in ascending order of the
/// ids, the bounding box of the cells that hold it.
pub fn compute_squares(side: usize, matrix: &Vec<Vec<i32>>) -> (squares: Vec<Square>)
    requires
        is_square_grid(matrix.deep_view(), side as int),
        has_square_boxes(matrix.deep_view()),
    ensures
        is_layout(matrix.deep_view(), squares@),
{
    let ghost m = matrix.deep_view();
    let mut map: BTreeMap<i32, Extent> = BTreeMap::new();
    for r in 0..side
        invariant
            m == matrix.deep_view(),
            is_square_grid(m, side as int),
            boxes_before(m, map@, r as int, 0),
    {
        for c in 0..side
            invariant
                r < side,
                m == matrix.deep_view(),
                is_square_grid(m, side as int),
                boxes_before(m, map@, r as int, c as int),
        {
            proof {
                lemma_cells(matrix);
                assert(m[r as int].len() == side);
            }
            let id = matrix[r][c];
            if id > 0 {
                let e: Extent = match map.get(&id) {
                    Some(seen) => (
                        if r < seen.0 {
                            r
                        } else {
                            seen.0
                        },
                        if c < seen.1 {
                            c
                        } else {
                            seen.1
                        },
                        if r > seen.2 {
                            r
                        } else {
                            seen.2
                        },
                        if c > seen.3 {
                            c
                        } else {
                            seen.3
                        },
                    ),
                    None => (r, c, r, c),
                };
                proof {
                    lemma_scan_cell(m, map@, r, c);
                }
                map.insert(id, e);
            } else {
                proof {
                    lemma_scan_moves(m, map@, r as int, c as int, r as int, c + 1);
                }
            }
        }
        proof {
            lemma_scan_moves(m, map@, r as int, side as int, r + 1, 0);
        }
    }
    let mut squares: Vec<Square> = Vec::with_capacity(map.len());
    let ghost boxes = map@;
    let ghost all = map.iter().remaining();
    proof {
        lemma_scan_done(m, boxes, side as int);
    }
    for entry in it: map.iter()
        invariant
            it.seq() == all,
            boxes == map@,
            all == map.iter().remaining(),
            squares@.len() == it.index(),
            forall|id: i32|
                boxes.contains_key(id) ==> {
                    let e = #[trigger] boxes[id];
                    e.0 <= e.2 < side
                },
            forall|i: int|
                0 <= i < squares@.len() ==> #[trigger] squares@[i] == square_of(*all[i].1),
    {
        let (id, e) = entry;
        assert(boxes.contains_key(*id) && boxes[*id] == *e);
        let size_r = e.2 - e.0 + 1;
        squares.push(Square { row: e.0, col: e.1, size: size_r });
    }
    proof {
        let plain = all.map_values(|kv: (&i32, &Extent)| (*kv.0, *kv.1));
        let keys = all.map_values(|kv: (&i32, &Extent)| *kv.0);
        assert(plain.map_values(|kv: (i32, Extent)| kv.0) =~= keys);
        lemma_increasing_is_ascending(keys);
        assert forall|id: i32| #[trigger] boxes.contains_key(id) implies exists|i: int|
            0 <= i < plain.len() && (#[trigger] plain[i]).0 == id by {
            assert(all.contains((&id, &boxes[id])));
            let i = choose|i: int| 0 <= i < all.len() && all[i] == (&id, &boxes[id]);
            assert(plain[i].0 == id);
        }
        assert forall|i: int| 0 <= i < plain.len() implies boxes.contains_key(
            (#[trigger] plain[i]).0,
        ) && boxes[plain[i].0] == plain[i].1 by {
            assert(boxes.contains_key(*all[i].0));
        }
        assert forall|i: int| 0 <= i < plain.len() implies #[trigger] squares@[i] == square_of(
            plain[i].1,
        ) by {}
        lemma_boxes_are_layout(m, boxes, side as int, plain, squares@);
    }
    squares
}

} // verus!
