//! One tiling chosen among all of a side, with its layout.

use rand::rngs::ThreadRng;
use rand::Rng;
use vstd::prelude::*;
use vstd::std_specs::iter::IteratorSpec;
use crate::cover::lemma_tiling_has_square_boxes;
use crate::layout::{Square, compute_squares, has_square_boxes, is_layout};
use crate::matrix::is_square_grid;
use crate::search::{MAX_SIDE, find_squarings};
use crate::tiling::{is_tiling, lemma_enumeration_nonempty, squarings};

verus! {

/// A chosen solution within the enumeration of the tilings of one side.
pub struct SquareGrid {
    /// Side of the grid.
    pub side: usize,
    /// Index of the chosen tiling in the enumeration.
    pub solution_index: usize,
    /// The chosen tiling.
    pub matrix: Vec<Vec<i32>>,
    /// The squares of the chosen tiling, by ascending id.
    pub squares: Vec<Square>,
}

/// The index that a request for `index` among `count` solutions selects: the
/// index itself where it names a solution, else 0.
pub open spec fn selected_index(index: usize, count: nat) -> usize {
    if index < count {
        index
    } else {
        0
    }
}

/// The index that a request for `index` among `count` solutions selects.
pub fn select_index(index: usize, count: usize) -> (chosen: usize)
    ensures
        chosen == selected_index(index, count as nat),
{
    if index < count {
        index
    } else {
        0
    }
}

/// The generator type of the `rand` crate that is local to a thread. Nothing
/// inside it is visible to contracts.
#[verifier::external_type_specification]
#[verifier::external_body]
pub struct ExThreadRng(rand::rngs::ThreadRng);

/// The generator of this thread, from `rand::thread_rng()`. Taken on trust;
/// nothing is claimed of the generator. The call panics where the system
/// gives it no seed.
#[verifier::external_body]
fn thread_generator() -> ThreadRng {
    rand::thread_rng()
}

/// Draws an index among `count` solutions with `rand::Rng::gen_range(0..count)`.
/// Taken on trust from the `rand` crate: the index is below `count`, as the
/// range asks. Which index comes is left open, so two draws may differ.
/// `gen_range` panics on an empty range, which the precondition rules out.
#[verifier::external_body]
fn random_index(rng: &mut ThreadRng, count: usize) -> (chosen: usize)
    requires
        count > 0,
    ensures
        chosen < count,
{
    rng.gen_range(0..count)
}

impl SquareGrid {
    /// This grid holds the tiling at `index` of the enumeration of `side`,
    /// with its layout.
    pub open spec fn holds(&self, side: usize, index: int) -> bool {
        &&& self.side == side
        &&& self.solution_index == index
        &&& 0 <= index < squarings(side as int).len()
        &&& self.matrix.deep_view() == squarings(side as int)[index]
        &&& is_tiling(self.matrix.deep_view(), side as int)
        &&& is_layout(self.matrix.deep_view(), self.squares@)
    }

    /// The grid for `side` with the solution at `index` chosen. An index that
    /// names no solution selects the first one. With no index a solution is
    /// drawn at random.
    pub fn new(side: usize, index: Option<usize>) -> (grid: Self)
        requires
            side <= MAX_SIDE,
        ensures
            grid.holds(side, grid.solution_index as int),
            index matches Some(i) ==> grid.solution_index == selected_index(
                i,
                squarings(side as int).len(),
            ),
    {
        let solutions = find_squarings(side);
        proof {
            lemma_enumeration_nonempty(solutions.deep_view(), side as int);
        }
        if solutions.is_empty() {
            return SquareGrid {
                side,
                solution_index: 0,
                matrix: Vec::new(),
                squares: Vec::new(),
            };
        }
        let chosen = match index {
            Some(i) => select_index(i, solutions.len()),
            None => {
                let mut rng = thread_generator();
                random_index(&mut rng, solutions.len())
            },
        };
        proof {
            lemma_tiling_has_square_boxes(solutions.deep_view()[chosen as int], side as int);
        }
        Self::with_solution(side, &solutions, chosen)
    }

    /// The grid for `side` with the entry at `chosen` of `solutions` as its
    /// tiling, and the layout of that entry.
    pub fn with_solution(side: usize, solutions: &Vec<Vec<Vec<i32>>>, chosen: usize) -> (grid: Self)
        requires
            chosen < solutions.len(),
            is_square_grid(solutions.deep_view()[chosen as int], side as int),
            has_square_boxes(solutions.deep_view()[chosen as int]),
        ensures
            grid.side == side,
            grid.solution_index == chosen,
            grid.matrix.deep_view() == solutions.deep_view()[chosen as int],
            is_layout(grid.matrix.deep_view(), grid.squares@),
    {
        let matrix = solutions[chosen].clone();
        assert(matrix.deep_view() == solutions.deep_view()[chosen as int]);
        let squares = compute_squares(side, &matrix);
        SquareGrid { side, solution_index: chosen, matrix, squares }
    }

    /// The grid for `side` with a solution drawn at random.
    pub fn new_random(side: usize) -> (grid: Self)
        requires
            side <= MAX_SIDE,
        ensures
            grid.holds(side, grid.solution_index as int),
    {
        Self::new(side, None)
    }

    /// The chosen tiling.
    pub fn solution(&self) -> (matrix: &Vec<Vec<i32>>)
        ensures
            *matrix == self.matrix,
    {
        &self.matrix
    }

    /// The squares of the chosen tiling, by ascending id.
    pub fn squares(&self) -> (squares: &[Square])
        ensures
            squares@ == self.squares@,
    {
        self.squares.as_slice()
    }

    /// An iterator over the squares of the chosen tiling, by ascending id.
    pub fn iter_squares(&self) -> (squares: std::slice::Iter<'_, Square>)
        ensures
            squares.remaining() == self.squares@.as_ref(),
    {
        self.squares.iter()
    }
}

} // verus!
