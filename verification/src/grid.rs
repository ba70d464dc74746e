//! The destination's cell store: a two-dimensional array of 64-bit words kept
//! by `ndarray`. Verus cannot look inside the array, so its contents and its
//! shape are named here and every call into `ndarray` states what it does to
//! them. None of these statements is proved.

use vstd::prelude::*;

verus! {

/// A rows-by-columns array of 64-bit words.
#[verifier::external_body]
pub struct Grid {
    cells: ndarray::Array2<u64>,
}

/// The words of the array, row after row.
pub uninterp spec fn grid_words(g: Grid) -> Seq<u64>;

/// The number of rows and the number of columns that the array was made with.
pub uninterp spec fn grid_shape(g: Grid) -> (nat, nat);

/// Whether the array lies in memory as one contiguous block in row-major
/// order, which `ndarray` calls the standard layout.
pub uninterp spec fn grid_standard_layout(g: Grid) -> bool;

impl Grid {
    /// The word at a row and a column, if the shape has them.
    pub open spec fn at(&self, row: int, col: int) -> Option<u64> {
        if 0 <= row < grid_shape(*self).0 && 0 <= col < grid_shape(*self).1 {
            Some(grid_words(*self)[row * grid_shape(*self).1 + col])
        } else {
            None
        }
    }

    /// `ndarray::Array2::zeros`: a new array of the given shape, in the
    /// standard layout, in which every word is zero. `ndarray` panics when
    /// the shape overflows `isize`, and the allocation panics when its size
    /// in bytes does; both are ruled out.
    #[verifier::external_body]
    pub(crate) fn zeros(nrows: usize, ncols: usize) -> (g: Grid)
        requires
            nrows <= isize::MAX,
            ncols <= isize::MAX,
            nrows * ncols * 8 <= isize::MAX,
        ensures
            grid_shape(g) == (nrows as nat, ncols as nat),
            grid_standard_layout(g),
            grid_words(g) == Seq::new((nrows * ncols) as nat, |i: int| 0u64),
    {
        Grid { cells: ndarray::Array2::zeros((nrows, ncols)) }
    }

    /// `ndarray::ArrayBase::dim`: the shape of the array.
    #[verifier::external_body]
    pub(crate) fn dim(&self) -> (shape: (usize, usize))
        ensures
            (shape.0 as nat, shape.1 as nat) == grid_shape(*self),
    {
        self.cells.dim()
    }

    /// `ndarray::ArrayBase::len`: the number of words in the array.
    #[verifier::external_body]
    pub(crate) fn len(&self) -> (n: usize)
        ensures
            n == grid_words(*self).len(),
    {
        self.cells.len()
    }

    /// `ndarray::ArrayBase::is_standard_layout`: whether the array is in the
    /// standard layout.
    #[verifier::external_body]
    pub(crate) fn is_standard_layout(&self) -> (standard: bool)
        ensures
            standard == grid_standard_layout(*self),
    {
        self.cells.is_standard_layout()
    }

    /// `ndarray::ArrayBase::get` with a two-dimensional index: the word at
    /// that row and column, which is the one at `row * ncols + col` in
    /// row-major order, or nothing when the index is outside the shape.
    #[verifier::external_body]
    pub(crate) fn get(&self, row: usize, col: usize) -> (word: Option<u64>)
        ensures
            word == self.at(row as int, col as int),
    {
        self.cells.get((row, col)).copied()
    }

    /// `ndarray::ArrayBase::as_slice_mut`: the words of the array as one
    /// mutable slice in row-major order, which `ndarray` hands out for an
    /// array in the standard layout and for no other. What the slice holds
    /// when the borrow ends is what the array holds from then on; shape and
    /// layout stay.
    #[verifier::external_body]
    pub(crate) fn words_mut(&mut self) -> (words: &mut [u64])
        requires
            grid_standard_layout(*old(self)),
        ensures
            words@ == grid_words(*old(self)),
            final(words)@.len() == words@.len(),
            grid_words(*final(self)) == final(words)@,
            grid_shape(*final(self)) == grid_shape(*old(self)),
            grid_standard_layout(*final(self)),
    {
        self.cells.as_slice_mut().unwrap()
    }
}

impl Clone for Grid {
    /// `Clone::clone` of the `ndarray` array: a second array with the same
    /// shape, layout and words.
    #[verifier::external_body]
    fn clone(&self) -> (copy: Self)
        ensures
            grid_shape(copy) == grid_shape(*self),
            grid_standard_layout(copy) == grid_standard_layout(*self),
            grid_words(copy) == grid_words(*self),
    {
        Grid { cells: self.cells.clone() }
    }
}

} // verus!
