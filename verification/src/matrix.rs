//! A row-major matrix: a flat element store addressed as `i * cols + j`.
//! Accessors answer an error value instead of reaching outside the stated
//! shape; callers are responsible for keeping the store and the shape in
//! step, which the accessors' contracts make explicit.

use vstd::prelude::*;

verus! {

/// What the accessors report for an index outside the matrix.
#[derive(Debug, PartialEq, Eq)]
pub enum MatrixError {
    IndexOutOfBounds,
}

/// A matrix of `rows` rows and `cols` columns over a flat row-major store.
#[derive(Debug)]
pub struct Matrix<T> {
    pub rows: usize,
    pub cols: usize,
    pub data: Vec<T>,
}

impl<T> Matrix<T> {
    /// Makes a matrix of the given shape with an empty element store.
    pub fn new(rows: usize, cols: usize) -> (m: Self)
        requires
            rows * cols <= usize::MAX,
        ensures
            m.rows == rows,
            m.cols == cols,
            m.data@ == Seq::<T>::empty(),
    {
        Self { rows, cols, data: Vec::with_capacity(rows * cols) }
    }

    /// A reference to the element in row `i`, column `j` of the row-major
    /// store, or an error when `i` exceeds `rows` or `j` exceeds `cols`.
    pub fn get(&self, i: usize, j: usize) -> (r: Result<&T, MatrixError>)
        requires
            i <= self.rows && j <= self.cols ==> i * self.cols + j < self.data@.len(),
        ensures
            r is Err <==> i > self.rows || j > self.cols,
            r matches Err(e) ==> e == MatrixError::IndexOutOfBounds,
            r matches Ok(v) ==> *v == self.data@[i as int * self.cols as int + j as int],
    {
        if i > self.rows || j > self.cols {
            return Err(MatrixError::IndexOutOfBounds);
        }
        let n = self.data.len();
        proof {
            assert(i * self.cols + j < n);
        }
        Ok(&self.data[i * self.cols + j])
    }

    /// The mutable mirror of [`get`], with the same bounds rule: a mutable
    /// reference to the element in row `i`, column `j` of the row-major
    /// store, or an error when `i` exceeds `rows` or `j` exceeds `cols`.
    /// Writing through the reference updates exactly that element and nothing
    /// else.
    ///
    /// [`get`]: Matrix::get
    pub fn get_mut(&mut self, i: usize, j: usize) -> (r: Result<&mut T, MatrixError>)
        requires
            i <= old(self).rows && j <= old(self).cols ==> i * old(self).cols + j < old(
                self,
            ).data@.len(),
        ensures
            r is Err <==> i > old(self).rows || j > old(self).cols,
            r matches Err(e) ==> e == MatrixError::IndexOutOfBounds && *final(self) == *old(self),
            r matches Ok(v) ==> {
                &&& *v == old(self).data@[i as int * old(self).cols as int + j as int]
                &&& final(self).rows == old(self).rows
                &&& final(self).cols == old(self).cols
                &&& final(self).data@ == old(self).data@.update(
                    i as int * old(self).cols as int + j as int,
                    *final(v),
                )
            },
    {
        if i > self.rows || j > self.cols {
            return Err(MatrixError::IndexOutOfBounds);
        }
        let n = self.data.len();
        proof {
            assert(i * self.cols + j < n);
        }
        let idx = i * self.cols + j;
        Ok(&mut self.data[idx])
    }
}

} // verus!
