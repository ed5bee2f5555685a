//! A minimal row-major grid of control points.

use vstd::prelude::*;

verus! {

use crate::grid::lemma_row_major_index;
use vstd::arithmetic::div_mod::lemma_fundamental_div_mod;

/// A rectangular grid stored row-major over a flat vector.
#[derive(Debug)]
pub struct Grid<T> {
    len: usize,
    values: Vec<T>,
}

impl<T> Grid<T> {
    /// Width of a row.
    pub closed spec fn spec_len(&self) -> int {
        self.len as int
    }

    /// The flat row-major storage.
    pub closed spec fn spec_values(&self) -> Seq<T> {
        self.values@
    }

    /// Number of full rows.
    pub open spec fn spec_height(&self) -> int {
        self.spec_values().len() as int / self.spec_len()
    }

    /// A grid of rows of width `len` over the given values.
    pub fn new(len: usize, values: Vec<T>) -> (r: Grid<T>)
        requires
            1 <= len,
            values@.len() as int % len as int == 0,
        ensures
            r.spec_len() == len,
            r.spec_values() == values@,
    {
        Grid { len, values }
    }

    /// Width of a row.
    pub fn len(&self) -> (r: usize)
        ensures
            r == self.spec_len(),
    {
        self.len
    }

    /// Number of full rows.
    pub fn height(&self) -> (r: usize)
        requires
            1 <= self.spec_len(),
        ensures
            r == self.spec_height(),
    {
        self.values.len() / self.len
    }

    /// The entry at `(col, row)`.
    pub fn at(&self, uv: (usize, usize)) -> (r: &T)
        requires
            1 <= self.spec_len(),
            self.spec_values().len() as int % self.spec_len() == 0,
            uv.0 < self.spec_len(),
            uv.1 < self.spec_height(),
        ensures
            *r == self.spec_values()[uv.1 * self.spec_len() + uv.0],
    {
        let (col, row) = uv;
        let total: usize = self.values.len();
        proof {
            lemma_row_major_index(self.spec_len(), self.spec_height(), col as int, row as int);
            lemma_fundamental_div_mod(self.spec_values().len() as int, self.spec_len());
            assert(self.spec_height() * self.spec_len() == self.spec_len() * self.spec_height())
                by (nonlinear_arith);
            assert(row as int * self.spec_len() + (col as int) < self.spec_values().len());
        }
        &self.values[(row * self.len) + col]
    }
}

} // verus!
