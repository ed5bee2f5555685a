//! A row-major 2D grid over a flat vector.

use vstd::prelude::*;

verus! {

use vstd::arithmetic::div_mod::lemma_fundamental_div_mod;
use vstd::arithmetic::mul::lemma_mul_inequality;

/// A rectangular grid stored row-major: entry `(col, row)` lives at
/// `row * len + col` of the flat vector.
#[derive(Debug)]
pub struct Grid<T> {
    len: usize,
    values: Vec<T>,
}

/// A row-major position is inside the flat storage of its grid.
pub proof fn lemma_row_major_index(len: int, height: int, col: int, row: int)
    requires
        1 <= len,
        0 <= col < len,
        0 <= row < height,
    ensures
        0 <= row * len + col < height * len,
{
    assert(row * len + col < (row + 1) * len) by (nonlinear_arith)
        requires
            col < len,
            0 <= row,
    ;
    lemma_mul_inequality(row + 1, height, len);
}

impl<T> Grid<T> {
    /// Width of a row.
    pub closed spec fn spec_len(&self) -> int {
        self.len as int
    }

    /// The flat row-major storage.
    pub closed spec fn spec_values(&self) -> Seq<T> {
        self.values@
    }

    /// Number of full rows.
    pub open spec fn spec_height(&self) -> int {
        self.spec_values().len() as int / self.spec_len()
    }

    /// The storage holds whole rows.
    pub open spec fn complete(&self) -> bool {
        &&& 1 <= self.spec_len()
        &&& self.spec_values().len() as int % self.spec_len() == 0
    }

    /// The entry at `(col, row)`.
    pub open spec fn spec_at(&self, col: int, row: int) -> T {
        self.spec_values()[row * self.spec_len() + col]
    }

    /// An empty grid that will hold rows of width `len`.
    pub fn with_capacity(len: usize, height: usize) -> (r: Grid<T>)
        ensures
            r.spec_len() == len,
            r.spec_values() == Seq::<T>::empty(),
    {
        Grid { len, values: Vec::new() }
    }

    /// A grid of rows of width `len` over the given values.
    pub fn new(len: usize, values: Vec<T>) -> (r: Grid<T>)
        requires
            1 <= len,
            values@.len() as int % len as int == 0,
        ensures
            r.spec_len() == len,
            r.spec_values() == values@,
            r.complete(),
    {
        Grid { len, values }
    }

    /// Append one value in row-major order.
    pub fn push(&mut self, value: T)
        ensures
            final(self).spec_values() == old(self).spec_values().push(value),
            final(self).spec_len() == old(self).spec_len(),
    {
        self.values.push(value)
    }

    /// The value at a flat index.
    pub fn at(&self, index: usize) -> (r: &T)
        requires
            index < self.spec_values().len(),
        ensures
            *r == self.spec_values()[index as int],
    {
        &self.values[index]
    }

    /// Replace the value at a flat index.
    pub fn set(&mut self, index: usize, value: T)
        requires
            index < old(self).spec_values().len(),
        ensures
            final(self).spec_values() == old(self).spec_values().update(index as int, value),
            final(self).spec_len() == old(self).spec_len(),
    {
        self.values.set(index, value);
    }

    /// Width of a row.
    pub fn len(&self) -> (r: usize)
        ensures
            r == self.spec_len(),
    {
        self.len
    }

    /// Number of full rows.
    pub fn height(&self) -> (r: usize)
        requires
            1 <= self.spec_len(),
        ensures
            r == self.spec_height(),
    {
        self.values.len() / self.len
    }

    /// The flat index range holding row `row`: the row is
    /// `values[row * len .. row * len + len]` of the flat storage.
    pub fn row_range(&self, row: usize) -> (r: (usize, usize))
        requires
            self.complete(),
            row < self.spec_height(),
        ensures
            r.0 == row * self.spec_len(),
            r.1 == row * self.spec_len() + self.spec_len(),
            r.1 <= self.spec_values().len(),
    {
        let total: usize = self.values.len();
        proof {
            lemma_row_major_index(self.spec_len(), self.spec_height(), 0, row as int);
            lemma_fundamental_div_mod(self.spec_values().len() as int, self.spec_len());
            assert(self.spec_height() * self.spec_len() == self.spec_len() * self.spec_height())
                by (nonlinear_arith);
            assert((row + 1) * self.spec_len() == row as int * self.spec_len() + self.spec_len())
                by (nonlinear_arith);
            vstd::arithmetic::mul::lemma_mul_inequality(
                row as int + 1,
                self.spec_height(),
                self.spec_len(),
            );
        }
        (row * self.len, row * self.len + self.len)
    }

    /// A copy of row `row`, read out of the flat storage.
    pub fn row(&self, row: usize) -> (r: Vec<T>)
        where T: Copy
        requires
            self.complete(),
            row < self.spec_height(),
        ensures
            r@.len() == self.spec_len(),
            forall|c: int|
                0 <= c < self.spec_len() ==> #[trigger] r@[c] == self.spec_values()[row
                    * self.spec_len() + c],
    {
        let (start, end) = self.row_range(row);
        let mut out: Vec<T> = Vec::new();
        let mut c: usize = start;
        while c < end
            invariant
                start <= c <= end,
                start == row * self.spec_len(),
                end == row * self.spec_len() + self.spec_len(),
                end <= self.spec_values().len(),
                out@.len() == c - start,
                forall|t: int|
                    0 <= t < c - start ==> #[trigger] out@[t] == self.spec_values()[start + t],
            decreases end - c,
        {
            out.push(*self.at(c));
            c = c + 1;
        }
        out
    }

    /// The flat index of a `(col, row)` position; the position must lie
    /// inside the grid.
    pub fn vec_index(&self, uv: (usize, usize)) -> (r: usize)
        requires
            self.complete(),
            uv.0 < self.spec_len(),
            uv.1 < self.spec_height(),
        ensures
            r == uv.1 * self.spec_len() + uv.0,
            r < self.spec_values().len(),
    {
        let (col, row) = uv;
        let total: usize = self.values.len();
        proof {
            lemma_row_major_index(self.spec_len(), self.spec_height(), col as int, row as int);
            lemma_fundamental_div_mod(self.spec_values().len() as int, self.spec_len());
            assert(self.spec_height() * self.spec_len() == self.spec_len() * self.spec_height())
                by (nonlinear_arith);
            assert(row as int * self.spec_len() + (col as int) < self.spec_values().len());
        }
        (row * self.len) + col
    }

    /// Read access to the flat storage.
    pub fn values(&self) -> (r: &Vec<T>)
        ensures
            r@ == self.spec_values(),
    {
        &self.values
    }

    /// Mutable access to the flat storage.
    pub fn values_mut(&mut self) -> (r: &mut Vec<T>)
        ensures
            r@ == old(self).spec_values(),
            final(self).spec_values() == final(r)@,
            final(self).spec_len() == old(self).spec_len(),
    {
        &mut self.values
    }

    /// Give up the grid and keep the flat storage.
    pub fn into_values(self) -> (r: Vec<T>)
        ensures
            r@ == self.spec_values(),
    {
        self.values
    }
}

} // verus!
