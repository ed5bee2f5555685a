//! 1D list of control points.

use vstd::prelude::*;

verus! {

use vstd::arithmetic::div_mod::lemma_mod_add_multiples_vanish;
use vstd::arithmetic::div_mod::lemma_mod_bound;

/// An ordered list of control points for a curve of a given degree,
/// with optional wrap-around indexing for closed curves.
#[derive(Debug)]
pub struct ControlVec<T> {
    degree: usize,
    points: Vec<T>,
    wrapping: bool,
}

impl<T> ControlVec<T> {
    /// The degree the curve will have.
    pub closed spec fn spec_degree(&self) -> int {
        self.degree as int
    }

    /// Whether indexing wraps around the stored points.
    pub closed spec fn spec_wrapping(&self) -> bool {
        self.wrapping
    }

    /// The stored (physical) points.
    pub closed spec fn spec_points(&self) -> Seq<T> {
        self.points@
    }

    /// Number of points including the wrapped-around ones.
    pub open spec fn spec_len(&self) -> int {
        if self.spec_wrapping() {
            self.spec_points().len() + self.spec_degree()
        } else {
            self.spec_points().len() as int
        }
    }

    /// The point a logical index resolves to: wrap-around indexing goes
    /// modulo the physical length.
    pub open spec fn spec_at(&self, index: int) -> T {
        if self.spec_wrapping() {
            self.spec_points()[index % self.spec_points().len() as int]
        } else {
            self.spec_points()[index]
        }
    }

    /// Construct a control vec of `degree`.
    pub fn new(degree: usize, points: Vec<T>) -> (r: ControlVec<T>)
        ensures
            r.spec_degree() == degree,
            r.spec_points() == points@,
            !r.spec_wrapping(),
    {
        ControlVec { degree, points, wrapping: false }
    }

    /// Construct a wrapping control vec of `degree`: indexing wraps
    /// around the stored points, closing the curve.
    pub fn new_wrapping(degree: usize, points: Vec<T>) -> (r: ControlVec<T>)
        ensures
            r.spec_degree() == degree,
            r.spec_points() == points@,
            r.spec_wrapping(),
    {
        ControlVec { degree, points, wrapping: true }
    }

    /// Number of control points with wrapping included.
    pub fn len(&self) -> (r: usize)
        requires
            self.spec_points().len() + self.spec_degree() <= usize::MAX,
        ensures
            r == self.spec_len(),
    {
        if !self.wrapping {
            self.points.len()
        } else {
            self.points.len() + self.degree
        }
    }

    /// If there are no points.
    pub fn is_empty(&self) -> (r: bool)
        requires
            self.spec_points().len() + self.spec_degree() <= usize::MAX,
        ensures
            r == (self.spec_len() == 0),
    {
        self.len() == 0
    }

    /// Degree of the curve.
    pub fn degree(&self) -> (r: usize)
        ensures
            r == self.spec_degree(),
    {
        self.degree
    }

    /// Set the degree of the curve.
    pub fn set_degree(&mut self, degree: usize)
        ensures
            final(self).spec_degree() == degree,
            final(self).spec_points() == old(self).spec_points(),
            final(self).spec_wrapping() == old(self).spec_wrapping(),
    {
        self.degree = degree;
    }

    /// Access the control points.
    pub fn points(&self) -> (r: &Vec<T>)
        ensures
            r@ == self.spec_points(),
    {
        &self.points
    }

    /// Mutable access to the control points.
    pub fn points_mut(&mut self) -> (r: &mut Vec<T>)
        ensures
            r@ == old(self).spec_points(),
            final(self).spec_points() == final(r)@,
            final(self).spec_degree() == old(self).spec_degree(),
            final(self).spec_wrapping() == old(self).spec_wrapping(),
    {
        &mut self.points
    }

    /// Is wrapping.
    pub fn wrapping(&self) -> (r: bool)
        ensures
            r == self.spec_wrapping(),
    {
        self.wrapping
    }

    /// Set is wrapping.
    pub fn set_wrapping(&mut self, wrapping: bool)
        ensures
            final(self).spec_wrapping() == wrapping,
            final(self).spec_points() == old(self).spec_points(),
            final(self).spec_degree() == old(self).spec_degree(),
    {
        self.wrapping = wrapping;
    }

    /// The control point at a logical index.
    pub fn at(&self, index: usize) -> (r: &T)
        requires
            if self.spec_wrapping() {
                self.spec_points().len() > 0
            } else {
                index < self.spec_points().len()
            },
        ensures
            *r == self.spec_at(index as int),
    {
        let phys: usize = self.points.len();
        let i: usize = if self.wrapping {
            proof {
                lemma_mod_bound(index as int, phys as int);
            }
            index % phys
        } else {
            index
        };
        &self.points[i]
    }
}

/// On a wrapping container a logical index and the same index shifted
/// by the physical length resolve to the same stored point.
pub proof fn lemma_wrapping_index_period<T>(cv: ControlVec<T>, index: int)
    requires
        cv.spec_wrapping(),
        cv.spec_points().len() > 0,
        0 <= index,
    ensures
        cv.spec_at(index) == cv.spec_at(index + cv.spec_points().len()),
{
    let len = cv.spec_points().len() as int;
    lemma_mod_add_multiples_vanish(index, len);
}

} // verus!
