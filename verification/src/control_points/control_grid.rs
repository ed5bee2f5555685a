//! 2D grid of control points.

use vstd::prelude::*;

verus! {

use crate::grid::Grid;
use crate::grid::lemma_row_major_index;
use vstd::arithmetic::div_mod::lemma_fundamental_div_mod;
use vstd::arithmetic::div_mod::lemma_mod_bound;

/// A rectangular grid of control points for a surface of a given
/// degree, with optional wrap-around indexing along each axis.
#[derive(Debug)]
pub struct ControlGrid<T> {
    degree: usize,
    points: Grid<T>,
    u_wrapping: bool,
    v_wrapping: bool,
}

impl<T> ControlGrid<T> {
    /// The degree the surface will have.
    pub closed spec fn spec_degree(&self) -> int {
        self.degree as int
    }

    /// Whether indexing wraps along the u axis.
    pub closed spec fn spec_u_wrapping(&self) -> bool {
        self.u_wrapping
    }

    /// Whether indexing wraps along the v axis.
    pub closed spec fn spec_v_wrapping(&self) -> bool {
        self.v_wrapping
    }

    /// The stored points, row-major.
    pub closed spec fn spec_values(&self) -> Seq<T> {
        self.points.spec_values()
    }

    /// Stored row width.
    pub closed spec fn spec_u_phys(&self) -> int {
        self.points.spec_len()
    }

    /// Stored number of rows.
    pub open spec fn spec_v_phys(&self) -> int {
        self.spec_values().len() as int / self.spec_u_phys()
    }

    /// The storage is rectangular.
    pub open spec fn complete(&self) -> bool {
        &&& 1 <= self.spec_u_phys()
        &&& self.spec_values().len() as int % self.spec_u_phys() == 0
    }

    /// Logical width including wrapping.
    pub open spec fn spec_u_len(&self) -> int {
        if self.spec_u_wrapping() {
            self.spec_u_phys() + self.spec_degree()
        } else {
            self.spec_u_phys()
        }
    }

    /// Logical height including wrapping.
    pub open spec fn spec_v_len(&self) -> int {
        if self.spec_v_wrapping() {
            self.spec_v_phys() + self.spec_degree()
        } else {
            self.spec_v_phys()
        }
    }

    /// The point a logical `(u, v)` index resolves to: each wrapping
    /// axis goes modulo its physical extent.
    pub open spec fn spec_at(&self, u: int, v: int) -> T {
        let uu = if self.spec_u_wrapping() {
            u % self.spec_u_phys()
        } else {
            u
        };
        let vv = if self.spec_v_wrapping() {
            v % self.spec_v_phys()
        } else {
            v
        };
        self.spec_values()[vv * self.spec_u_phys() + uu]
    }

    /// Construct a new control grid of `degree` with rows of `u_len` points.
    pub fn new(degree: usize, u_len: usize, points: Vec<T>) -> (r: ControlGrid<T>)
        requires
            1 <= u_len,
            points@.len() as int % u_len as int == 0,
        ensures
            r.spec_degree() == degree,
            r.spec_u_phys() == u_len,
            r.spec_values() == points@,
            !r.spec_u_wrapping(),
            !r.spec_v_wrapping(),
            r.complete(),
    {
        ControlGrid {
            degree,
            points: Grid::new(u_len, points),
            u_wrapping: false,
            v_wrapping: false,
        }
    }

    /// Stored row width, wrapping not counted.
    pub fn physical_u_len(&self) -> (r: usize)
        ensures
            r == self.spec_u_phys(),
    {
        self.points.len()
    }

    /// Stored number of rows, wrapping not counted.
    pub fn physical_v_len(&self) -> (r: usize)
        requires
            1 <= self.spec_u_phys(),
        ensures
            r == self.spec_v_phys(),
    {
        self.points.height()
    }

    /// Whether the storage holds whole rows of the stated width.
    pub fn check_complete(&self) -> (r: bool)
        ensures
            r == self.complete(),
    {
        let up: usize = self.points.len();
        if up == 0 {
            false
        } else {
            self.points.values().len() % up == 0
        }
    }

    /// Length in the u direction with wrapping included.
    pub fn u_len(&self) -> (r: usize)
        requires
            self.spec_u_phys() + self.spec_degree() <= usize::MAX,
        ensures
            r == self.spec_u_len(),
    {
        if !self.u_wrapping {
            self.points.len()
        } else {
            self.points.len() + self.degree
        }
    }

    /// Length in the v direction with wrapping included.
    pub fn v_len(&self) -> (r: usize)
        requires
            1 <= self.spec_u_phys(),
            self.spec_v_phys() + self.spec_degree() <= usize::MAX,
        ensures
            r == self.spec_v_len(),
    {
        if !self.v_wrapping {
            self.points.height()
        } else {
            self.points.height() + self.degree
        }
    }

    /// The degree of the surface.
    pub fn degree(&self) -> (r: usize)
        ensures
            r == self.spec_degree(),
    {
        self.degree
    }

    /// Set the degree of the surface.
    pub fn set_degree(&mut self, degree: usize)
        ensures
            final(self).spec_degree() == degree,
            final(self).spec_values() == old(self).spec_values(),
            final(self).spec_u_phys() == old(self).spec_u_phys(),
            final(self).spec_u_wrapping() == old(self).spec_u_wrapping(),
            final(self).spec_v_wrapping() == old(self).spec_v_wrapping(),
    {
        self.degree = degree;
    }

    /// Access all points.
    pub fn points(&self) -> (r: &Vec<T>)
        ensures
            r@ == self.spec_values(),
    {
        self.points.values()
    }

    /// Mutate all points.
    pub fn points_mut(&mut self) -> (r: &mut Vec<T>)
        ensures
            r@ == old(self).spec_values(),
            final(self).spec_values() == final(r)@,
            final(self).spec_degree() == old(self).spec_degree(),
            final(self).spec_u_phys() == old(self).spec_u_phys(),
            final(self).spec_u_wrapping() == old(self).spec_u_wrapping(),
            final(self).spec_v_wrapping() == old(self).spec_v_wrapping(),
    {
        self.points.values_mut()
    }

    /// Grid wraps in the u direction.
    pub fn u_wrapping(&self) -> (r: bool)
        ensures
            r == self.spec_u_wrapping(),
    {
        self.u_wrapping
    }

    /// Set if the grid wraps in the u direction.
    pub fn set_u_wrapping(&mut self, u_wrapping: bool)
        ensures
            final(self).spec_u_wrapping() == u_wrapping,
            final(self).spec_values() == old(self).spec_values(),
            final(self).spec_degree() == old(self).spec_degree(),
            final(self).spec_u_phys() == old(self).spec_u_phys(),
            final(self).spec_v_wrapping() == old(self).spec_v_wrapping(),
    {
        self.u_wrapping = u_wrapping;
    }

    /// Grid wraps in the v direction.
    pub fn v_wrapping(&self) -> (r: bool)
        ensures
            r == self.spec_v_wrapping(),
    {
        self.v_wrapping
    }

    /// Set if the grid wraps in the v direction.
    pub fn set_v_wrapping(&mut self, v_wrapping: bool)
        ensures
            final(self).spec_v_wrapping() == v_wrapping,
            final(self).spec_values() == old(self).spec_values(),
            final(self).spec_degree() == old(self).spec_degree(),
            final(self).spec_u_phys() == old(self).spec_u_phys(),
            final(self).spec_u_wrapping() == old(self).spec_u_wrapping(),
    {
        self.v_wrapping = v_wrapping;
    }

    /// The control point at a logical `(u, v)` index.
    pub fn at(&self, uv: (usize, usize)) -> (r: &T)
        requires
            self.complete(),
            !self.spec_u_wrapping() ==> uv.0 < self.spec_u_phys(),
            !self.spec_v_wrapping() ==> uv.1 < self.spec_v_phys(),
            self.spec_v_phys() >= 1,
        ensures
            *r == self.spec_at(uv.0 as int, uv.1 as int),
    {
        let (u, v) = uv;
        let u_phys: usize = self.points.len();
        let v_phys: usize = self.points.height();
        let uu: usize = if self.u_wrapping {
            proof {
                lemma_mod_bound(u as int, u_phys as int);
            }
            u % u_phys
        } else {
            u
        };
        let vv: usize = if self.v_wrapping {
            proof {
                lemma_mod_bound(v as int, v_phys as int);
            }
            v % v_phys
        } else {
            v
        };
        let total: usize = self.points.values().len();
        proof {
            lemma_row_major_index(self.spec_u_phys(), self.spec_v_phys(), uu as int, vv as int);
            lemma_fundamental_div_mod(self.spec_values().len() as int, self.spec_u_phys());
            assert(self.spec_v_phys() * self.spec_u_phys() == self.spec_u_phys()
                * self.spec_v_phys()) by (nonlinear_arith);
            assert(vv as int * self.spec_u_phys() + (uu as int) < self.spec_values().len());
        }
        self.points.at((vv * u_phys) + uu)
    }
}

} // verus!
