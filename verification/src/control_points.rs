//! Defining and manipulating control points.

mod control_grid;
mod control_vec;
mod grid;

pub use control_grid::ControlGrid;
pub use control_vec::ControlVec;
pub use control_vec::lemma_wrapping_index_period;
pub use grid::Grid;
