//! Exporting to other formats such as meshes.

mod bounding_box;
mod triangulation;

pub use bounding_box::BoundingBox;
pub use triangulation::Triangulation;
