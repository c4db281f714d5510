//! A bounding volume hierarchy over integer-coordinate boxes, with exact
//! rational ray parameters.

pub mod linalg;
pub mod bbox;
pub mod partition;
pub mod bvh;

pub use bbox::BBox;
pub use linalg::{Axis, Frac, Ray, Vector};
pub use partition::partition;
pub use bvh::{Boundable, Node, BVH};

