//! A rope of point masses joined by fixed-length links, simulated on an
//! integer grid: Verlet integration followed by iterative relaxation of the
//! links.

pub mod convergence;
pub mod grid;
pub mod integrator;
pub mod laws;
pub mod model;
pub mod rope;
pub mod solver;
pub mod vector;

pub use crate::grid::MAX_REST_LENGTH;
pub use crate::grid::MAX_TIME_STEP;
pub use crate::grid::UNIT;
pub use crate::grid::WORLD_LIMIT;
pub use crate::rope::spawn_rope;
pub use crate::rope::Rope;
pub use crate::rope::RopeError;
pub use crate::rope::RopePoint;
pub use crate::rope::RopeStick;
pub use crate::vector::Vec3;
