//! Hexagonal-grid geometry and spatial queries: axial coordinate algebra
//! (distance, rotation, reflection, line interpolation, ring and spiral
//! enumeration) and a sparse position-indexed layer supporting pathfinding,
//! field of view and bounded movement fields.

pub mod iterators;
pub mod layout;
pub mod position;
pub mod pqueue;
pub mod search;
pub mod utils;

pub use position::HexDirection;
pub use position::HexPosition;
