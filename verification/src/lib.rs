//! Building blocks for any-angle path finding on layered polygonal meshes:
//! integer planar geometry, the sweep-line decomposition of polygons into
//! monotone pieces, the simple funnel algorithm, polygonal complexes, and
//! convex hulls.

pub mod chain;
pub mod flat;
pub mod funnel;
pub mod hull;
pub mod layer;
pub mod monotonizer;
pub mod point;
pub mod polyal_complex;
pub mod triangle;

pub use point::Point;
pub use chain::{ChainVertex, ChainVertexType, ChainVertexWithIndex, VertexIndex};
pub use monotonizer::{Diagonal, Monotonizer};
