//! A containment hierarchy ("nesting tree") over 2-D shapes.
//!
//! Given a collection of shapes, the tree records, for every shape, which
//! other shape most tightly encloses it: each node's children are the shapes
//! directly nested inside it.  The containment test is intentionally
//! approximate (area comparison plus a representative-point membership test),
//! trading exactness for constant cost per comparison.

pub mod model;
pub mod rect;
pub mod shape;
pub mod tree;
