//! Verified core for merging 3D beacon observations from independent
//! scanners: a rigid-transform algebra over integer points, an enumerator
//! for the 24 axis-aligned rotations, a pairwise aligner, a pose-graph
//! resolver, and a global aggregator.  Companion modules provide interval
//! geometry on integer bounds and a recursive pair-number calculus.

pub mod point;
pub mod orient;
pub mod transform;
pub mod geometry;
pub mod snailfish;
pub mod scanner;
pub mod graph;
pub mod aggregate;
