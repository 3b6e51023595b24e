//! Fitting a tolerance-bounded figure into a polygonal hole on the integer lattice.
//!
//! The library holds the geometric model (containment, edge-length bounds, the
//! dislikes score), the offset table, the placement order, and an exact
//! backtracking search with reversible constraint propagation.

pub mod delta;
pub mod figure;
pub mod geometry;
pub mod order;
pub mod problem;
pub mod propagate;
pub mod search;
pub mod solver;
