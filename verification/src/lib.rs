//! One-dimensional colored-grid puzzles: a catalog of transformation rules
//! that each sample an input grid and the grid it turns into, a harness that
//! collects distinct examples of one rule, and an analyzer that summarizes
//! how the inputs of a task relate to its outputs.

pub mod analysis;
pub mod blocks;
pub mod example;
pub mod gravity;
pub mod grid;
pub mod harness;
pub mod marks;
pub mod noise;
pub mod order;
pub mod palette;
pub mod propagate;
pub mod random;
pub mod reflect;
pub mod render;
pub mod shift;
pub mod touch;
