//! Wave function collapse on a rectangular grid.
//!
//! Every cell of a [`grid::Grid`] holds the set of tiles it may still take.
//! The solver in [`wfc`] repeatedly commits the least uncertain cell to one
//! tile, drawn by weight from a [`random::RandomSource`], and lets its
//! [`rules`] narrow the cells around it until every cell holds exactly one
//! tile or some cell has none left. [`propagation`] says what the narrowing
//! comes to; [`adjacency_graph`] holds which tiles may stand side by side.

pub mod adjacency_graph;
pub mod grid;
pub mod possible_values;
pub mod propagation;
pub mod random;
pub mod renderer;
pub mod rules;
pub mod traits;
pub mod types;
pub mod utils;
pub mod wfc;
