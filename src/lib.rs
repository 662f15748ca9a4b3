//! Discrete Voronoi labelling of a square grid by jump flooding.
//!
//! Seeds are mapped onto grid cells, each seed's cell is labelled with its
//! 1-based index, and a fixed schedule of propagation passes spreads the
//! labels until every cell names a nearby seed (0 stays "unreached").
//!
//! - `grid`: the grid's shape and well-formedness.
//! - `schedule`: the step size of each pass.
//! - `seeds`: seed mapping and the initial grid.
//! - `kernel`: one propagation pass.
//! - `run`: the pass scheduler and the whole computation.
//! - `laws`: properties of whole runs.
pub mod grid;
pub mod kernel;
pub mod laws;
pub mod run;
pub mod schedule;
pub mod seeds;
