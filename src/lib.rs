use vstd::prelude::*;

pub mod cell;
pub mod element;
pub mod sandbox;
pub mod simulation;
pub mod sweep;

verus! {

// A falling-sand cellular automaton. `element` holds the catalogue of substances,
// `cell` one grid position, `sandbox` the bordered grid with its random source,
// `simulation` the rule of each element and the tick that sweeps the grid, and `sweep`
// what whole ticks do to simple grids.

} // verus!
