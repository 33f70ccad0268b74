//! Lattice sampling: the samplers' parameters, and the maps from random words to
//! coefficient-ring elements.
pub mod toy;
