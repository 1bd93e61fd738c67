//! Integer and grid logic of a multi-block lattice Boltzmann flow solver:
//! the D2Q9 lattice, streaming with bounce-back, the solid-cell geometry,
//! the lists of fluid cells that face a solid, and the RGB plot buffer.
#![allow(unused_imports)]

pub mod parameters;
pub mod lattice;
pub mod grid;
pub mod cells;
pub mod advection;
pub mod plot;
pub mod fluid;
pub mod interpolation;
pub mod coupling;
