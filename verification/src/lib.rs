//! Core of a Monte Carlo engine for systems of stochastic differential
//! equations: an equation compiler that turns SDE source strings into indexed
//! programs, a dense state tensor (the Filtration), deterministic incrementor
//! state machines, and pseudo / scrambled-Sobol uniform sources shaped around
//! the engine's access pattern.
//!
//! The verified core works on plain integer data.  Real-valued samples travel
//! through it as the 64 raw bits of an IEEE double; uniform draws travel as
//! 64-bit fixed-point numerators (a draw `u` stands for `u / 2^64`).  The
//! floating-point kernels that consume these bits (coefficient evaluation and
//! the Euler / Runge-Kutta update formulas) live with the unverified driver
//! around this crate.

pub mod backend;
pub mod compile;
pub mod filtration;
pub mod increment;
pub mod process;
pub mod rng;
