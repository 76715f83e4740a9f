//! An exact simulator for small quantum circuits built from the gates
//! H, X, T, Tdg and CX.
//!
//! Amplitudes are kept in the ring of numbers a + b * sqrt(2) with integer
//! a and b, so the whole evolution is exact integer arithmetic; only a final
//! projection step (left to the caller) turns the result into floating-point
//! complex numbers.

pub mod ampl;
pub mod bitvec;
pub mod laws;
pub mod prog;
pub mod sim;
pub mod state;
