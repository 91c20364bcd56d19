//! Hachi: a lattice-based multilinear polynomial commitment scheme over
//! `R_q = Z_q[X]/(X^d + 1)`, with its arithmetic layer.

pub mod arithmetic;
pub mod hachi;
pub mod stream;
