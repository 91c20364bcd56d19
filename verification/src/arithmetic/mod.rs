//! Arithmetic layer: polynomial vectors and matrices over `R_q = Z_q[X]/(X^d + 1)`, sparse
//! challenges, the gadget decomposition and integer helpers.

pub mod utils;
pub mod poly;
pub mod poly_vec;
pub mod poly_vec_ntt;
pub mod poly_mat;
pub mod poly_mat_ntt;
pub mod field;
pub mod rng;
pub mod poly_chal;
pub mod ring;
pub mod fs;
pub mod sumcheck;
pub mod field_laws;

use vstd::prelude::*;

verus! {

/// Storage type of a polynomial coefficient: a residue of `Z_q` in `[0, q)`, or a wrapping
/// two's-complement short integer.
pub type CoeffType = u64;

/// Storage type of an NTT-domain residue (five primes below `2^30`).
pub type NttType = u32;

/// The field of the sumcheck challenges and round messages, `F_{q^4}`.
pub type ExtField = crate::arithmetic::field::Fq4;

} // verus!
