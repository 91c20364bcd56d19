//! Prover-side steps of one round: the reduction of the evaluation claim and the first message
//! and the next witness (`zq_zq`), the commitment matrices, the commitment to `w`, the folded
//! response and the lifting of ring products to `Z_q[X]` (`rq`), and the two sumcheck
//! polynomials with the prover half of the protocol (`sumcheck`).

pub mod rq;
pub mod zq_zq;
pub mod sumcheck;
