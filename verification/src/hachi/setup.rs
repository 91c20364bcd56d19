//! Public parameters of one round of the scheme for a polynomial in `l` variables: the ring
//! `R_q = Z_q[X]/(X^d + 1)` with `d = 2^10`, the folding split `l = r + m + 10`, the
//! decomposition base and digit counts, the challenge sparsity, and the dimensions and seeds of
//! the commitment matrices.

use vstd::prelude::*;
use vstd::arithmetic::power2::*;
use crate::hachi::Hachi;

verus! {

/// The prime modulus `q = 2^32 - 99`, with `q = 5 (mod 8)`.
pub const Q: u64 = 4294967197;
/// `log2` of the ring dimension.
pub const MAX_ALPHA: usize = 10;
/// The decomposition base `b = 16`; digits are balanced, in `[-8, 7]`.
pub const DECOMP_BASE: u64 = 16;
/// Digits of a full residue: `16^7 < q < 16^8`.
pub const DECOMP_DELTA: usize = 8;
/// Digits of a coefficient of the response `z`.
pub const Z_DECOMP_DELTA: usize = 4;
/// Bound on the infinity norm of the response `z`: the top of the window of four balanced
/// base-16 digits, `7 * (16^4 - 1) / 15`.
pub const Z_BOUND: u64 = 30583;
/// Number of nonzero `+-1` coefficients of a challenge.
pub const K: usize = 16;

/// The public parameters of one round, shared by prover and verifier.
pub struct Parameters {
    /// Number of variables of the committed multilinear polynomial.
    pub l: usize,
    /// The prime modulus.
    pub q: u64,
    /// Ring dimension `d = 2^10`.
    pub d: usize,
    /// Each chunk has `2^m` ring elements, `m = floor((l - 10) / 2)`.
    pub m: usize,
    /// The witness is read as `2^r` chunks, `r = l - m - 10`.
    pub r: usize,
    /// Number of nonzero coefficients of each challenge.
    pub k: usize,
    /// Whether the commitment gadget-decomposes each chunk.
    pub decomp_witness: bool,
    /// Bound on the infinity norm of the folded response.
    pub z_bound: u64,
    /// The decomposition base.
    pub b: u64,
    /// Digits of a residue.
    pub delta: usize,
    /// Digits of a coefficient of `z`.
    pub delta_z: usize,
    /// Height of the commitment matrices.
    pub n: usize,
    /// Width of `A`: `delta * 2^m` with decomposition, else `2^m`.
    pub width_a: usize,
    /// Width of `B`: `n * delta * 2^r`.
    pub width_b: usize,
    /// Width of `D`: `delta * 2^r`.
    pub width_d: usize,
    /// Whether the three widths coincide, so that one matrix serves as `A`, `B` and `D`.
    pub reuse_mats: bool,
    /// Seed of `A`.
    pub a_seed: [u8; 32],
    /// Seed of `B`.
    pub b_seed: [u8; 32],
    /// Seed of `D`.
    pub d_seed: [u8; 32],
}

/// `m = floor((l - 10) / 2)`.
pub open spec fn spec_m(l: nat) -> nat {
    ((l - 10) / 2) as nat
}

/// `r = l - m - 10`.
pub open spec fn spec_r(l: nat) -> nat {
    (l - spec_m(l) - 10) as nat
}

/// The number of variables for which the parameters can be formed on this machine: at least
/// the ten variables of the ring, and matrix widths that fit a `usize`.
pub open spec fn setup_ok(l: nat) -> bool {
    &&& l >= 10
    &&& spec_r(l) < 64
    &&& pow2(spec_r(l)) * 8 <= usize::MAX
}

/// The seed of 32 equal bytes `v`.
pub open spec fn const_seed(v: u8) -> Seq<u8> {
    Seq::new(32, |i: int| v)
}

/// The parameters that [`Setup::setup`] derives for `l` variables.
pub open spec fn params_match(p: Parameters, l: nat, decompose: bool) -> bool {
    let m = spec_m(l);
    let r = spec_r(l);
    let width_a: int = if decompose { pow2(m) as int * 8 } else { pow2(m) as int };
    let width_b: int = pow2(r) as int * 8;
    let width_d: int = pow2(r) as int * 8;
    let reuse = width_a == width_b && width_b == width_d;
    &&& p.l == l
    &&& p.q == Q
    &&& p.d == 1024
    &&& p.m == m
    &&& p.r == r
    &&& p.k == K
    &&& p.decomp_witness == decompose
    &&& p.z_bound == Z_BOUND
    &&& p.b == DECOMP_BASE
    &&& p.delta == DECOMP_DELTA
    &&& p.delta_z == Z_DECOMP_DELTA
    &&& p.n == 1
    &&& p.width_a == width_a
    &&& p.width_b == width_b
    &&& p.width_d == width_d
    &&& p.reuse_mats == reuse
    &&& p.a_seed@ == const_seed(1)
    &&& p.b_seed@ == (if reuse { const_seed(1) } else { const_seed(2) })
    &&& p.d_seed@ == (if reuse { const_seed(1) } else { const_seed(3) })
}

/// Setup is deterministic: the parameters for `l` variables and a choice of decomposition are
/// unique.
pub proof fn lemma_setup_deterministic(p1: Parameters, p2: Parameters, l: nat, decompose: bool)
    requires
        params_match(p1, l, decompose),
        params_match(p2, l, decompose),
    ensures
        p1 == p2,
{
    assert(p1.a_seed@ =~= p2.a_seed@);
    assert(p1.b_seed@ =~= p2.b_seed@);
    assert(p1.d_seed@ =~= p2.d_seed@);
    assert(p1.a_seed == p2.a_seed);
    assert(p1.b_seed == p2.b_seed);
    assert(p1.d_seed == p2.d_seed);
}

/// Parameter generation.
pub trait Setup {
    /// Public parameters for a multilinear polynomial in `l` variables; `decompose` says whether
    /// the commitment decomposes the witness. Deterministic.
    fn setup(l: usize, decompose: bool) -> (p: Parameters)
        requires
            setup_ok(l as nat),
        ensures
            params_match(p, l as nat, decompose),
    ;
}

impl Setup for Hachi {
    fn setup(l: usize, decompose: bool) -> (p: Parameters) {
        let q = Q;
        let alpha = MAX_ALPHA;
        let d: usize = 1024;
        let m = (l - alpha) / 2;
        let r = l - m - alpha;
        proof {
            lemma2_to64();
            assert(m <= r);
            if m < r {
                lemma_pow2_strictly_increases(m as nat, r as nat);
            }
            vstd::bits::lemma_u64_shl_is_mul(1, r as u64);
            vstd::bits::lemma_u64_shl_is_mul(1, m as u64);
        }
        let k = K;
        let decomp_witness = decompose;
        let z_bound = Z_BOUND;
        let b = DECOMP_BASE;
        let delta = DECOMP_DELTA;
        let delta_z = Z_DECOMP_DELTA;
        let n: usize = 1;
        let pow_m = (1u64 << (m as u64)) as usize;
        let pow_r = (1u64 << (r as u64)) as usize;
        let width_a = if decomp_witness { pow_m * delta } else { pow_m };
        let width_b = n * pow_r * delta;
        let width_d = pow_r * delta;
        let reuse_mats = width_a == width_b && width_b == width_d;
        let a_seed = [1u8; 32];
        let seed_two = [2u8; 32];
        let seed_three = [3u8; 32];
        proof {
            assert(a_seed@ =~= const_seed(1));
            assert(seed_two@ =~= const_seed(2));
            assert(seed_three@ =~= const_seed(3));
        }
        let b_seed = if reuse_mats { a_seed } else { seed_two };
        let d_seed = if reuse_mats { a_seed } else { seed_three };
        Parameters {
            l,
            q,
            d,
            m,
            r,
            k,
            decomp_witness,
            z_bound,
            b,
            delta,
            delta_z,
            n,
            width_a,
            width_b,
            width_d,
            reuse_mats,
            a_seed,
            b_seed,
            d_seed,
        }
    }
}

} // verus!
