//! One round of the evaluation proof. The prover reduces the claim to `R_q` and commits to `w`
//! (first message `Y`, `v`), folds the witness with sparse challenges into the response `z`,
//! lifts every row of the verification equation to `Z_q[X]` to obtain its quotient by
//! `X^d + 1`, forms and commits to the next witness, and runs the two sumchecks on it, every
//! challenge being derived from the Fiat-Shamir transcript `u, Y, v, u'` and the round messages.

use vstd::prelude::*;
use vstd::arithmetic::power2::pow2;
use crate::arithmetic::field::{Fq4, MODULUS};
use crate::arithmetic::fs::{FS, Serialise, transcript_seed, seed_fits, len_fits};
use crate::arithmetic::poly::cdiv_rem;
use crate::arithmetic::poly_chal::{PChal, entry_exp, sorted_u32};
use crate::arithmetic::poly_mat::PMat;
use crate::arithmetic::poly_mat_ntt::PMatNtt;
use crate::arithmetic::poly_vec::PVec;
use crate::arithmetic::ring::{Ring, row_product, ntt_size_ok, chal_dot};
use crate::arithmetic::sumcheck::{Univariate, SumCheckPoly};
use crate::arithmetic::utils::{Logarithm, ceil_log2, is_ceil_log2, lemma_ceil_log2_unique, is_pow2, powers, fpow, exp2_of, pow2_usize};
use crate::hachi::Hachi;
use crate::hachi::common::{
    m_height, m_width, m_mu, m_rows, mats_fit, seeded_mat, lemma_table_dims, lemma_ceil_pow2,
    form_m_alpha_different_matrices, form_m_alpha_same_matrix,
};
use crate::hachi::commit::{
    Commit, CommitmentWithState, commit_stream, commitment_of, commit_inputs, residue_witness, chunk_row_ok, chunk_committed,
    ntt_of, decomposes, chunk, lemma_row_product_bound, lemma_residues,
};
use crate::hachi::setup::{Parameters, Setup, setup_ok, params_match, spec_m, spec_r};
use crate::hachi::verify::{
    next_num_vars, log_rows, transcript_chals, transcript_field, chals_from, field_draws, lemma_field_draws_len,
    sc_chal, sc_transcript, mle, m_table, draw_fields, lemma_table_seq,
};
use crate::hachi::prover_utils::rq::{
    prover_params, full_ring, cyclotomic_ring, full_product, sample_matrices, commit_w_and_lift, compute_z,
    lift_c_i_t_i, cfold, is_seeded, zfold, within_bound,
};
use crate::hachi::prover_utils::zq_zq::{compute_y_and_w, form_next_witness, y_acc, chunk_dot, next_witness_ok};
use crate::hachi::prover_utils::sumcheck::{
    F0, FAlpha, round_bytes, lift_table, mbar_table, sumcheck_proof, sumcheck_messages_ok,
};
use crate::stream::Stream;

verus! {

/// The prover's messages of one round.
pub struct ProofRound {
    /// The ring element `Y` to which the evaluation claim is reduced (one element).
    pub y: PVec,
    /// The commitment `v = D w_hat` to the first message.
    pub v: PVec,
    /// The commitment to the next witness.
    pub u_dash: PVec,
    /// Round messages of the sumcheck on `F_alpha`.
    pub univariates_f_alpha: Vec<Univariate>,
    /// Round messages of the sumcheck on `F_0`.
    pub univariates_f_0: Vec<Univariate>,
    /// The claimed evaluation of the next witness at the sumcheck challenges.
    pub y_dash: Fq4,
}

/// The next round's parameters and witness fit this machine: setup can be formed for its
/// `nu` variables, the witness of `2^nu` entries fits in memory, and so do its matrices.
pub open spec fn next_fits(nv: nat) -> bool {
    &&& setup_ok(nv)
    &&& pow2(nv) <= usize::MAX
    &&& pow2(spec_m(nv)) * 1024 <= usize::MAX
    &&& pow2(spec_r(nv)) * 8192 <= usize::MAX
}

/// The public inputs the prover works on: parameters from setup with the witness decomposed, an
/// evaluation point of `l` residues, and a witness, matrices, tables and a next round that fit in
/// memory.
pub open spec fn prove_inputs(p: Parameters, x: Seq<u64>) -> bool {
    &&& prover_params(p)
    &&& p.decomp_witness
    &&& pow2(p.l as nat) <= usize::MAX
    &&& x.len() >= p.l
    &&& forall|t: int| 0 <= t < p.l ==> #[trigger] x[t] < p.q
    &&& m_height(p) * m_width(p) <= usize::MAX
    &&& next_fits(next_num_vars(p))
}

/// The number of suffixes the first message of `F_0` sums: those that reach into the unpadded
/// part of the next witness.
pub open spec fn first_terms(p: Parameters) -> nat {
    let len = ((m_mu(p) + m_rows(p) * p.delta) * p.d) as nat;
    let half = pow2(next_num_vars(p)) / 2;
    if (len + 1) / 2 < half {
        (len + 1) / 2
    } else {
        half
    }
}

/// `ss` are the committed forms (the digits) of the `2^r` chunks of the witness `f`.
pub open spec fn committed_chunks(ss: Seq<PVec>, p: Parameters, f: Seq<u64>) -> bool {
    &&& ss.len() == pow2(p.r as nat)
    &&& forall|i: int| 0 <= i < ss.len() ==> #[trigger] chunk_committed(ss[i], p, f, i)
}

/// `w` holds `w_i = a^T f_i`: chunk `i` of the witness folded with the monomials `a_j` of the
/// point's `m` middle coordinates, reduced modulo `q`.
pub open spec fn folded_chunks(w: PVec, p: Parameters, x: Seq<u64>, f: Seq<u64>) -> bool {
    &&& w.wf() && w.len == pow2(p.r as nat) && w.d == p.d
    &&& forall|i: int, t: int| 0 <= i < pow2(p.r as nat) && 0 <= t < p.d ==> #[trigger] w.coeff(i, t)
        == chunk_dot(p, x, f, i, t, pow2(p.m as nat)) % (p.q as int)
}

/// `z_r` is the next witness formed from the witness `f`, committed to as `com`, for the sparse
/// challenges `chals`: the digits `w_hat` of `w`, the digits `t_hat` of `t`, the digits of the
/// response `z = sum_i c_i s_i` (within its norm bound) and of the quotients by `X^d + 1` of the
/// lifted rows `D w_hat`, `B t_hat`, `sum_i c_i w_i`, `sum_i c_i t_i` and `A z`, the matrices
/// being those regenerated from the seeds.
pub open spec fn next_witness_of(
    z_r: Seq<u64>,
    p: Parameters,
    x: Seq<u64>,
    f: Seq<u64>,
    com: CommitmentWithState,
    chals: Seq<PChal>,
) -> bool {
    exists|w: PVec, w_hat: PVec, z: PVec, ss: Seq<PVec>, v_quo: PVec, u_quo: PVec, cw: PVec, ct: PVec, az: PVec,
        a_ntt: PMatNtt, b_ntt: PMatNtt, d_ntt: PMatNtt|
        #![trigger folded_chunks(w, p, x, f), committed_chunks(ss, p, f),
            ntt_of(a_ntt, seeded_mat(p, p.a_seed@, p.width_a as int), p.n as nat, p.width_a as nat, p.d as nat, 2 * p.d as nat),
            ntt_of(b_ntt, seeded_mat(p, p.b_seed@, p.width_b as int), p.n as nat, p.width_b as nat, p.d as nat, 2 * p.d as nat),
            ntt_of(d_ntt, seeded_mat(p, p.d_seed@, p.width_d as int), p.n as nat, p.width_d as nat, p.d as nat, 2 * p.d as nat),
            next_witness_ok(z_r, next_num_vars(p), p, w_hat, com.t_hat, z, v_quo, u_quo, cw, ct, az)]
        {
            &&& folded_chunks(w, p, x, f)
            &&& decomposes(w_hat, w.vec@, pow2(p.r as nat), p)
            &&& committed_chunks(ss, p, f)
            &&& z.wf() && z.len == pow2(p.m as nat) * p.delta && z.d == p.d
            &&& forall|e: int, t: int| 0 <= e < z.len && 0 <= t < p.d ==> #[trigger] z.coeff(e, t)
                == zfold(ss, chals, e, t, p.d as int, pow2(p.r as nat))
            &&& within_bound(z.vec@, p.z_bound as int)
            &&& ntt_of(a_ntt, seeded_mat(p, p.a_seed@, p.width_a as int), p.n as nat, p.width_a as nat, p.d as nat, 2 * p.d as nat)
            &&& ntt_of(b_ntt, seeded_mat(p, p.b_seed@, p.width_b as int), p.n as nat, p.width_b as nat, p.d as nat, 2 * p.d as nat)
            &&& ntt_of(d_ntt, seeded_mat(p, p.d_seed@, p.width_d as int), p.n as nat, p.width_d as nat, p.d as nat, 2 * p.d as nat)
            &&& forall|row: int, j: int| 0 <= row < p.n && 0 <= j < p.d ==> #[trigger] v_quo.coeff(row, j)
                == full_product(d_ntt, w_hat, p, row)[j + p.d]
            &&& forall|row: int, j: int| 0 <= row < p.n && 0 <= j < p.d ==> #[trigger] u_quo.coeff(row, j)
                == full_product(b_ntt, com.t_hat, p, row)[j + p.d]
            &&& forall|j: int| 0 <= j < p.d ==> #[trigger] cw.coeff(0, j)
                == chal_dot(chals, w, j + p.d, p.d as int, false, w.len as nat) % (p.q as int)
            &&& forall|row: int, j: int| 0 <= row < p.n && 0 <= j < p.d ==> #[trigger] ct.coeff(row, j)
                == cfold(chals, com.t, p.n as int, row, j + p.d, p.d as int, p.q as int, pow2(p.r as nat))
            &&& forall|row: int, j: int| 0 <= row < p.n && 0 <= j < p.d ==> #[trigger] az.coeff(row, j)
                == full_product(a_ntt, z, p, row)[j + p.d]
            &&& next_witness_ok(z_r, next_num_vars(p), p, w_hat, com.t_hat, z, v_quo, u_quo, cw, ct, az)
        }
}

/// `pr` is the proof the prover sends for the witness `f`, committed to as `com`, at the point `x`:
/// `Y` is the reduction of the witness, both transcripts fit a seed, and the sumcheck messages
/// and `y'` are those of one next witness `z_r` of `2^nu` entries committed to as `u'`, for the
/// sparse challenges and field elements derived from the transcripts; `u'` is its commitment
/// under the parameters of `nu` variables without decomposition, and it is formed from `f` as
/// [`next_witness_of`] says; `Y` and `v` are the first message of the round's values as
/// [`round_with`] says, so `v` is the remainder of the lifted `D w_hat`.
pub open spec fn proof_of(pr: ProofRound, p: Parameters, x: Seq<u64>, com: CommitmentWithState, f: Seq<u64>) -> bool {
    let u = com.u;
    let t2 = transcript_field(u, pr);
    let nv = next_num_vars(p);
    let ln = log_rows(p);
    let draws = field_draws(transcript_seed(t2), 1 + nv + ln).0;
    let alpha = draws[0];
    let tau_0 = draws.subrange(1, 1 + nv as int);
    let tau_1 = draws.subrange(1 + nv as int, 1 + nv as int + ln as int);
    let pows = Seq::new(p.d as nat, |i: int| fpow(alpha, i as nat));
    let ga = pr.univariates_f_alpha@;
    let g0 = pr.univariates_f_0@;
    &&& pr.y.wf() && pr.y.len == 1 && pr.y.d == p.d
    &&& forall|t: int| 0 <= t < p.d ==> #[trigger] pr.y.coeff(0, t) == y_acc(p, x, f, t, pow2(p.r as nat), 0)
    &&& pr.v.wf() && pr.v.len == p.n && pr.v.d == p.d
    &&& pr.u_dash.wf()
    &&& seed_fits(transcript_chals(u, pr))
    &&& seed_fits(t2)
    &&& exists|chals: Seq<PChal>, z_r: Seq<u64>|
        #![trigger chals_from(chals, p, transcript_seed(transcript_chals(u, pr))), lift_table(z_r)]
        {
            &&& chals_from(chals, p, transcript_seed(transcript_chals(u, pr)))
            &&& z_r.len() == pow2(nv)
            &&& sumcheck_messages_ok(
                t2,
                ga,
                g0,
                nv,
                lift_table(z_r),
                tau_0,
                p.b as int,
                first_terms(p),
                pows,
                mbar_table(m_table(p, x, chals, pows), tau_1),
                10,
            )
            &&& pr.y_dash == mle(lift_table(z_r), Seq::new(nv, |j: int| sc_chal(t2, ga, g0, j as nat)))
            &&& exists|c: CommitmentWithState, np: Parameters|
                #[trigger] commitment_of(c, np, z_r) && c.u == pr.u_dash && params_match(np, nv, false)
            &&& next_witness_of(z_r, p, x, f, com, chals)
            &&& exists|w: PVec, w_hat: PVec, a_ntt: PMatNtt, b_ntt: PMatNtt, d_ntt: PMatNtt, ss: Seq<PVec>, z: PVec|
                #[trigger] round_with(p, x, com, f, pr.y, w, w_hat, pr.v, a_ntt, b_ntt, d_ntt, chals, ss, z)
        }
}

/// `ceil(log2(1024 x)) = ceil(log2(x)) + 10`.
proof fn lemma_ceil_log2_times_d(x: nat)
    requires
        x >= 1,
    ensures
        ceil_log2(x * 1024) == ceil_log2(x) + 10,
{
    let k = ceil_log2(x);
    lemma_ceil_pow2(x);
    vstd::arithmetic::power2::lemma2_to64();
    vstd::arithmetic::power2::lemma_pow2_adds(k, 10);
    if k > 0 {
        vstd::arithmetic::power2::lemma_pow2_adds((k - 1) as nat, 10);
        assert(pow2((k - 1) as nat) * 1024 < x * 1024);
    } else {
        assert(x == 1);
    }
    assert(is_ceil_log2(x * 1024, k + 10));
    lemma_ceil_log2_unique(x * 1024, k + 10);
}

/// Every coefficient of the inner commitments of a commitment is a residue.
proof fn lemma_commitment_residues(c: CommitmentWithState, p: Parameters, f: Seq<u64>)
    requires
        commitment_of(c, p, f),
        p.n == 1,
        p.q > 0,
    ensures
        forall|k: int| 0 <= k < c.t.vec@.len() ==> #[trigger] c.t.vec@[k] < p.q,
{
    let chunks = pow2(p.r as nat);
    let a_ntt = choose|a_ntt: PMatNtt|
        {
            &&& ntt_of(a_ntt, seeded_mat(p, p.a_seed@, p.width_a as int), p.n as nat, p.width_a as nat, p.d as nat, p.d as nat)
            &&& forall|i: int| 0 <= i < chunks ==> #[trigger] chunk_row_ok(c.t, a_ntt, p, f, i)
        };
    assert forall|e: int, j: int| 0 <= e < c.t.len && 0 <= j < c.t.d implies #[trigger] c.t.elem(e)[j] < p.q by {
        assert(chunk_row_ok(c.t, a_ntt, p, f, e));
        let s = choose|s: PVec|
            {
                &&& #[trigger] chunk_committed(s, p, f, e)
                &&& forall|row: int| 0 <= row < p.n ==> c.t.elem(e * p.n + row) == row_product(a_ntt, s, row, p.d as nat, p.q as int)
            };
        assert(c.t.elem(e * 1 + 0) == row_product(a_ntt, s, 0, p.d as nat, p.q as int));
        assert(e * 1 + 0 == e);
        crate::arithmetic::poly_vec::lemma_flat(e, j, c.t.d as int, c.t.len as int);
        assert(c.t.elem(e).len() == c.t.d);
        lemma_row_product_bound(a_ntt, s, 0, p.d as nat, p.q as int);
    }
    lemma_residues(c.t, p.q as int);
}

/// `M vec` over `Z_q[X]`, split by `X^d + 1` into its quotient and remainder.
fn lift_product(params: &Parameters, ring: &Ring, mat: &PMatNtt, vec: &PVec) -> (res: (PVec, PVec))
    requires
        prover_params(*params),
        full_ring(*ring, *params),
        mat.wf(),
        mat.vec.d == 2 * params.d,
        mat.height == params.n,
        mat.width == vec.len,
        vec.wf(),
        vec.d == params.d,
    ensures
        res.0.wf() && res.0.len == params.n && res.0.d == params.d,
        res.1.wf() && res.1.len == params.n && res.1.d == params.d,
        forall|k: int| 0 <= k < res.0.vec@.len() ==> #[trigger] res.0.vec@[k] < params.q,
        forall|row: int, j: int| 0 <= row < params.n && 0 <= j < params.d ==> #[trigger] res.0.coeff(row, j)
            == full_product(*mat, *vec, *params, row)[j + params.d],
        forall|row: int, j: int| 0 <= row < params.n && 0 <= j < params.d ==> #[trigger] res.1.coeff(row, j)
            == cdiv_rem(full_product(*mat, *vec, *params, row)[j], full_product(*mat, *vec, *params, row)[j + params.d], params.q),
{
    let ghost p = *params;
    proof {
        vstd::arithmetic::power2::lemma2_to64();
        assert(is_pow2(p.d as nat)) by {
            assert(10 < 64 && p.d == pow2(10));
        }
        assert(is_pow2(2 * p.d as nat)) by {
            assert(11 < 64 && 2 * p.d == pow2(11));
        }
    }
    let mut full = PVec::zero(params.n, 2 * params.d);
    ring.mat_mul_vec(mat, vec, &mut full, 0);
    let mut quo = PVec::zero(params.n, params.d);
    let mut rem = PVec::zero(params.n, params.d);
    full.cyclotomic_div(params.q, &mut quo, &mut rem);
    proof {
        let d = p.d as int;
        assert forall|row: int, j: int| 0 <= row < p.n && 0 <= j < 2 * d implies #[trigger] full.coeff(row, j)
            == full_product(*mat, *vec, p, row)[j] by {
            crate::arithmetic::poly_vec::lemma_flat(row, j, 2 * d, p.n as int);
            assert(full.elem(0 + row) == full_product(*mat, *vec, p, row));
        }
        assert forall|e: int, j: int| 0 <= e < quo.len && 0 <= j < quo.d implies #[trigger] quo.elem(e)[j] < p.q by {
            crate::arithmetic::poly_vec::lemma_flat(e, j, d, p.n as int);
            crate::arithmetic::poly_vec::lemma_flat(e, j + d, 2 * d, p.n as int);
            assert(quo.coeff(e, j) == full.coeff(e, j + d));
            assert(full.elem(0 + e) == full_product(*mat, *vec, p, e));
            assert(full.elem(e).len() == 2 * d);
            assert(full.coeff(e, j + d) == full_product(*mat, *vec, p, e)[j + d]);
            lemma_row_product_bound(*mat, *vec, e, (2 * p.d) as nat, p.q as int);
            assert(quo.elem(e)[j] == quo.coeff(e, j));
        }
        lemma_residues(quo, p.q as int);
    }
    (quo, rem)
}

/// Whether two vectors hold the same coefficients.
fn same_coeffs(a: &PVec, b: &PVec) -> (eq: bool)
    ensures
        eq == (a.vec@ == b.vec@),
{
    let sa = a.slice();
    let sb = b.slice();
    if sa.len() != sb.len() {
        return false;
    }
    let mut i: usize = 0;
    while i < sa.len()
        invariant
            0 <= i <= sa@.len(),
            sa@ == a.vec@,
            sb@ == b.vec@,
            sa@.len() == sb@.len(),
            forall|k: int| 0 <= k < i ==> sa@[k] == sb@[k],
        decreases sa@.len() - i,
    {
        if sa[i] != sb[i] {
            return false;
        }
        i = i + 1;
    }
    proof {
        assert(sa@ =~= sb@);
    }
    true
}

/// A vector whose coefficients are all residues holds residues throughout.
proof fn lemma_coeff_residues(v: PVec, q: int)
    requires
        v.wf(),
        forall|e: int, j: int| 0 <= e < v.len && 0 <= j < v.d ==> #[trigger] v.coeff(e, j) < q,
    ensures
        forall|k: int| 0 <= k < v.vec@.len() ==> #[trigger] v.vec@[k] < q,
{
    assert forall|e: int, j: int| 0 <= e < v.len && 0 <= j < v.d implies #[trigger] v.elem(e)[j] < q by {
        crate::arithmetic::poly_vec::lemma_flat(e, j, v.d as int, v.len as int);
        assert(v.elem(e)[j] == v.coeff(e, j));
    }
    lemma_residues(v, q);
}

/// `exp2_of(1024) = 10`.
proof fn lemma_exp2_of_d()
    ensures
        exp2_of(1024) == 10,
{
    vstd::arithmetic::power2::lemma2_to64();
    assert(10 < 64 && 1024 == pow2(10));
    let k = exp2_of(1024);
    if k < 10 {
        vstd::arithmetic::power2::lemma_pow2_strictly_increases(k, 10);
    } else if k > 10 {
        vstd::arithmetic::power2::lemma_pow2_strictly_increases(10, k);
    }
}

/// Facts about the parameters the prover uses throughout.
proof fn lemma_prover_params(p: Parameters)
    requires
        prover_params(p),
        p.decomp_witness,
    ensures
        ntt_size_ok(p.d as nat),
        ntt_size_ok((2 * p.d) as nat),
        is_pow2(p.d as nat),
        is_pow2((2 * p.d) as nat),
        pow2(p.r as nat) >= 1,
        pow2(p.m as nat) >= 1,
        pow2(p.r as nat) * 8192 <= usize::MAX,
        pow2(p.m as nat) * 8192 <= usize::MAX,
        p.n == 1,
        p.d == 1024,
        p.q == MODULUS,
        p.delta == 8,
        p.b == 16,
        p.width_a == pow2(p.m as nat) * 8,
        p.width_b == pow2(p.r as nat) * 8,
        p.width_d == pow2(p.r as nat) * 8,
        p.l == p.r + p.m + 10,
{
    vstd::arithmetic::power2::lemma2_to64();
    assert(ntt_size_ok(p.d as nat)) by {
        assert(5 <= 10 <= 15 && p.d == pow2(10));
    }
    assert(ntt_size_ok((2 * p.d) as nat)) by {
        assert(5 <= 11 <= 15 && 2 * p.d == pow2(11));
    }
    assert(is_pow2(p.d as nat)) by {
        assert(10 < 64 && p.d == pow2(10));
    }
    assert(is_pow2((2 * p.d) as nat)) by {
        assert(11 < 64 && 2 * p.d == pow2(11));
    }
    vstd::arithmetic::power2::lemma_pow2_pos(p.r as nat);
    vstd::arithmetic::power2::lemma_pow2_pos(p.m as nat);
    assert(pow2(p.r as nat) * 8192 <= usize::MAX) by (nonlinear_arith)
        requires
            p.n * p.width_d * p.d <= usize::MAX,
            p.n == 1,
            p.width_d == pow2(p.r as nat) * 8,
            p.d == 1024,
    ;
    assert(pow2(p.m as nat) * 8192 <= usize::MAX) by (nonlinear_arith)
        requires
            p.n * p.width_a * p.d <= usize::MAX,
            p.n == 1,
            p.width_a == pow2(p.m as nat) * 8,
            p.d == 1024,
    ;
}

/// The first message: `Y` and `w` from the witness, `w_hat = G^{-1}(w)`, and `v` with the
/// quotient of `D w_hat` by `X^d + 1`.
fn first_message<S: Stream<u64>>(
    witness: &mut S,
    params: &Parameters,
    x: &[u64],
    ring_full: &Ring,
    ring_cyclotomic: &Ring,
    mat_d_ntt: &PMatNtt,
) -> (res: (PVec, PVec, PVec, PVec, PVec))
    requires
        prove_inputs(*params, x@),
        commit_inputs(*params, old(witness).contents()),
        full_ring(*ring_full, *params),
        cyclotomic_ring(*ring_cyclotomic, *params),
        ntt_of(*mat_d_ntt, seeded_mat(*params, params.d_seed@, params.width_d as int), params.n as nat, params.width_d as nat, params.d as nat, 2 * params.d as nat),
    ensures
        final(witness).contents() == old(witness).contents(),
        res.0.wf() && res.0.len == 1 && res.0.d == params.d,
        forall|t: int| 0 <= t < params.d ==> #[trigger] res.0.coeff(0, t)
            == y_acc(*params, x@, old(witness).contents(), t, pow2(params.r as nat), 0),
        folded_chunks(res.1, *params, x@, old(witness).contents()),
        forall|k: int| 0 <= k < res.1.vec@.len() ==> #[trigger] res.1.vec@[k] < params.q,
        decomposes(res.2, res.1.vec@, pow2(params.r as nat), *params),
        res.3.wf() && res.3.len == params.n && res.3.d == params.d,
        res.4.wf() && res.4.len == params.n && res.4.d == params.d,
        forall|k: int| 0 <= k < res.4.vec@.len() ==> #[trigger] res.4.vec@[k] < params.q,
        forall|row: int, j: int| 0 <= row < params.n && 0 <= j < params.d ==> #[trigger] res.4.coeff(row, j)
            == full_product(*mat_d_ntt, res.2, *params, row)[j + params.d],
        res.3.vec@ == product_rem(*mat_d_ntt, res.2, *params),
{
    let ghost p = *params;
    proof {
        lemma_prover_params(p);
    }
    let pow_r = pow2_usize(params.r);
    let mut y = PVec::zero(1, params.d);
    let mut w = PVec::zero(pow_r, params.d);
    compute_y_and_w(witness, params, x, ring_cyclotomic, &mut y, &mut w);
    proof {
        assert forall|e: int, j: int| 0 <= e < w.len && 0 <= j < w.d implies #[trigger] w.coeff(e, j) < p.q by {}
        lemma_coeff_residues(w, p.q as int);
    }
    let mut w_hat = PVec::zero(pow_r * params.delta, params.d);
    let mut v_quo = PVec::zero(params.n, params.d);
    let mut v = PVec::zero(params.n, params.d);
    commit_w_and_lift(params, ring_full, mat_d_ntt, &w, &mut w_hat, &mut v, &mut v_quo);
    proof {
        lemma_rem_of_product(v, *mat_d_ntt, w_hat, p);
        assert forall|e: int, j: int| 0 <= e < v_quo.len && 0 <= j < v_quo.d implies #[trigger] v_quo.coeff(e, j) < p.q by {
            lemma_row_product_bound(*mat_d_ntt, w_hat, e, (2 * p.d) as nat, p.q as int);
            let fp = full_product(*mat_d_ntt, w_hat, p, e);
            assert(v_quo.coeff(e, j) == fp[j + p.d]);
        }
        lemma_coeff_residues(v_quo, p.q as int);
    }
    (y, w, w_hat, v, v_quo)
}

/// The remainders by `X^d + 1` of the rows of `M vec` over `Z_q[X]`, coefficient after
/// coefficient, row after row.
pub open spec fn product_rem(m: PMatNtt, vec: PVec, p: Parameters) -> Seq<u64> {
    Seq::new((p.n * p.d) as nat, |k: int| {
        let fp = full_product(m, vec, p, k / (p.d as int));
        cdiv_rem(fp[k % (p.d as int)], fp[k % (p.d as int) + p.d], p.q)
    })
}

/// The remainders by `X^d + 1` of the rows of `sum_i c_i t_i` over `Z_q[X]`, coefficient after
/// coefficient, row after row.
pub open spec fn cfold_rem(chals: Seq<PChal>, t: PVec, p: Parameters) -> Seq<u64> {
    let n = p.n as int;
    let d = p.d as int;
    Seq::new((p.n * p.d) as nat, |k: int|
        cdiv_rem(
            cfold(chals, t, n, k / d, k % d, d, p.q as int, pow2(p.r as nat)) as u64,
            cfold(chals, t, n, k / d, k % d + d, d, p.q as int, pow2(p.r as nat)) as u64,
            p.q,
        ))
}

/// A vector whose coefficient `j` of element `e` is entry `e d + j` of `s` holds `s`.
proof fn lemma_vec_of_coeffs(v: PVec, s: Seq<u64>)
    requires
        v.wf(),
        s.len() == v.len * v.d,
        forall|e: int, j: int| 0 <= e < v.len && 0 <= j < v.d ==> #[trigger] v.coeff(e, j) == s[e * v.d + j],
    ensures
        v.vec@ == s,
{
    let d = v.d as int;
    vstd::arithmetic::power2::lemma_pow2_pos(v.logd as nat);
    assert forall|k: int| 0 <= k < v.vec@.len() implies #[trigger] v.vec@[k] == s[k] by {
        let e = k / d;
        let j = k % d;
        vstd::arithmetic::div_mod::lemma_fundamental_div_mod(k, d);
        vstd::arithmetic::div_mod::lemma_mod_bound(k, d);
        assert(0 <= e < v.len) by (nonlinear_arith)
            requires
                0 <= k < v.len * d,
                d > 0,
                e == k / d,
        ;
        assert(e * d + j == k) by (nonlinear_arith)
            requires
                k == d * (k / d) + k % d,
                e == k / d,
                j == k % d,
        ;
        assert(v.coeff(e, j) == s[e * d + j]);
    }
    assert(v.vec@ =~= s);
}

/// The remainders [`lift_product`] gives are those of [`product_rem`].
proof fn lemma_rem_of_product(rem: PVec, m: PMatNtt, vec: PVec, p: Parameters)
    requires
        rem.wf() && rem.len == p.n && rem.d == p.d,
        forall|row: int, j: int| 0 <= row < p.n && 0 <= j < p.d ==> #[trigger] rem.coeff(row, j)
            == cdiv_rem(full_product(m, vec, p, row)[j], full_product(m, vec, p, row)[j + p.d], p.q),
    ensures
        rem.vec@ == product_rem(m, vec, p),
{
    let s = product_rem(m, vec, p);
    assert forall|e: int, j: int| 0 <= e < rem.len && 0 <= j < rem.d implies #[trigger] rem.coeff(e, j) == s[e * rem.d + j] by {
        crate::arithmetic::poly_vec::lemma_flat(e, j, p.d as int, p.n as int);
    }
    lemma_vec_of_coeffs(rem, s);
}

/// The rows of the verification equation lifted to `Z_q[X]`, as their quotients by `X^d + 1`:
/// of `B t_hat`, whose remainder must be `u`; of `sum_i c_i w_i`; of `sum_i c_i t_i` and of
/// `A z`, whose remainders must agree. `None` if either check fails.
fn lift_rows(
    params: &Parameters,
    ring_full: &Ring,
    mat_a_ntt: &PMatNtt,
    mat_b_ntt: &PMatNtt,
    com: &CommitmentWithState,
    challenges: &Vec<PChal>,
    w: &PVec,
    z: &PVec,
) -> (res: Option<(PVec, PVec, PVec, PVec)>)
    requires
        prover_params(*params),
        params.decomp_witness,
        full_ring(*ring_full, *params),
        ntt_of(*mat_a_ntt, seeded_mat(*params, params.a_seed@, params.width_a as int), params.n as nat, params.width_a as nat, params.d as nat, 2 * params.d as nat),
        ntt_of(*mat_b_ntt, seeded_mat(*params, params.b_seed@, params.width_b as int), params.n as nat, params.width_b as nat, params.d as nat, 2 * params.d as nat),
        com.t.wf() && com.t.len == params.n * pow2(params.r as nat) && com.t.d == params.d,
        forall|k: int| 0 <= k < com.t.vec@.len() ==> #[trigger] com.t.vec@[k] < params.q,
        com.t_hat.wf() && com.t_hat.len == params.n * pow2(params.r as nat) * params.delta && com.t_hat.d == params.d,
        challenges@.len() == pow2(params.r as nat),
        forall|i: int, j: int| 0 <= i < challenges@.len() && 0 <= j < challenges@[i].coeffs@.len()
            ==> entry_exp(#[trigger] challenges@[i].coeffs@[j]) < params.d,
        w.wf() && w.len == pow2(params.r as nat) && w.d == params.d,
        forall|k: int| 0 <= k < w.vec@.len() ==> #[trigger] w.vec@[k] < params.q,
        z.wf() && z.len == pow2(params.m as nat) * params.delta && z.d == params.d,
    ensures
        res matches Some(qs) ==> {
            &&& qs.0.wf() && qs.0.len == params.n && qs.0.d == params.d
            &&& qs.1.wf() && qs.1.len == 1 && qs.1.d == params.d
            &&& qs.2.wf() && qs.2.len == params.n && qs.2.d == params.d
            &&& qs.3.wf() && qs.3.len == params.n && qs.3.d == params.d
            &&& forall|k: int| 0 <= k < qs.0.vec@.len() ==> #[trigger] qs.0.vec@[k] < params.q
            &&& forall|k: int| 0 <= k < qs.1.vec@.len() ==> #[trigger] qs.1.vec@[k] < params.q
            &&& forall|k: int| 0 <= k < qs.2.vec@.len() ==> #[trigger] qs.2.vec@[k] < params.q
            &&& forall|k: int| 0 <= k < qs.3.vec@.len() ==> #[trigger] qs.3.vec@[k] < params.q
            &&& forall|row: int, j: int| 0 <= row < params.n && 0 <= j < params.d ==> #[trigger] qs.0.coeff(row, j)
                == full_product(*mat_b_ntt, com.t_hat, *params, row)[j + params.d]
            &&& forall|j: int| 0 <= j < params.d ==> #[trigger] qs.1.coeff(0, j)
                == chal_dot(challenges@, *w, j + params.d, params.d as int, false, w.len as nat) % (params.q as int)
            &&& forall|row: int, j: int| 0 <= row < params.n && 0 <= j < params.d ==> #[trigger] qs.2.coeff(row, j)
                == cfold(challenges@, com.t, params.n as int, row, j + params.d, params.d as int, params.q as int, pow2(params.r as nat))
            &&& forall|row: int, j: int| 0 <= row < params.n && 0 <= j < params.d ==> #[trigger] qs.3.coeff(row, j)
                == full_product(*mat_a_ntt, *z, *params, row)[j + params.d]
        },
        res is Some <==> (com.u.vec@ == product_rem(*mat_b_ntt, com.t_hat, *params)
            && cfold_rem(challenges@, com.t, *params) == product_rem(*mat_a_ntt, *z, *params)),
{
    let ghost p = *params;
    proof {
        lemma_prover_params(p);
    }
    let (u_quo, u_rem) = lift_product(params, ring_full, mat_b_ntt, &com.t_hat);
    proof {
        lemma_rem_of_product(u_rem, *mat_b_ntt, com.t_hat, p);
    }
    if !same_coeffs(&com.u, &u_rem) {
        return None;
    }
    let mut c_i_w_i_full = PVec::zero(1, 2 * params.d);
    proof {
        assert forall|t: int| 0 <= t < 2 * p.d implies #[trigger] c_i_w_i_full.coeff(0, t) < p.q by {
            crate::arithmetic::poly_vec::lemma_flat(0, t, 2 * p.d as int, 1);
        }
    }
    ring_full.chal_vec_mul_poly_vec(challenges, w, &mut c_i_w_i_full, 0);
    let mut c_i_w_i_quo = PVec::zero(1, params.d);
    let mut c_i_w_i_rem = PVec::zero(1, params.d);
    c_i_w_i_full.cyclotomic_div(params.q, &mut c_i_w_i_quo, &mut c_i_w_i_rem);
    proof {
        assert forall|j: int| 0 <= j < p.d implies #[trigger] c_i_w_i_quo.coeff(0, j)
            == chal_dot(challenges@, *w, j + p.d, p.d as int, false, w.len as nat) % (p.q as int) by {
            assert(c_i_w_i_quo.coeff(0, j) == c_i_w_i_full.coeff(0, j + p.d));
            crate::arithmetic::poly_vec::lemma_flat(0, j + p.d, 2 * p.d as int, 1);
        }
        assert forall|e: int, j: int| 0 <= e < c_i_w_i_quo.len && 0 <= j < c_i_w_i_quo.d implies #[trigger] c_i_w_i_quo.coeff(e, j) < p.q by {
            assert(c_i_w_i_quo.coeff(0, j) == c_i_w_i_full.coeff(0, j + p.d));
        }
        lemma_coeff_residues(c_i_w_i_quo, p.q as int);
    }
    let mut c_i_t_i_quo = PVec::zero(params.n, params.d);
    let mut c_i_t_i_rem = PVec::zero(params.n, params.d);
    lift_c_i_t_i(params, ring_full, challenges, &com.t, &mut c_i_t_i_quo, &mut c_i_t_i_rem);
    proof {
        assert forall|e: int, j: int| 0 <= e < c_i_t_i_quo.len && 0 <= j < c_i_t_i_quo.d implies #[trigger] c_i_t_i_quo.coeff(e, j) < p.q by {
            let k = pow2(p.r as nat);
            assert(cfold(challenges@, com.t, p.n as int, e, j + p.d, p.d as int, p.q as int, k)
                == (cfold(challenges@, com.t, p.n as int, e, j + p.d, p.d as int, p.q as int, (k - 1) as nat) + crate::arithmetic::ring::sparse_sum(
                    challenges@[k - 1].coeffs@, com.t.elem((k - 1) * p.n + e), j + p.d, p.d as int, false,
                    challenges@[k - 1].coeffs@.len())) % (p.q as int));
        }
        lemma_coeff_residues(c_i_t_i_quo, p.q as int);
    }
    let (mat_a_z_quo, mat_a_z_rem) = lift_product(params, ring_full, mat_a_ntt, z);
    proof {
        lemma_rem_of_product(mat_a_z_rem, *mat_a_ntt, *z, p);
        let s = cfold_rem(challenges@, com.t, p);
        assert forall|e: int, j: int| 0 <= e < c_i_t_i_rem.len && 0 <= j < c_i_t_i_rem.d implies #[trigger] c_i_t_i_rem.coeff(e, j)
            == s[e * c_i_t_i_rem.d + j] by {
            crate::arithmetic::poly_vec::lemma_flat(e, j, p.d as int, p.n as int);
        }
        lemma_vec_of_coeffs(c_i_t_i_rem, s);
    }
    if !same_coeffs(&c_i_t_i_rem, &mat_a_z_rem) {
        return None;
    }
    Some((u_quo, c_i_w_i_quo, c_i_t_i_quo, mat_a_z_quo))
}

/// The field challenges drawn from `seed`, in turn `alpha`, `tau_0` (`nu` elements) and `tau_1`
/// (`log_n` elements), with the powers of `alpha` and the table of `M_alpha` for them.
fn field_challenges(
    params: &Parameters,
    x: &[u64],
    challenges: &Vec<PChal>,
    mat_a: &PMat,
    mat_b: &PMat,
    mat_d: &PMat,
    seed: [u8; 32],
    num_vars: usize,
    log_n: usize,
) -> (res: (Vec<Fq4>, Vec<Fq4>, Vec<Fq4>, Vec<Fq4>))
    requires
        prove_inputs(*params, x@),
        challenges@.len() == pow2(params.r as nat),
        forall|i: int, j: int| 0 <= i < challenges@.len() && 0 <= j < challenges@[i].coeffs@.len()
            ==> entry_exp(#[trigger] challenges@[i].coeffs@[j]) < params.d,
        is_seeded(*mat_a, *params, params.a_seed@, params.width_a as int),
        is_seeded(*mat_b, *params, params.b_seed@, params.width_b as int),
        is_seeded(*mat_d, *params, params.d_seed@, params.width_d as int),
        num_vars < 64,
        log_n < 64,
    ensures
        ({
            let draws = field_draws(seed@, (1 + num_vars + log_n) as nat).0;
            let pows = Seq::new(params.d as nat, |i: int| fpow(draws[0], i as nat));
            &&& res.0@ == pows
            &&& res.1@ == m_table(*params, x@, challenges@, pows)
            &&& res.2@ == draws.subrange(1, 1 + num_vars as int)
            &&& res.3@ == draws.subrange(1 + num_vars as int, 1 + num_vars as int + log_n as int)
            &&& draws.len() == 1 + num_vars + log_n
            &&& res.2@.len() == num_vars
            &&& res.3@.len() == log_n
            &&& res.1@.len() == m_height(*params) * m_width(*params)
        }),
{
    let ghost p = *params;
    proof {
        lemma_prover_params(p);
        lemma_table_dims(p);
    }
    let draws = draw_fields(params.q, seed, 1 + num_vars + log_n);
    proof {
        lemma_field_draws_len(seed@, (1 + num_vars + log_n) as nat);
    }
    let alpha = draws[0];
    let alpha_pows = powers(alpha, params.d);
    let ghost pows = Seq::new(p.d as nat, |i: int| fpow(alpha, i as nat));
    proof {
        assert(alpha_pows@ =~= pows);
    }
    let m_alpha = if params.reuse_mats {
        form_m_alpha_same_matrix(params, x, challenges.as_slice(), alpha_pows.as_slice(), mat_d)
    } else {
        form_m_alpha_different_matrices(params, x, challenges.as_slice(), alpha_pows.as_slice(), mat_a, mat_b, mat_d)
    };
    proof {
        lemma_table_seq(m_alpha@, p, x@, challenges@, pows);
    }
    let tau_0 = vstd::slice::slice_to_vec(vstd::slice::slice_subrange(draws.as_slice(), 1, 1 + num_vars));
    let tau_1 = vstd::slice::slice_to_vec(vstd::slice::slice_subrange(draws.as_slice(), 1 + num_vars, 1 + num_vars + log_n));
    (alpha_pows, m_alpha, tau_0, tau_1)
}

/// The sumcheck half of the round on the next witness `z_r`: the field challenges are drawn from
/// the seed of the transcript `fs`, and both sumchecks extend it by their round messages.
fn run_sumchecks(
    params: &Parameters,
    x: &[u64],
    challenges: &Vec<PChal>,
    mat_a: &PMat,
    mat_b: &PMat,
    mat_d: &PMat,
    z_r: &Vec<u64>,
    num_vars: usize,
    rows: usize,
    fs: &mut FS,
) -> (res: Option<(Vec<Univariate>, Vec<Univariate>, Fq4)>)
    requires
        prove_inputs(*params, x@),
        challenges@.len() == pow2(params.r as nat),
        forall|i: int, j: int| 0 <= i < challenges@.len() && 0 <= j < challenges@[i].coeffs@.len()
            ==> entry_exp(#[trigger] challenges@[i].coeffs@[j]) < params.d,
        is_seeded(*mat_a, *params, params.a_seed@, params.width_a as int),
        is_seeded(*mat_b, *params, params.b_seed@, params.width_b as int),
        is_seeded(*mat_d, *params, params.d_seed@, params.width_d as int),
        num_vars == next_num_vars(*params),
        rows == m_rows(*params),
        z_r@.len() == pow2(num_vars as nat),
        seed_fits(old(fs)@),
    ensures
        res matches Some(r) ==> {
            let t2 = old(fs)@;
            let nv = num_vars as nat;
            let ln = log_rows(*params);
            let draws = field_draws(transcript_seed(t2), 1 + nv + ln).0;
            let pows = Seq::new(params.d as nat, |i: int| fpow(draws[0], i as nat));
            let tau_0 = draws.subrange(1, 1 + nv as int);
            let tau_1 = draws.subrange(1 + nv as int, 1 + nv as int + ln as int);
            &&& sumcheck_messages_ok(
                t2,
                r.0@,
                r.1@,
                nv,
                lift_table(z_r@),
                tau_0,
                params.b as int,
                first_terms(*params),
                pows,
                mbar_table(m_table(*params, x@, challenges@, pows), tau_1),
                10,
            )
            &&& r.2 == mle(lift_table(z_r@), Seq::new(nv, |j: int| sc_chal(t2, r.0@, r.1@, j as nat)))
        },
        res is Some <==> (num_vars == 0 || len_fits(old(fs)@.len() + num_vars * round_bytes(params.b as int))),
{
    let ghost p = *params;
    let ghost wlen = (m_mu(p) + m_rows(p) * p.delta) as nat;
    proof {
        lemma_prover_params(p);
        lemma_table_dims(p);
        lemma_ceil_log2_times_d(wlen);
        lemma_ceil_pow2(wlen * 1024);
        lemma_ceil_pow2(wlen);
        vstd::arithmetic::power2::lemma_pow2_adds(ceil_log2(wlen), 10);
        vstd::arithmetic::power2::lemma2_to64();
    }
    let seed2 = fs.get_seed();
    let log_n = rows.log();
    proof {
        lemma_ceil_log2_unique(m_rows(p) as nat, log_n as nat);
    }
    let (alpha_pows, m_alpha, tau_0, tau_1) = field_challenges(params, x, challenges, mat_a, mat_b, mat_d, seed2, num_vars, log_n);
    let mu = params.width_d + params.width_b + params.width_a * params.delta_z;
    let mut f_0 = F0::init(z_r, params.b, tau_0, params.q, (mu + rows * params.delta) * params.d);
    proof {
        lemma_exp2_of_d();
        assert(m_height(p) * m_width(p) / m_height(p) == m_width(p)) by (nonlinear_arith)
            requires
                m_height(p) >= 1,
        ;
        assert((m_height(p) * m_width(p)) % m_height(p) == 0) by (nonlinear_arith)
            requires
                m_height(p) >= 1,
        ;
        assert(pow2(tau_1@.len()) == m_height(p));
        assert(is_pow2(m_width(p))) by {
            assert(ceil_log2(wlen) < 64 && m_width(p) == pow2(ceil_log2(wlen)));
        }
    }
    let mut f_alpha = FAlpha::init(z_r, alpha_pows, tau_1, m_alpha);
    sumcheck_proof(&mut f_0, &mut f_alpha, fs)
}

/// The values the prover computes make up a next witness as [`next_witness_of`] says.
proof fn lemma_next_witness_of(
    z_r: Seq<u64>,
    p: Parameters,
    x: Seq<u64>,
    f: Seq<u64>,
    com: CommitmentWithState,
    chals: Seq<PChal>,
    w: PVec,
    w_hat: PVec,
    z: PVec,
    ss: Seq<PVec>,
    v_quo: PVec,
    u_quo: PVec,
    cw: PVec,
    ct: PVec,
    az: PVec,
    a_ntt: PMatNtt,
    b_ntt: PMatNtt,
    d_ntt: PMatNtt,
)
    requires
        folded_chunks(w, p, x, f),
        decomposes(w_hat, w.vec@, pow2(p.r as nat), p),
        committed_chunks(ss, p, f),
        z.wf() && z.len == pow2(p.m as nat) * p.delta && z.d == p.d,
        forall|e: int, t: int| 0 <= e < z.len && 0 <= t < p.d ==> #[trigger] z.coeff(e, t)
            == zfold(ss, chals, e, t, p.d as int, pow2(p.r as nat)),
        within_bound(z.vec@, p.z_bound as int),
        ntt_of(a_ntt, seeded_mat(p, p.a_seed@, p.width_a as int), p.n as nat, p.width_a as nat, p.d as nat, 2 * p.d as nat),
        ntt_of(b_ntt, seeded_mat(p, p.b_seed@, p.width_b as int), p.n as nat, p.width_b as nat, p.d as nat, 2 * p.d as nat),
        ntt_of(d_ntt, seeded_mat(p, p.d_seed@, p.width_d as int), p.n as nat, p.width_d as nat, p.d as nat, 2 * p.d as nat),
        forall|row: int, j: int| 0 <= row < p.n && 0 <= j < p.d ==> #[trigger] v_quo.coeff(row, j)
            == full_product(d_ntt, w_hat, p, row)[j + p.d],
        forall|row: int, j: int| 0 <= row < p.n && 0 <= j < p.d ==> #[trigger] u_quo.coeff(row, j)
            == full_product(b_ntt, com.t_hat, p, row)[j + p.d],
        forall|j: int| 0 <= j < p.d ==> #[trigger] cw.coeff(0, j)
            == chal_dot(chals, w, j + p.d, p.d as int, false, w.len as nat) % (p.q as int),
        forall|row: int, j: int| 0 <= row < p.n && 0 <= j < p.d ==> #[trigger] ct.coeff(row, j)
            == cfold(chals, com.t, p.n as int, row, j + p.d, p.d as int, p.q as int, pow2(p.r as nat)),
        forall|row: int, j: int| 0 <= row < p.n && 0 <= j < p.d ==> #[trigger] az.coeff(row, j)
            == full_product(a_ntt, z, p, row)[j + p.d],
        next_witness_ok(z_r, next_num_vars(p), p, w_hat, com.t_hat, z, v_quo, u_quo, cw, ct, az),
    ensures
        next_witness_of(z_r, p, x, f, com, chals),
{
}

/// The values of the round for the witness `f`, committed to as `com`, at the point `x`: `y`,
/// `w`, `w_hat` and `v` make up the first message, the matrices are those regenerated from the
/// seeds, `chals` are the sparse challenges derived from the transcript of `u`, `Y` and `v`, `ss`
/// are the committed chunks and `z = sum_i c_i s_i`.
pub open spec fn round_with(
    p: Parameters,
    x: Seq<u64>,
    com: CommitmentWithState,
    f: Seq<u64>,
    y: PVec,
    w: PVec,
    w_hat: PVec,
    v: PVec,
    a_ntt: PMatNtt,
    b_ntt: PMatNtt,
    d_ntt: PMatNtt,
    chals: Seq<PChal>,
    ss: Seq<PVec>,
    z: PVec,
) -> bool {
    &&& y.wf() && y.len == 1 && y.d == p.d
    &&& forall|t: int| 0 <= t < p.d ==> #[trigger] y.coeff(0, t) == y_acc(p, x, f, t, pow2(p.r as nat), 0)
    &&& folded_chunks(w, p, x, f)
    &&& decomposes(w_hat, w.vec@, pow2(p.r as nat), p)
    &&& ntt_of(a_ntt, seeded_mat(p, p.a_seed@, p.width_a as int), p.n as nat, p.width_a as nat, p.d as nat, 2 * p.d as nat)
    &&& ntt_of(b_ntt, seeded_mat(p, p.b_seed@, p.width_b as int), p.n as nat, p.width_b as nat, p.d as nat, 2 * p.d as nat)
    &&& ntt_of(d_ntt, seeded_mat(p, p.d_seed@, p.width_d as int), p.n as nat, p.width_d as nat, p.d as nat, 2 * p.d as nat)
    &&& v.wf() && v.len == p.n && v.d == p.d
    &&& v.vec@ == product_rem(d_ntt, w_hat, p)
    &&& chals_from(chals, p, transcript_seed(com.u.serialised() + y.serialised() + v.serialised()))
    &&& committed_chunks(ss, p, f)
    &&& z.wf() && z.len == pow2(p.m as nat) * p.delta && z.d == p.d
    &&& forall|e: int, t: int| 0 <= e < z.len && 0 <= t < p.d ==> #[trigger] z.coeff(e, t)
        == zfold(ss, chals, e, t, p.d as int, pow2(p.r as nat))
}

/// A check of the round fails: the response `z` exceeds its norm bound, or the remainder of the
/// lifted `B t_hat` is not `u`, or the remainders of the lifted `sum_i c_i t_i` and `A z` differ.
pub open spec fn checks_fail(p: Parameters, com: CommitmentWithState, a_ntt: PMatNtt, b_ntt: PMatNtt, chals: Seq<PChal>, z: PVec) -> bool {
    ||| !within_bound(z.vec@, p.z_bound as int)
    ||| com.u.vec@ != product_rem(b_ntt, com.t_hat, p)
    ||| cfold_rem(chals, com.t, p) != product_rem(a_ntt, z, p)
}

/// The round for the witness `f`, committed to as `com`, at the point `x` aborts: a check fails
/// on its values.
pub open spec fn round_aborts(p: Parameters, x: Seq<u64>, com: CommitmentWithState, f: Seq<u64>) -> bool {
    exists|y: PVec, w: PVec, w_hat: PVec, v: PVec, a_ntt: PMatNtt, b_ntt: PMatNtt, d_ntt: PMatNtt,
        chals: Seq<PChal>, ss: Seq<PVec>, z: PVec|
        #[trigger] round_with(p, x, com, f, y, w, w_hat, v, a_ntt, b_ntt, d_ntt, chals, ss, z)
            && checks_fail(p, com, a_ntt, b_ntt, chals, z)
}

/// Two vectors of one shape with equal coefficients hold the same sequence.
proof fn lemma_same_coeffs(v1: PVec, v2: PVec)
    requires
        v1.wf(),
        v2.wf(),
        v1.len == v2.len,
        v1.d == v2.d,
        forall|e: int, j: int| 0 <= e < v1.len && 0 <= j < v1.d ==> #[trigger] v1.coeff(e, j) == v2.coeff(e, j),
    ensures
        v1.vec@ == v2.vec@,
{
    assert forall|e: int, j: int| 0 <= e < v1.len && 0 <= j < v1.d implies #[trigger] v1.coeff(e, j) == v2.vec@[e * v1.d + j] by {
        assert(v2.coeff(e, j) == v2.vec@[e * v2.d + j]);
    }
    lemma_vec_of_coeffs(v1, v2.vec@);
}

/// `zfold` reads only the elements `e` of the chunks and the coefficients of the challenges.
proof fn lemma_zfold_same(ss1: Seq<PVec>, ss2: Seq<PVec>, c1: Seq<PChal>, c2: Seq<PChal>, e: int, t: int, d: int, k: nat)
    requires
        forall|i: int| 0 <= i < k ==> (#[trigger] ss1[i]).elem(e) == ss2[i].elem(e),
        forall|i: int| 0 <= i < k ==> (#[trigger] c1[i]).coeffs@ == c2[i].coeffs@,
    ensures
        zfold(ss1, c1, e, t, d, k) == zfold(ss2, c2, e, t, d, k),
    decreases k,
{
    if k > 0 {
        lemma_zfold_same(ss1, ss2, c1, c2, e, t, d, (k - 1) as nat);
        assert(ss1[k - 1].elem(e) == ss2[k - 1].elem(e));
        assert(c1[k - 1].coeffs@ == c2[k - 1].coeffs@);
    }
}

/// `cfold` reads only the coefficients of the challenges.
proof fn lemma_cfold_same(c1: Seq<PChal>, c2: Seq<PChal>, t: PVec, n: int, row: int, tt: int, d: int, q: int, k: nat)
    requires
        forall|i: int| 0 <= i < k ==> (#[trigger] c1[i]).coeffs@ == c2[i].coeffs@,
    ensures
        cfold(c1, t, n, row, tt, d, q, k) == cfold(c2, t, n, row, tt, d, q, k),
    decreases k,
{
    if k > 0 {
        lemma_cfold_same(c1, c2, t, n, row, tt, d, q, (k - 1) as nat);
        assert(c1[k - 1].coeffs@ == c2[k - 1].coeffs@);
    }
}

/// The sparse challenges drawn from one seed are unique, up to their coefficient sequences.
proof fn lemma_chals_unique(c1: Seq<PChal>, c2: Seq<PChal>, p: Parameters, seed: Seq<u8>)
    requires
        chals_from(c1, p, seed),
        chals_from(c2, p, seed),
    ensures
        c1.len() == c2.len(),
        forall|i: int| 0 <= i < c1.len() ==> (#[trigger] c1[i]).coeffs@ == c2[i].coeffs@,
{
    let leq = |a: u32, b: u32| a <= b;
    assert(vstd::relations::total_ordering(leq));
    assert forall|i: int| 0 <= i < c1.len() implies (#[trigger] c1[i]).coeffs@ == c2[i].coeffs@ by {
        let s1 = c1[i].coeffs@;
        let s2 = c2[i].coeffs@;
        assert(sorted_u32(s1));
        assert(sorted_u32(s2));
        assert(vstd::relations::sorted_by(s1, leq));
        assert(vstd::relations::sorted_by(s2, leq));
        vstd::seq_lib::lemma_sorted_unique(s1, s2, leq);
    }
}

/// Two NTT forms of one matrix of one row give the same remainders, for vectors with equal
/// coefficients.
proof fn lemma_product_rem_same(m1: PMatNtt, m2: PMatNtt, coeffs: Seq<u64>, w: nat, v1: PVec, v2: PVec, p: Parameters)
    requires
        ntt_of(m1, coeffs, p.n as nat, w, p.d as nat, 2 * p.d as nat),
        ntt_of(m2, coeffs, p.n as nat, w, p.d as nat, 2 * p.d as nat),
        v1.vec@ == v2.vec@,
        v1.d == v2.d,
        p.n == 1,
        p.d > 0,
    ensures
        product_rem(m1, v1, p) == product_rem(m2, v2, p),
{
    crate::hachi::commit::lemma_row_product_same(m1, m2, coeffs, p.n as nat, w, p.d as nat, 2 * p.d as nat, v1, v2, 0,
        (2 * p.d) as nat, p.q as int);
    let s1 = product_rem(m1, v1, p);
    let s2 = product_rem(m2, v2, p);
    assert forall|k: int| 0 <= k < s1.len() implies s1[k] == s2[k] by {
        vstd::arithmetic::div_mod::lemma_basic_div(k, p.d as int);
    }
    assert(s1 =~= s2);
}

/// All values of a round are determined by its inputs, so whether a check fails is too.
proof fn lemma_round_unique(
    p: Parameters,
    x: Seq<u64>,
    com: CommitmentWithState,
    f: Seq<u64>,
    y1: PVec, w1: PVec, wh1: PVec, v1: PVec, a1: PMatNtt, b1: PMatNtt, d1: PMatNtt, c1: Seq<PChal>, ss1: Seq<PVec>, z1: PVec,
    y2: PVec, w2: PVec, wh2: PVec, v2: PVec, a2: PMatNtt, b2: PMatNtt, d2: PMatNtt, c2: Seq<PChal>, ss2: Seq<PVec>, z2: PVec,
)
    requires
        prover_params(p),
        p.decomp_witness,
        round_with(p, x, com, f, y1, w1, wh1, v1, a1, b1, d1, c1, ss1, z1),
        round_with(p, x, com, f, y2, w2, wh2, v2, a2, b2, d2, c2, ss2, z2),
    ensures
        checks_fail(p, com, a1, b1, c1, z1) == checks_fail(p, com, a2, b2, c2, z2),
{
    lemma_prover_params(p);
    let d = p.d as int;
    let k = pow2(p.r as nat);
    // the first message
    lemma_same_coeffs(y1, y2);
    lemma_same_coeffs(w1, w2);
    crate::hachi::commit::lemma_decomposes_unique(wh1, wh2, w1.vec@, k, p);
    lemma_product_rem_same(d1, d2, seeded_mat(p, p.d_seed@, p.width_d as int), p.width_d as nat, wh1, wh2, p);
    assert(v1.vec@ == v2.vec@);
    // the challenges
    lemma_chals_unique(c1, c2, p, transcript_seed(com.u.serialised() + y1.serialised() + v1.serialised()));
    // the response
    assert forall|i: int| 0 <= i < k implies (#[trigger] ss1[i]).vec@ == ss2[i].vec@ && ss1[i].d == ss2[i].d by {
        assert(chunk_committed(ss1[i], p, f, i));
        assert(chunk_committed(ss2[i], p, f, i));
        crate::hachi::commit::lemma_decomposes_unique(ss1[i], ss2[i], chunk(p, f, i), pow2(p.m as nat), p);
    }
    assert forall|e: int, t: int| 0 <= e < z1.len && 0 <= t < z1.d implies #[trigger] z1.coeff(e, t) == z2.coeff(e, t) by {
        assert forall|i: int| 0 <= i < k implies (#[trigger] ss1[i]).elem(e) == ss2[i].elem(e) by {
            assert(ss1[i].vec@ == ss2[i].vec@ && ss1[i].d == ss2[i].d);
        }
        lemma_zfold_same(ss1, ss2, c1, c2, e, t, d, k);
    }
    lemma_same_coeffs(z1, z2);
    // the checks
    lemma_product_rem_same(b1, b2, seeded_mat(p, p.b_seed@, p.width_b as int), p.width_b as nat, com.t_hat, com.t_hat, p);
    lemma_product_rem_same(a1, a2, seeded_mat(p, p.a_seed@, p.width_a as int), p.width_a as nat, z1, z2, p);
    let r1 = cfold_rem(c1, com.t, p);
    let r2 = cfold_rem(c2, com.t, p);
    assert forall|j: int| 0 <= j < r1.len() implies r1[j] == r2[j] by {
        lemma_cfold_same(c1, c2, com.t, p.n as int, j / d, j % d, d, p.q as int, k);
        lemma_cfold_same(c1, c2, com.t, p.n as int, j / d, j % d + d, d, p.q as int, k);
    }
    assert(r1 =~= r2);
}

/// A vector of one element of 1024 coefficients takes 8192 bytes in the transcript.
proof fn lemma_pvec_bytes(v: PVec)
    requires
        v.wf(),
        v.len == 1,
        v.d == 1024,
    ensures
        v.serialised().len() == 8192,
{
    crate::arithmetic::poly_vec::lemma_be_concat_len(v.vec@, v.vec@.len());
}

/// The transcript of the sumchecks over fewer than 64 variables fits a seed.
proof fn lemma_sumcheck_fits(nv: nat)
    requires
        nv < 64,
    ensures
        len_fits(32768 + nv * round_bytes(16)),
{
    assert(32768 + nv * round_bytes(16) <= 75776) by (nonlinear_arith)
        requires
            nv < 64,
            round_bytes(16) == 672,
    ;
    vstd::arithmetic::div_mod::lemma_div_is_ordered(32768 + nv * round_bytes(16) + 2, 75778, 3);
}

/// `pow2(n) <= usize::MAX` only for `n < 64`.
proof fn lemma_pow2_fits(n: nat)
    requires
        pow2(n) <= usize::MAX,
    ensures
        n < 64,
{
    vstd::arithmetic::power2::lemma2_to64();
    if n >= 64 {
        if n > 64 {
            vstd::arithmetic::power2::lemma_pow2_strictly_increases(64, n);
        }
    }
}

/// The prover of one round for the witness read from `witness`, committed to as `com` under
/// `params`, at the point `x`. Returns `None` exactly where the round cannot be completed: the
/// folded response exceeds its norm bound (the abort of the protocol), or a lifted row disagrees
/// with its value over `R_q` (see [`round_aborts`]). Every transcript it forms fits a seed.
pub fn prove_stream<S: Stream<u64>>(witness: &mut S, params: &Parameters, x: &[u64], com: &CommitmentWithState) -> (res: Option<ProofRound>)
    requires
        prove_inputs(*params, x@),
        commit_inputs(*params, old(witness).contents()),
        commitment_of(*com, *params, old(witness).contents()),
    ensures
        final(witness).contents() == old(witness).contents(),
        res matches Some(pr) ==> proof_of(pr, *params, x@, *com, old(witness).contents()),
        res is None <==> round_aborts(*params, x@, *com, old(witness).contents()),
{
    let ghost p = *params;
    let ghost f = witness.contents();
    proof {
        lemma_prover_params(p);
        lemma_commitment_residues(*com, p, f);
        lemma_table_dims(p);
    }
    let mut fs = FS::init();
    fs.push(&com.u);
    let ring_full = Ring::init(params.q, params.d, false);
    let ring_cyclotomic = Ring::init(params.q, params.d, true);
    let (mat_a, mat_a_ntt, mat_b, mat_b_ntt, mat_d, mat_d_ntt) = sample_matrices(params, &ring_full);

    let (y, w, w_hat, v, v_quo) = first_message(witness, params, x, &ring_full, &ring_cyclotomic, &mat_d_ntt);

    // sparse challenges from u, Y, v
    fs.push(&y);
    fs.push(&v);
    proof {
        assert(fs@ =~= com.u.serialised() + y.serialised() + v.serialised());
        lemma_pvec_bytes(com.u);
        lemma_pvec_bytes(y);
        lemma_pvec_bytes(v);
        assert(fs@.len() == 24576);
    }
    if !fs.seed_fits() {
        return None;
    }
    let seed = fs.get_seed();
    let pow_r = pow2_usize(params.r);
    let pow_m = pow2_usize(params.m);
    let challenges = PChal::rand_vec(pow_r, params.d, params.k, seed);

    // the response z, within its norm bound
    let mut z = PVec::zero(pow_m * params.delta, params.d);
    let z_ok = compute_z(witness, params, &ring_cyclotomic, &challenges, &mut z);
    if !z_ok {
        proof {
            let ss = choose|ss: Seq<PVec>|
                {
                    &&& ss.len() == pow2(p.r as nat)
                    &&& forall|i: int| 0 <= i < ss.len() ==> #[trigger] chunk_committed(ss[i], p, f, i)
                    &&& forall|e: int, t: int| 0 <= e < z.len && 0 <= t < p.d ==> #[trigger] z.coeff(e, t)
                        == zfold(ss, challenges@, e, t, p.d as int, pow2(p.r as nat))
                };
            assert(round_with(p, x@, *com, f, y, w, w_hat, v, mat_a_ntt, mat_b_ntt, mat_d_ntt, challenges@, ss, z));
            assert(checks_fail(p, *com, mat_a_ntt, mat_b_ntt, challenges@, z));
        }
        return None;
    }
    let ghost ss = choose|ss: Seq<PVec>|
        {
            &&& ss.len() == pow2(p.r as nat)
            &&& forall|i: int| 0 <= i < ss.len() ==> #[trigger] chunk_committed(ss[i], p, f, i)
            &&& forall|e: int, t: int| 0 <= e < z.len && 0 <= t < p.d ==> #[trigger] z.coeff(e, t)
                == zfold(ss, challenges@, e, t, p.d as int, pow2(p.r as nat))
        };

    // the rows of the verification equation over Z_q[X]
    let lifted = lift_rows(params, &ring_full, &mat_a_ntt, &mat_b_ntt, com, &challenges, &w, &z);
    let (u_quo, c_i_w_i_quo, c_i_t_i_quo, mat_a_z_quo) = match lifted {
        None => {
            proof {
                assert(round_with(p, x@, *com, f, y, w, w_hat, v, mat_a_ntt, mat_b_ntt, mat_d_ntt, challenges@, ss, z));
                assert(checks_fail(p, *com, mat_a_ntt, mat_b_ntt, challenges@, z));
            }
            return None;
        },
        Some(qs) => qs,
    };
    proof {
        assert(round_with(p, x@, *com, f, y, w, w_hat, v, mat_a_ntt, mat_b_ntt, mat_d_ntt, challenges@, ss, z));
        assert(!checks_fail(p, *com, mat_a_ntt, mat_b_ntt, challenges@, z));
        assert forall|y2: PVec, w2: PVec, wh2: PVec, v2: PVec, a2: PMatNtt, b2: PMatNtt, d2: PMatNtt,
            c2: Seq<PChal>, ss2: Seq<PVec>, z2: PVec|
            #[trigger] round_with(p, x@, *com, f, y2, w2, wh2, v2, a2, b2, d2, c2, ss2, z2)
            implies !checks_fail(p, *com, a2, b2, c2, z2) by {
            lemma_round_unique(p, x@, *com, f, y, w, w_hat, v, mat_a_ntt, mat_b_ntt, mat_d_ntt, challenges@, ss, z,
                y2, w2, wh2, v2, a2, b2, d2, c2, ss2, z2);
        }
        assert(!round_aborts(p, x@, *com, f));
    }

    // the next witness and its commitment
    let (num_vars, mu, rows, z_r) = form_next_witness(
        params, &w_hat, &com.t_hat, &z, &v_quo, &u_quo, &c_i_w_i_quo, &c_i_t_i_quo, &mat_a_z_quo,
    );
    proof {
        vstd::arithmetic::power2::lemma2_to64();
    }
    let next_params = Hachi::setup(num_vars, false);
    let com_dash = Hachi::commit(z_r.as_slice(), &next_params);

    // the field challenges from the transcript extended by u', and the sumchecks
    fs.push(&com_dash.u);
    proof {
        lemma_pvec_bytes(com_dash.u);
        assert(fs@.len() == 32768);
    }
    if !fs.seed_fits() {
        return None;
    }
    let ghost t2 = fs@;
    proof {
        lemma_pow2_fits(num_vars as nat);
        lemma_sumcheck_fits(num_vars as nat);
    }
    let sc = run_sumchecks(params, x, &challenges, &mat_a, &mat_b, &mat_d, &z_r, num_vars, rows, &mut fs);
    match sc {
        None => None,
        Some((univariates_f_alpha, univariates_f_0, y_dash)) => {
            let pr = ProofRound { y, v, u_dash: com_dash.u, univariates_f_alpha, univariates_f_0, y_dash };
            proof {
                assert(t2 == transcript_field(com.u, pr));
                assert(chals_from(challenges@, p, transcript_seed(transcript_chals(com.u, pr))));
                assert(lift_table(z_r@) == lift_table(z_r@));
                assert(commitment_of(com_dash, next_params, z_r@));
                assert(round_with(p, x@, *com, f, pr.y, w, w_hat, pr.v, mat_a_ntt, mat_b_ntt, mat_d_ntt, challenges@, ss, z));
                lemma_next_witness_of(z_r@, p, x@, f, *com, challenges@, w, w_hat, z, ss, v_quo, u_quo,
                    c_i_w_i_quo, c_i_t_i_quo, mat_a_z_quo, mat_a_ntt, mat_b_ntt, mat_d_ntt);
            }
            Some(pr)
        },
    }
}

/// Commit to the witness read from `witness` under `params`, then prove one round for it at the
/// point `x`: the commitment, and the proof or `None` exactly where the round aborts.
pub fn commit_and_prove<S: Stream<u64>>(witness: &mut S, params: &Parameters, x: &[u64]) -> (res: (CommitmentWithState, Option<ProofRound>))
    requires
        prove_inputs(*params, x@),
        commit_inputs(*params, old(witness).contents()),
    ensures
        final(witness).contents() == old(witness).contents(),
        commitment_of(res.0, *params, old(witness).contents()),
        res.1 matches Some(pr) ==> proof_of(pr, *params, x@, res.0, old(witness).contents()),
        res.1 is None <==> round_aborts(*params, x@, res.0, old(witness).contents()),
{
    witness.reset();
    let com = commit_stream(witness, params);
    let proof = prove_stream(witness, params, x, &com);
    (com, proof)
}

/// Evaluation proof for a witness given as `T` at a point with coordinates of type `F`.
pub trait Prove<T, F> {
    /// The witness, parameters, point and commitment a proof can be formed for.
    spec fn prove_requires(witness: T, params: Parameters, x: Seq<F>, com: CommitmentWithState) -> bool;

    /// What a completed proof is, for these inputs.
    spec fn prove_ensures(witness: T, params: Parameters, x: Seq<F>, com: CommitmentWithState, proof: ProofRound) -> bool;

    /// When the round aborts, for these inputs.
    spec fn prove_aborts(witness: T, params: Parameters, x: Seq<F>, com: CommitmentWithState) -> bool;

    /// One round of the evaluation proof for the multilinear polynomial `witness`, committed to
    /// as `com` under `params`, at the point `x`. The claimed value is not an input: it is fixed
    /// by the witness and checked by the verifier against `Y`. `None` exactly where the round aborts.
    fn prove(witness: T, params: &Parameters, x: &[F], com: &CommitmentWithState) -> (res: Option<ProofRound>)
        requires
            Self::prove_requires(witness, *params, x@, *com),
        ensures
            res matches Some(pr) ==> Self::prove_ensures(witness, *params, x@, *com, pr),
            res is None <==> Self::prove_aborts(witness, *params, x@, *com),
    ;
}

/// The prover for a witness read from a stream, at a point of residues; see [`prove_stream`].
impl<'a, S: Stream<u64>> Prove<&'a mut S, u64> for Hachi {
    open spec fn prove_requires(witness: &'a mut S, params: Parameters, x: Seq<u64>, com: CommitmentWithState) -> bool {
        &&& prove_inputs(params, x)
        &&& commit_inputs(params, witness.contents())
        &&& commitment_of(com, params, witness.contents())
    }

    open spec fn prove_ensures(witness: &'a mut S, params: Parameters, x: Seq<u64>, com: CommitmentWithState, proof: ProofRound) -> bool {
        proof_of(proof, params, x, com, witness.contents())
    }

    open spec fn prove_aborts(witness: &'a mut S, params: Parameters, x: Seq<u64>, com: CommitmentWithState) -> bool {
        round_aborts(params, x, com, witness.contents())
    }

    fn prove(witness: &'a mut S, params: &Parameters, x: &[u64], com: &CommitmentWithState) -> (res: Option<ProofRound>) {
        prove_stream(witness, params, x, com)
    }
}

} // verus!
