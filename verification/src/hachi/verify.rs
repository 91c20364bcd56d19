//! The verifier of one round. It re-derives every challenge from the Fiat-Shamir transcript as
//! the prover does, and accepts when: the claimed value is the inner product of the coefficients
//! of `Y` with the monomials of the last `log d` coordinates of the point; every sumcheck round
//! message sums to the running claim over `{0, 1}`; and the final claims of both sumchecks are
//! the values of `F_0` and `F_alpha` at the sumcheck challenges, with the prover's `y'` in place
//! of the next witness's evaluation.

use vstd::prelude::*;
use vstd::arithmetic::power2::pow2;
use crate::arithmetic::field::{Fq4, fq, lift4, add4, sub4, mul4};
use crate::arithmetic::fs::{FS, Serialise, transcript_seed, seed_fits};
use crate::arithmetic::poly::{Poly, poly_eval};
use crate::arithmetic::poly_chal::{PChal, sorted_u32, entry_exp, fy_state, chal_seq_pos};
use crate::arithmetic::poly_vec::PVec;
use crate::arithmetic::rng::{Prg, samples, samples_end, low_mask};
use crate::arithmetic::sumcheck::{Univariate, lagrange_sum, node_units, fold_table, fix_first_variable};
use crate::arithmetic::utils::{
    Logarithm, ceil_log2, lemma_ceil_log2_unique, spec_multi_lin_coeff, multi_lin_coeff_int, fq4_of,
    rand_field, powers, fpow, eq, eq_bin, spec_eq, spec_eq_bin, lift_int, signed,
};
use crate::hachi::Hachi;
use crate::hachi::common::{
    m_alpha_inputs, mats_fit, m_entry, m_height, m_width, m_mu, m_rows, seeded_mat, form_m_alpha,
    is_m_alpha_table, lemma_table_dims,
};
use crate::hachi::prove::ProofRound;
use crate::hachi::setup::{Parameters, Q, setup_ok, params_match};

verus! {

/// `log2(d)`, the number of ring-coefficient variables.
pub open spec fn log_d(p: Parameters) -> nat {
    ceil_log2(p.d as nat)
}

/// Monomial `i` of the last `log d` coordinates of the point.
pub open spec fn vx_coef(p: Parameters, x: Seq<u64>, i: int) -> int {
    spec_multi_lin_coeff(x.subrange(p.l - log_d(p), p.l as int), i as nat, log_d(p), p.q as int)
}

/// `sum_{i < n} Y_i v_{x,i} mod q`, reduced after every term.
pub open spec fn reduction_value(p: Parameters, x: Seq<u64>, ys: Seq<u64>, n: nat) -> int
    decreases n,
{
    if n == 0 {
        0
    } else {
        (reduction_value(p, x, ys, (n - 1) as nat) + ys[n - 1] * vx_coef(p, x, n - 1)) % (p.q as int)
    }
}

/// The claimed value `y` is `<cf(Y), v_x> mod q`, with `Y` of `d` coefficients.
pub open spec fn reduction_ok(p: Parameters, x: Seq<u64>, y: u64, ys: Seq<u64>) -> bool {
    ys.len() == p.d && y == reduction_value(p, x, ys, p.d as nat)
}

/// An element of `F_{q^4}` drawn by [`rand_field`] from position `pos` of the stream of `seed`.
pub open spec fn field_draw(seed: Seq<u8>, pos: nat) -> Fq4 {
    fq4_of(samples(seed, pos, Q, low_mask(ceil_log2(Q as nat)), 4))
}

/// The stream position after such a draw.
pub open spec fn field_draw_end(seed: Seq<u8>, pos: nat) -> nat {
    samples_end(seed, pos, Q, low_mask(ceil_log2(Q as nat)), 4)
}

/// `n` successive draws from the start of the stream of `seed`, and the position after them.
pub open spec fn field_draws(seed: Seq<u8>, n: nat) -> (Seq<Fq4>, nat)
    decreases n,
{
    if n == 0 {
        (Seq::empty(), 0)
    } else {
        let prev = field_draws(seed, (n - 1) as nat);
        (prev.0.push(field_draw(seed, prev.1)), field_draw_end(seed, prev.1))
    }
}

/// `n` draws give `n` elements.
pub proof fn lemma_field_draws_len(seed: Seq<u8>, n: nat)
    ensures
        field_draws(seed, n).0.len() == n,
    decreases n,
{
    if n > 0 {
        lemma_field_draws_len(seed, (n - 1) as nat);
    }
}

/// Number of variables of the next witness: `ceil(log2((mu + (3n + 2) delta) d))`.
pub open spec fn next_num_vars(p: Parameters) -> nat {
    ceil_log2(((m_mu(p) + m_rows(p) * p.delta) * p.d) as nat)
}

/// `ceil(log2(3n + 2))`, the number of row variables of `M_alpha`.
pub open spec fn log_rows(p: Parameters) -> nat {
    ceil_log2(m_rows(p) as nat)
}

/// The transcript from which the sparse challenges are derived: `u`, `Y`, `v`.
pub open spec fn transcript_chals(com: PVec, proof: ProofRound) -> Seq<u8> {
    com.serialised() + proof.y.serialised() + proof.v.serialised()
}

/// The transcript from which `alpha`, `tau_0` and `tau_1` are derived: then `u'`.
pub open spec fn transcript_field(com: PVec, proof: ProofRound) -> Seq<u8> {
    transcript_chals(com, proof) + proof.u_dash.serialised()
}

/// `chals` are the `2^r` sparse challenges [`PChal::rand_vec`] draws from `seed`.
pub open spec fn chals_from(chals: Seq<PChal>, p: Parameters, seed: Seq<u8>) -> bool {
    &&& chals.len() == pow2(p.r as nat)
    &&& forall|i: int| 0 <= i < chals.len() ==> (#[trigger] chals[i]).coeffs@.len() == p.k
    &&& forall|i: int| 0 <= i < chals.len() ==> sorted_u32((#[trigger] chals[i]).coeffs@)
    &&& forall|i: int| 0 <= i < chals.len() ==> (#[trigger] chals[i]).coeffs@.to_multiset()
        == fy_state(p.d as nat, p.k as nat, seed, chal_seq_pos(p.d as nat, p.k as nat, seed, i as nat), p.k as nat).0.take(
        p.k as int).to_multiset()
    &&& forall|i: int, t: int| 0 <= i < chals.len() && 0 <= t < p.k ==> entry_exp(#[trigger] chals[i].coeffs@[t]) < p.d
}

/// The evaluations at `alpha` of the elements of a vector.
pub open spec fn pvec_evals(v: PVec, pows: Seq<Fq4>) -> Seq<Fq4> {
    Seq::new(v.len as nat, |i: int| poly_eval(v.elem(i), pows, v.d as nat))
}

/// The right-hand side `y = (v, u, Y, 0, 0_n)` of the relation, evaluated at `alpha`.
pub open spec fn y_alpha(p: Parameters, com: PVec, proof: ProofRound, pows: Seq<Fq4>) -> Seq<Fq4> {
    pvec_evals(proof.v, pows) + pvec_evals(com, pows) + seq![
        poly_eval(proof.y.elem(0), pows, proof.y.d as nat),
        lift4(fq(0)),
    ] + Seq::new(p.n as nat, |i: int| lift4(fq(0)))
}

/// `eq(tau, i) = prod_{j < n} eq(tau_j, bit j of i)`, the factors taken in increasing `j`.
pub open spec fn eq_bits(tau: Seq<Fq4>, i: usize, n: nat) -> Fq4
    decreases n,
{
    if n == 0 {
        lift4(fq(1))
    } else {
        mul4(eq_bits(tau, i, (n - 1) as nat), spec_eq_bin(tau[n - 1], (((i as u64) >> ((n - 1) as u64)) & 1u64) as nat))
    }
}

/// `sum_{i < n} eq(tau, i) ys_i`.
pub open spec fn eq_weighted_sum(ys: Seq<Fq4>, tau: Seq<Fq4>, n: nat) -> Fq4
    decreases n,
{
    if n == 0 {
        lift4(fq(0))
    } else {
        add4(eq_weighted_sum(ys, tau, (n - 1) as nat), mul4(eq_bits(tau, (n - 1) as usize, tau.len()), ys[n - 1]))
    }
}

/// The claimed sum of `F_alpha`: `sum_i eq(tau_1, i) y_i(alpha)`.
pub open spec fn expected_sum(p: Parameters, com: PVec, proof: ProofRound, pows: Seq<Fq4>, tau_1: Seq<Fq4>) -> Fq4 {
    let ys = y_alpha(p, com, proof, pows);
    eq_weighted_sum(ys, tau_1, ys.len())
}

/// The transcript after the round messages of the first `j` rounds.
pub open spec fn sc_transcript(t: Seq<u8>, ga: Seq<Univariate>, g0: Seq<Univariate>, j: nat) -> Seq<u8>
    decreases j,
{
    if j == 0 {
        t
    } else {
        sc_transcript(t, ga, g0, (j - 1) as nat) + ga[j - 1].serialised() + g0[j - 1].serialised()
    }
}

/// The challenge of round `j`, shared by both sumchecks.
pub open spec fn sc_chal(t: Seq<u8>, ga: Seq<Univariate>, g0: Seq<Univariate>, j: nat) -> Fq4 {
    field_draw(transcript_seed(sc_transcript(t, ga, g0, j + 1)), 0)
}

/// The running claim of a sumcheck with messages `g` before round `j`: `start`, then the
/// previous message at the previous challenge.
pub open spec fn sc_claim(t: Seq<u8>, ga: Seq<Univariate>, g0: Seq<Univariate>, g: Seq<Univariate>, start: Fq4, j: nat) -> Fq4 {
    if j == 0 {
        start
    } else {
        lagrange_sum(g[j - 1]@, sc_chal(t, ga, g0, (j - 1) as nat), g[j - 1]@.len())
    }
}

/// Round `j` of both sumchecks is consistent: each message has two evaluations at least and
/// sums over `{0, 1}` to the running claim, and the round's transcript yields a seed.
pub open spec fn round_ok(t: Seq<u8>, ga: Seq<Univariate>, g0: Seq<Univariate>, sum: Fq4, j: int) -> bool {
    &&& ga[j]@.len() >= 2
    &&& g0[j]@.len() >= 2
    &&& add4(ga[j]@[0], ga[j]@[1]) == sc_claim(t, ga, g0, ga, sum, j as nat)
    &&& add4(g0[j]@[0], g0[j]@[1]) == sc_claim(t, ga, g0, g0, lift4(fq(0)), j as nat)
    &&& seed_fits(sc_transcript(t, ga, g0, (j + 1) as nat))
}

/// The first `n` rounds of both sumchecks are consistent.
pub open spec fn rounds_ok(t: Seq<u8>, ga: Seq<Univariate>, g0: Seq<Univariate>, sum: Fq4, n: nat) -> bool {
    forall|j: int| 0 <= j < n ==> #[trigger] round_ok(t, ga, g0, sum, j)
}

/// Every round message has node differences invertible modulo `q`, so that interpolation is
/// exact (always the case with at most twenty evaluations).
pub open spec fn units_ok(proof: ProofRound) -> bool {
    &&& forall|j: int| 0 <= j < proof.univariates_f_alpha@.len() ==> node_units((#[trigger] proof.univariates_f_alpha@[j])@.len())
    &&& forall|j: int| 0 <= j < proof.univariates_f_0@.len() ==> node_units((#[trigger] proof.univariates_f_0@[j])@.len())
}

/// `prod_{i < n} eq(a_i, b_i)`, the factors taken in increasing `i`.
pub open spec fn eq_prod(a: Seq<Fq4>, b: Seq<Fq4>, n: nat) -> Fq4
    decreases n,
{
    if n == 0 {
        lift4(fq(1))
    } else {
        mul4(eq_prod(a, b, (n - 1) as nat), spec_eq(a[n - 1], b[n - 1]))
    }
}

/// `w (w + b/2) prod_{r = 1}^{k} (w^2 - r^2)`.
pub open spec fn range_acc(w: Fq4, b: int, k: nat) -> Fq4
    decreases k,
{
    if k == 0 {
        mul4(w, add4(w, lift4(fq(b / 2))))
    } else {
        mul4(range_acc(w, b, (k - 1) as nat), sub4(mul4(w, w), lift4(fq((k * k) as int))))
    }
}

/// The range polynomial `w (w + b/2) prod_{r = 1}^{b/2 - 1} (w^2 - r^2)`, which vanishes
/// exactly on the balanced digits `[-b/2, b/2 - 1]`.
pub open spec fn range_poly(w: Fq4, b: int) -> Fq4 {
    range_acc(w, b, (b / 2 - 1) as nat)
}

/// The multilinear extension of the table `t` (of `2^pt.len()` entries) at the point `pt`, the
/// first coordinate binding the least significant bit of the index.
pub open spec fn mle(t: Seq<Fq4>, pt: Seq<Fq4>) -> Fq4
    decreases pt.len(),
{
    if pt.len() == 0 {
        t[0]
    } else {
        mle(fold_table(t, pt[0]), pt.drop_first())
    }
}

/// The table of `M_alpha` for the matrices regenerated from the seeds of `p`.
pub open spec fn m_table(p: Parameters, x: Seq<u64>, chals: Seq<PChal>, pows: Seq<Fq4>) -> Seq<Fq4> {
    let w = m_width(p) as int;
    Seq::new(
        m_height(p) * m_width(p),
        |k: int|
            m_entry(
                p,
                x,
                chals,
                pows,
                seeded_mat(p, p.a_seed@, p.width_a as int),
                seeded_mat(p, p.b_seed@, p.width_b as int),
                seeded_mat(p, p.d_seed@, p.width_d as int),
                k / w,
                k % w,
            ),
    )
}

/// The checks after the reduction: the claimed sum of `F_alpha` is well formed, both sumchecks
/// run over the `nu` variables of the next witness with consistent rounds, and their final
/// claims are the values of `F_0` and `F_alpha` at the challenges.
pub open spec fn tail_ok(p: Parameters, x: Seq<u64>, com: PVec, proof: ProofRound, chals: Seq<PChal>) -> bool {
    let t2 = transcript_field(com, proof);
    let nv = next_num_vars(p);
    let ln = log_rows(p);
    let draws = field_draws(transcript_seed(t2), 1 + nv + ln).0;
    let alpha = draws[0];
    let tau_0 = draws.subrange(1, 1 + nv as int);
    let tau_1 = draws.subrange(1 + nv as int, 1 + nv as int + ln as int);
    let pows = Seq::new(p.d as nat, |i: int| fpow(alpha, i as nat));
    let ga = proof.univariates_f_alpha@;
    let g0 = proof.univariates_f_0@;
    let n = ga.len();
    let ys = y_alpha(p, com, proof, pows);
    let sum = expected_sum(p, com, proof, pows, tau_1);
    let rs = Seq::new(n, |j: int| sc_chal(t2, ga, g0, j as nat));
    &&& nv == ceil_log2((m_mu(p) + m_rows(p) * p.delta) as nat) + log_d(p)
    &&& proof.v.d == p.d
    &&& com.d == p.d
    &&& proof.y.d == p.d
    &&& ceil_log2(ys.len()) == ln
    &&& g0.len() == n
    &&& rounds_ok(t2, ga, g0, sum, n)
    &&& n == nv
    &&& final_ok(p, proof, sc_claim(t2, ga, g0, ga, sum, n), sc_claim(t2, ga, g0, g0, lift4(fq(0)), n), rs, tau_0, tau_1, pows, m_table(p, x, chals, pows))
}

/// The final claims are the values of `F_0` and `F_alpha` at the sumcheck challenges `rs`.
pub open spec fn final_ok(
    p: Parameters,
    proof: ProofRound,
    claim_f_alpha: Fq4,
    claim_f_0: Fq4,
    rs: Seq<Fq4>,
    tau_0: Seq<Fq4>,
    tau_1: Seq<Fq4>,
    pows: Seq<Fq4>,
    table: Seq<Fq4>,
) -> bool {
    &&& claim_f_0 == mul4(eq_prod(tau_0, rs, rs.len()), range_poly(proof.y_dash, p.b as int))
    &&& claim_f_alpha == mul4(
        mul4(proof.y_dash, mle(pows, rs.take(log_d(p) as int))),
        mle(table, rs.skip(log_d(p) as int) + tau_1),
    )
}

/// The verifier's acceptance condition, for the sparse challenges `chals` derived from the
/// transcript.
pub open spec fn verify_accepts(p: Parameters, x: Seq<u64>, y: u64, com: PVec, proof: ProofRound, chals: Seq<PChal>) -> bool {
    &&& reduction_ok(p, x, y, proof.y.vec@)
    &&& seed_fits(transcript_chals(com, proof))
    &&& seed_fits(transcript_field(com, proof))
    &&& tail_ok(p, x, com, proof, chals)
}

/// The public inputs the verifier works on: parameters from setup with the witness decomposed,
/// an evaluation point of `l` residues, and matrices and a table of `M_alpha` that fit in memory.
pub open spec fn verify_inputs(p: Parameters, x: Seq<u64>) -> bool {
    &&& setup_ok(p.l as nat)
    &&& params_match(p, p.l as nat, true)
    &&& x.len() >= p.l
    &&& forall|t: int| 0 <= t < p.l ==> #[trigger] x[t] < p.q
    &&& m_height(p) * m_width(p) <= usize::MAX
    &&& (m_mu(p) + m_rows(p) * p.delta) * p.d <= usize::MAX
    &&& mats_fit(p)
}

/// Check `y = <cf(Y), v_x> mod q`: the first check of the verifier, which a caller makes before
/// [`Verify::verify`].
pub fn check_reduction(params: &Parameters, x: &[u64], y: u64, proof_y: &PVec) -> (ok: bool)
    requires
        verify_inputs(*params, x@),
    ensures
        ok == reduction_ok(*params, x@, y, proof_y.vec@),
{
    let ghost p = *params;
    proof {
        vstd::arithmetic::power2::lemma2_to64();
        lemma_ceil_log2_unique(1024, 10);
    }
    let logd = params.d.log();
    proof {
        lemma_ceil_log2_unique(p.d as nat, logd as nat);
    }
    let x_v = vstd::slice::slice_subrange(x, params.l - logd, params.l);
    let ring_y = proof_y.slice();
    if ring_y.len() != params.d {
        return false;
    }
    let q = params.q;
    let mut acc: u64 = 0;
    let mut i: usize = 0;
    while i < params.d
        invariant
            0 <= i <= p.d,
            *params == p,
            verify_inputs(p, x@),
            logd == log_d(p),
            logd == 10,
            x_v@ == x@.subrange(p.l - log_d(p), p.l as int),
            ring_y@ == proof_y.vec@,
            ring_y@.len() == p.d,
            q == p.q,
            acc < q,
            acc == reduction_value(p, x@, ring_y@, i as nat),
        decreases p.d - i,
    {
        let v = multi_lin_coeff_int(x_v, i, logd, q);
        let yi = ring_y[i];
        proof {
            assert((yi as u128) * (v as u128) <= 0xffff_ffff_ffff_ffffu128 * 0x1_0000_0000u128) by (nonlinear_arith)
                requires
                    v <= 0x1_0000_0000,
                    yi <= 0xffff_ffff_ffff_ffffu64,
            ;
        }
        let t = (acc as u128 + (yi as u128) * (v as u128)) % (q as u128);
        acc = t as u64;
        i = i + 1;
    }
    acc == y
}

/// The claimed sum `sum_i eq(tau_1, i) y_i(alpha)` of `F_alpha`.
fn compute_expected_sum_f_alpha(params: &Parameters, com: &PVec, proof: &ProofRound, alpha_pows: &[Fq4], tau_1: &[Fq4]) -> (a: Fq4)
    requires
        com.wf(),
        proof.v.wf(),
        proof.y.wf(),
        proof.y.len >= 1,
        com.d <= alpha_pows@.len(),
        proof.v.d <= alpha_pows@.len(),
        proof.y.d <= alpha_pows@.len(),
        com.len + proof.v.len + params.n + 2 <= usize::MAX,
        tau_1@.len() < 64,
    ensures
        a == eq_weighted_sum(y_alpha(*params, *com, *proof, alpha_pows@), tau_1@, y_alpha(*params, *com, *proof, alpha_pows@).len()),
{
    let ghost ys = y_alpha(*params, *com, *proof, alpha_pows@);
    let mut y_al: Vec<Fq4> = Vec::new();
    let mut i: usize = 0;
    while i < proof.v.length()
        invariant
            0 <= i <= proof.v.len,
            proof.v.wf(),
            proof.v.d <= alpha_pows@.len(),
            y_al@ =~= pvec_evals(proof.v, alpha_pows@).take(i as int),
        decreases proof.v.len - i,
    {
        y_al.push(proof.v.element(i).eval(alpha_pows));
        i = i + 1;
    }
    let mut i: usize = 0;
    while i < com.length()
        invariant
            0 <= i <= com.len,
            com.wf(),
            com.d <= alpha_pows@.len(),
            y_al@ =~= pvec_evals(proof.v, alpha_pows@) + pvec_evals(*com, alpha_pows@).take(i as int),
        decreases com.len - i,
    {
        y_al.push(com.element(i).eval(alpha_pows));
        i = i + 1;
    }
    y_al.push(proof.y.element(0).eval(alpha_pows));
    y_al.push(Fq4::zero());
    let mut i: usize = 0;
    while i < params.n
        invariant
            0 <= i <= params.n,
            y_al@ =~= pvec_evals(proof.v, alpha_pows@) + pvec_evals(*com, alpha_pows@) + seq![
                poly_eval(proof.y.elem(0), alpha_pows@, proof.y.d as nat),
                lift4(fq(0)),
            ] + Seq::new(i as nat, |t: int| lift4(fq(0))),
        decreases params.n - i,
    {
        y_al.push(Fq4::zero());
        i = i + 1;
    }
    assert(y_al@ =~= ys);
    let mut a = Fq4::zero();
    let mut i: usize = 0;
    while i < y_al.len()
        invariant
            0 <= i <= ys.len(),
            y_al@ == ys,
            tau_1@.len() < 64,
            a == eq_weighted_sum(ys, tau_1@, i as nat),
        decreases ys.len() - i,
    {
        let e = eq_bits_value(tau_1, i, tau_1.len());
        a = a.plus(e.times(y_al[i]));
        i = i + 1;
    }
    a
}

/// The multilinear extension of `table` (of `2^point.len()` entries) at `point`, by folding the
/// table one variable at a time.
pub fn mle_eval(table: &Vec<Fq4>, point: &[Fq4]) -> (v: Fq4)
    requires
        table@.len() == pow2(point@.len()),
    ensures
        v == mle(table@, point@),
{
    let mut t: Vec<Fq4> = Vec::new();
    let mut i: usize = 0;
    while i < table.len()
        invariant
            0 <= i <= table@.len(),
            t@ == table@.take(i as int),
        decreases table@.len() - i,
    {
        t.push(table[i]);
        i = i + 1;
    }
    assert(t@ =~= table@);
    assert(point@.skip(0) =~= point@);
    let mut j: usize = 0;
    while j < point.len()
        invariant
            0 <= j <= point@.len(),
            t@.len() == pow2((point@.len() - j) as nat),
            mle(t@, point@.skip(j as int)) == mle(table@, point@),
        decreases point@.len() - j,
    {
        proof {
            vstd::arithmetic::power2::lemma_pow2_unfold((point@.len() - j) as nat);
            assert(point@.skip(j as int).drop_first() =~= point@.skip(j + 1));
        }
        t = fix_first_variable(&t, point[j]);
        j = j + 1;
    }
    proof {
        vstd::arithmetic::power2::lemma2_to64();
        assert(point@.skip(j as int) =~= Seq::<Fq4>::empty());
    }
    t[0]
}

/// The running claims after all rounds are consistent: run both sumchecks' verifier side,
/// deriving each round's shared challenge from the transcript extended by the two round
/// messages. `None` when a round is inconsistent.
fn sumcheck_verify(
    univariates_f_alpha: &Vec<Univariate>,
    univariates_f_0: &Vec<Univariate>,
    sum_f_alpha: Fq4,
    fs: &mut FS,
    q: u64,
) -> (res: Option<(Fq4, Fq4, Vec<Fq4>)>)
    requires
        q == Q,
    ensures
        ({
            let t = old(fs)@;
            let ga = univariates_f_alpha@;
            let g0 = univariates_f_0@;
            let n = ga.len();
            let units = (forall|j: int| 0 <= j < ga.len() ==> node_units((#[trigger] ga[j])@.len()))
                && (forall|j: int| 0 <= j < g0.len() ==> node_units((#[trigger] g0[j])@.len()));
            &&& units ==> (res is Some <==> (g0.len() == n && rounds_ok(t, ga, g0, sum_f_alpha, n)))
            &&& res matches Some(r) ==> {
                &&& r.2@ == Seq::new(n, |j: int| sc_chal(t, ga, g0, j as nat))
                &&& units ==> r.0 == sc_claim(t, ga, g0, ga, sum_f_alpha, n)
                &&& units ==> r.1 == sc_claim(t, ga, g0, g0, lift4(fq(0)), n)
            }
        }),
{
    let ghost t = fs@;
    let ghost ga = univariates_f_alpha@;
    let ghost g0 = univariates_f_0@;
    let ghost units = (forall|j: int| 0 <= j < ga.len() ==> node_units((#[trigger] ga[j])@.len()))
        && (forall|j: int| 0 <= j < g0.len() ==> node_units((#[trigger] g0[j])@.len()));
    let rounds = univariates_f_alpha.len();
    if univariates_f_0.len() != rounds {
        return None;
    }
    let mut cur_f_alpha = sum_f_alpha;
    let mut cur_f_0 = Fq4::zero();
    let mut chals: Vec<Fq4> = Vec::new();
    let mut j: usize = 0;
    while j < rounds
        invariant
            0 <= j <= rounds,
            rounds == ga.len(),
            g0.len() == rounds,
            q == Q,
            ga == univariates_f_alpha@,
            g0 == univariates_f_0@,
            units == ((forall|j: int| 0 <= j < ga.len() ==> node_units((#[trigger] ga[j])@.len()))
                && (forall|j: int| 0 <= j < g0.len() ==> node_units((#[trigger] g0[j])@.len()))),
            fs@ == sc_transcript(t, ga, g0, j as nat),
            t == old(fs)@,
            chals@ == Seq::new(j as nat, |i: int| sc_chal(t, ga, g0, i as nat)),
            units ==> cur_f_alpha == sc_claim(t, ga, g0, ga, sum_f_alpha, j as nat),
            units ==> cur_f_0 == sc_claim(t, ga, g0, g0, lift4(fq(0)), j as nat),
            units ==> rounds_ok(t, ga, g0, sum_f_alpha, j as nat),
        decreases rounds - j,
    {
        let ua = &univariates_f_alpha[j];
        let u0 = &univariates_f_0[j];
        if ua.len() < 2 || u0.len() < 2 {
            proof {
                assert(!round_ok(t, ga, g0, sum_f_alpha, j as int));
                assert(!rounds_ok(t, ga, g0, sum_f_alpha, rounds as nat));
            }
            return None;
        }
        if cur_f_alpha != ua.binary_sum() || cur_f_0 != u0.binary_sum() {
            proof {
                if units {
                    assert(!round_ok(t, ga, g0, sum_f_alpha, j as int));
                    assert(!rounds_ok(t, ga, g0, sum_f_alpha, rounds as nat));
                }
            }
            return None;
        }
        fs.push(ua);
        fs.push(u0);
        if !fs.seed_fits() {
            proof {
                assert(!round_ok(t, ga, g0, sum_f_alpha, j as int));
                assert(!rounds_ok(t, ga, g0, sum_f_alpha, rounds as nat));
            }
            return None;
        }
        let seed = fs.get_seed();
        let mut rng = Prg::from_seed(seed);
        let r = rand_field(q, &mut rng);
        cur_f_alpha = ua.eval(r);
        cur_f_0 = u0.eval(r);
        chals.push(r);
        proof {
            assert(chals@ =~= Seq::new((j + 1) as nat, |i: int| sc_chal(t, ga, g0, i as nat)));
            if units {
                assert(node_units(ga[j as int]@.len()));
                assert(node_units(g0[j as int]@.len()));
                assert(round_ok(t, ga, g0, sum_f_alpha, j as int));
                assert forall|i: int| 0 <= i < j + 1 implies #[trigger] round_ok(t, ga, g0, sum_f_alpha, i) by {
                    if i < j {
                        assert(rounds_ok(t, ga, g0, sum_f_alpha, j as nat));
                    }
                }
            }
        }
        j = j + 1;
    }
    Some((cur_f_alpha, cur_f_0, chals))
}

/// `n` successive draws of [`rand_field`] from a generator seeded with `seed`.
pub(crate) fn draw_fields(q: u64, seed: [u8; 32], n: usize) -> (v: Vec<Fq4>)
    requires
        q == Q,
    ensures
        v@ == field_draws(seed@, n as nat).0,
{
    let mut rng = Prg::from_seed(seed);
    let mut v: Vec<Fq4> = Vec::with_capacity(n);
    let mut i: usize = 0;
    while i < n
        invariant
            0 <= i <= n,
            q == Q,
            rng.seed() == seed@,
            rng.pos() == field_draws(seed@, i as nat).1,
            v@ == field_draws(seed@, i as nat).0,
        decreases n - i,
    {
        let f = rand_field(q, &mut rng);
        v.push(f);
        i = i + 1;
    }
    v
}

/// `eq(tau, i) = prod_{j < n} eq(tau_j, bit j of i)`.
pub(crate) fn eq_bits_value(tau: &[Fq4], i: usize, n: usize) -> (e: Fq4)
    requires
        n <= tau@.len(),
        n < 64,
    ensures
        e == eq_bits(tau@, i, n as nat),
{
    let mut e = Fq4::one();
    let mut j: usize = 0;
    while j < n
        invariant
            0 <= j <= n,
            n <= tau@.len(),
            n < 64,
            e == eq_bits(tau@, i, j as nat),
        decreases n - j,
    {
        let sh: u64 = (i as u64) >> (j as u64);
        let bitv: u64 = sh & 1u64;
        assert(bitv <= 1) by (bit_vector)
            requires
                bitv == sh & 1u64,
        ;
        e = e.times(eq_bin(tau[j], bitv as usize));
        j = j + 1;
    }
    e
}

/// `prod_{i < n} eq(a_i, b_i)`.
fn eq_product(a: &[Fq4], b: &[Fq4], n: usize) -> (e: Fq4)
    requires
        n <= a@.len(),
        n <= b@.len(),
    ensures
        e == eq_prod(a@, b@, n as nat),
{
    let mut e = Fq4::one();
    let mut i: usize = 0;
    while i < n
        invariant
            0 <= i <= n,
            n <= a@.len(),
            n <= b@.len(),
            e == eq_prod(a@, b@, i as nat),
        decreases n - i,
    {
        e = e.times(eq(a[i], b[i]));
        i = i + 1;
    }
    e
}

/// The range polynomial `w (w + b/2) prod_{r = 1}^{b/2 - 1} (w^2 - r^2)` at `w`.
pub(crate) fn range_value(w: Fq4, b: u64) -> (v: Fq4)
    requires
        2 <= b <= 0x1_0000_0000,
    ensures
        v == range_poly(w, b as int),
{
    let half = b / 2;
    let mut v = w.times(w.plus(lift_int(half)));
    let sq = w.times(w);
    let mut r: u64 = 1;
    while r < half
        invariant
            1 <= r <= half,
            half == b / 2,
            2 <= b <= 0x1_0000_0000,
            sq == mul4(w, w),
            v == range_acc(w, b as int, (r - 1) as nat),
        decreases half - r,
    {
        proof {
            assert(r * r < 0x4000_0000_0000_0000) by (nonlinear_arith)
                requires
                    r < 0x8000_0000,
            ;
        }
        let rr = r * r;
        proof {
            assert(signed(rr) == rr as int);
            assert(rr as int == (r as int) * (r as int));
        }
        v = v.times(sq.minus(lift_int(rr)));
        r = r + 1;
    }
    v
}

/// A table built by [`form_m_alpha`] is the sequence [`m_table`].
pub(crate) proof fn lemma_table_seq(t: Seq<Fq4>, p: Parameters, x: Seq<u64>, chals: Seq<PChal>, pows: Seq<Fq4>)
    requires
        is_m_alpha_table(
            t,
            p,
            x,
            chals,
            pows,
            seeded_mat(p, p.a_seed@, p.width_a as int),
            seeded_mat(p, p.b_seed@, p.width_b as int),
            seeded_mat(p, p.d_seed@, p.width_d as int),
        ),
        m_width(p) >= 1,
    ensures
        t == m_table(p, x, chals, pows),
{
    let w = m_width(p) as int;
    let h = m_height(p) as int;
    assert forall|k: int| 0 <= k < t.len() implies #[trigger] t[k] == m_table(p, x, chals, pows)[k] by {
        let row = k / w;
        let col = k % w;
        vstd::arithmetic::div_mod::lemma_fundamental_div_mod(k, w);
        assert(0 <= row < h) by (nonlinear_arith)
            requires
                0 <= k < h * w,
                w >= 1,
                row == k / w,
        ;
        assert(row * w + col == k) by (nonlinear_arith)
            requires
                k == w * (k / w) + k % w,
                row == k / w,
                col == k % w,
        ;
    }
    assert(t =~= m_table(p, x, chals, pows));
}

/// The verifier of one round.
pub trait Verify {
    /// Check a proof that the polynomial committed to by `com` takes the value `y` at the point
    /// `x`. The value must already reduce from `Y` ([`check_reduction`], which the caller tests
    /// first and on whose failure it stops). Every challenge is re-derived from the transcript;
    /// see [`verify_accepts`] for the remaining checks, each of which makes the result `false`
    /// when it fails. The result is exact whenever interpolation of the round messages is
    /// (always for messages of at most twenty evaluations).
    fn verify(params: &Parameters, x: &[u64], y: u64, com: &PVec, proof: &ProofRound) -> (ok: bool)
        requires
            verify_inputs(*params, x@),
            reduction_ok(*params, x@, y, proof.y.vec@),
            com.wf(),
            proof.y.wf(),
            proof.v.wf(),
            proof.u_dash.wf(),
        ensures
            units_ok(*proof) && ok ==> exists|chals: Seq<PChal>|
                chals_from(chals, *params, transcript_seed(transcript_chals(*com, *proof)))
                    && verify_accepts(*params, x@, y, *com, *proof, chals),
            units_ok(*proof) && reduction_ok(*params, x@, y, proof.y.vec@) && seed_fits(transcript_chals(*com, *proof))
                && (forall|chals: Seq<PChal>|
                chals_from(chals, *params, transcript_seed(transcript_chals(*com, *proof)))
                    ==> verify_accepts(*params, x@, y, *com, *proof, chals)) ==> ok,
    ;
}

/// The final checks of both sumchecks.
fn final_checks(
    params: &Parameters,
    proof: &ProofRound,
    claim_f_alpha: Fq4,
    claim_f_0: Fq4,
    rs: &Vec<Fq4>,
    tau_0: &[Fq4],
    tau_1: &[Fq4],
    alpha_pows: &Vec<Fq4>,
    m_alpha: &Vec<Fq4>,
) -> (ok: bool)
    requires
        params.b == 16,
        log_d(*params) == 10,
        alpha_pows@.len() == 1024,
        rs@.len() >= 10,
        tau_0@.len() == rs@.len(),
        m_alpha@.len() == pow2((rs@.len() - 10 + tau_1@.len()) as nat),
    ensures
        ok == final_ok(*params, *proof, claim_f_alpha, claim_f_0, rs@, tau_0@, tau_1@, alpha_pows@, m_alpha@),
{
    let n = rs.len();
    let f_0_actual = eq_product(tau_0, rs.as_slice(), n).times(range_value(proof.y_dash, params.b));
    if claim_f_0 != f_0_actual {
        return false;
    }
    let first = vstd::slice::slice_subrange(rs.as_slice(), 0, 10);
    proof {
        vstd::arithmetic::power2::lemma2_to64();
        assert(rs@.take(10) =~= first@);
    }
    let alpha_r = mle_eval(alpha_pows, first);
    let mut m_point: Vec<Fq4> = Vec::new();
    let mut i: usize = 10;
    while i < rs.len()
        invariant
            10 <= i <= rs@.len(),
            m_point@ == rs@.subrange(10, i as int),
        decreases rs@.len() - i,
    {
        m_point.push(rs[i]);
        i = i + 1;
    }
    let mut i: usize = 0;
    while i < tau_1.len()
        invariant
            0 <= i <= tau_1@.len(),
            m_point@ == rs@.skip(10) + tau_1@.take(i as int),
        decreases tau_1@.len() - i,
    {
        m_point.push(tau_1[i]);
        i = i + 1;
    }
    proof {
        assert(m_point@ =~= rs@.skip(10) + tau_1@);
    }
    let m_r = mle_eval(m_alpha, m_point.as_slice());
    claim_f_alpha == proof.y_dash.times(alpha_r).times(m_r)
}

/// The checks after the reduction, given the sparse challenges and the transcript up to `u'`.
#[verifier::rlimit(40)]
fn verify_tail(
    params: &Parameters,
    x: &[u64],
    com: &PVec,
    proof: &ProofRound,
    challenges: &Vec<PChal>,
    seed2: [u8; 32],
    fs: &mut FS,
) -> (ok: bool)
    requires
        verify_inputs(*params, x@),
        com.wf(),
        proof.y.wf(),
        proof.v.wf(),
        proof.y.len >= 1,
        chals_from(challenges@, *params, transcript_seed(transcript_chals(*com, *proof))),
        seed2@ == transcript_seed(transcript_field(*com, *proof)),
        old(fs)@ == transcript_field(*com, *proof),
    ensures
        units_ok(*proof) ==> (ok == tail_ok(*params, x@, *com, *proof, challenges@)),
{
    let ghost p = *params;
    let ghost t2 = transcript_field(*com, *proof);
    proof {
        lemma_table_dims(p);
        vstd::arithmetic::power2::lemma2_to64();
        lemma_ceil_log2_unique(1024, 10);
    }
    let mu = params.width_d + params.width_b + params.width_a * params.delta_z;
    let rows = params.n + params.n + 1 + 1 + params.n;
    let num_vars = ((mu + rows * params.delta) * params.d).log();
    let log_n = rows.log();
    let log_w = (mu + rows * params.delta).log();
    proof {
        lemma_ceil_log2_unique(((m_mu(p) + m_rows(p) * p.delta) * p.d) as nat, num_vars as nat);
        lemma_ceil_log2_unique(m_rows(p) as nat, log_n as nat);
        lemma_ceil_log2_unique((m_mu(p) + m_rows(p) * p.delta) as nat, log_w as nat);
    }
    if num_vars != log_w + 10 {
        return false;
    }
    if proof.v.d != params.d || com.d != params.d || proof.y.d != params.d {
        return false;
    }
    let draws = draw_fields(params.q, seed2, 1 + num_vars + log_n);
    proof {
        lemma_field_draws_len(seed2@, (1 + num_vars + log_n) as nat);
    }
    let alpha = draws[0];
    let alpha_pows = powers(alpha, params.d);
    let tau_0 = vstd::slice::slice_subrange(draws.as_slice(), 1, 1 + num_vars);
    let tau_1 = vstd::slice::slice_subrange(draws.as_slice(), 1 + num_vars, 1 + num_vars + log_n);
    let ghost pows = Seq::new(p.d as nat, |i: int| fpow(alpha, i as nat));
    proof {
        assert(alpha_pows@ =~= pows);
    }
    let ya_len: u128 = proof.v.length() as u128 + com.length() as u128 + 2 + params.n as u128;
    let ghost ys = y_alpha(p, *com, *proof, pows);
    proof {
        assert(ys.len() == ya_len);
    }
    if ya_len > usize::MAX as u128 {
        proof {
            crate::hachi::common::lemma_ceil_pow2(ys.len());
            if ceil_log2(ys.len()) <= 3 {
                vstd::arithmetic::power2::lemma_pow2_unfold(3);
                if ceil_log2(ys.len()) < 3 {
                    vstd::arithmetic::power2::lemma_pow2_strictly_increases(ceil_log2(ys.len()), 3);
                }
            }
        }
        return false;
    }
    let ya_len = ya_len as usize;
    let log_ya = ya_len.log();
    proof {
        lemma_ceil_log2_unique(ys.len(), log_ya as nat);
    }
    if log_ya != log_n {
        return false;
    }
    proof {
        lemma_ceil_log2_unique(ys.len(), log_n as nat);
    }
    let sum = compute_expected_sum_f_alpha(params, com, proof, alpha_pows.as_slice(), tau_1);
    let res = sumcheck_verify(&proof.univariates_f_alpha, &proof.univariates_f_0, sum, fs, params.q);
    match res {
        None => false,
        Some((claim_f_alpha, claim_f_0, rs)) => {
            if rs.len() != num_vars {
                return false;
            }
            let m_alpha = form_m_alpha(params, x, challenges.as_slice(), alpha_pows.as_slice());
            proof {
                lemma_table_seq(m_alpha@, p, x@, challenges@, alpha_pows@);
                vstd::arithmetic::power2::lemma_pow2_adds(log_n as nat, log_w as nat);
            }
            final_checks(params, proof, claim_f_alpha, claim_f_0, &rs, tau_0, tau_1, &alpha_pows, &m_alpha)
        },
    }
}

/// The verifier, returning its verdict together with the sparse challenges it derived.
fn verify_round(params: &Parameters, x: &[u64], y: u64, com: &PVec, proof: &ProofRound) -> (res: (bool, Vec<PChal>))
    requires
        verify_inputs(*params, x@),
        com.wf(),
        proof.y.wf(),
        proof.v.wf(),
        proof.u_dash.wf(),
    ensures
        chals_from(res.1@, *params, transcript_seed(transcript_chals(*com, *proof)))
            || !reduction_ok(*params, x@, y, proof.y.vec@)
            || !seed_fits(transcript_chals(*com, *proof)),
        units_ok(*proof) ==> (res.0 == verify_accepts(*params, x@, y, *com, *proof, res.1@)),
{
    let ghost p = *params;
    if !check_reduction(params, x, y, &proof.y) {
        return (false, Vec::new());
    }
    let mut fs = FS::init();
    fs.push(com);
    fs.push(&proof.y);
    fs.push(&proof.v);
    proof {
        assert(fs@ == transcript_chals(*com, *proof));
    }
    if !fs.seed_fits() {
        return (false, Vec::new());
    }
    let seed = fs.get_seed();
    proof {
        vstd::arithmetic::power2::lemma2_to64();
        vstd::bits::lemma_u64_shl_is_mul(1, params.r as u64);
    }
    let pow_r = (1u64 << (params.r as u64)) as usize;
    let challenges = PChal::rand_vec(pow_r, params.d, params.k, seed);
    fs.push(&proof.u_dash);
    proof {
        assert(fs@ == transcript_field(*com, *proof));
        assert(proof.y.vec@.len() == proof.y.len * proof.y.d);
        if proof.y.len == 0 {
            assert(proof.y.vec@.len() == 0);
        }
    }
    if !fs.seed_fits() {
        return (false, challenges);
    }
    let seed2 = fs.get_seed();
    let ok = verify_tail(params, x, com, proof, &challenges, seed2, &mut fs);
    (ok, challenges)
}

impl Verify for Hachi {
    fn verify(params: &Parameters, x: &[u64], y: u64, com: &PVec, proof: &ProofRound) -> (ok: bool) {
        let (ok, challenges) = verify_round(params, x, y, com, proof);
        proof {
            if units_ok(*proof) && ok {
                assert(chals_from(challenges@, *params, transcript_seed(transcript_chals(*com, *proof))));
            }
            if units_ok(*proof) && !ok {
                if chals_from(challenges@, *params, transcript_seed(transcript_chals(*com, *proof))) {
                    assert(!verify_accepts(*params, x@, y, *com, *proof, challenges@));
                }
            }
        }
        ok
    }
}

} // verus!
