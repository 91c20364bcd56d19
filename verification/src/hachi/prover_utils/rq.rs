//! Prover steps generic over the ring: sampling the commitment matrices, the commitment
//! `v = D w_hat` to the first message lifted to `Z_q[X]`, the folded response `z = sum_i c_i s_i`
//! and the lifting of `sum_i c_i t_i` to `Z_q[X]`. A product computed in the full ring `Z_q[X]`
//! is split by [`PVec::cyclotomic_div`] into its remainder (its value in `R_q`) and its quotient
//! by `X^d + 1`.

use vstd::prelude::*;
use vstd::arithmetic::power::pow;
use vstd::arithmetic::power2::pow2;
use crate::arithmetic::poly::cdiv_rem;
use crate::arithmetic::poly_vec::PVec;
use crate::arithmetic::poly_mat::PMat;
use crate::arithmetic::poly_mat_ntt::PMatNtt;
use crate::arithmetic::poly_chal::{PChal, entry_exp};
use crate::arithmetic::ring::{Ring, row_product, sparse_sum, ntt_entry};
use crate::arithmetic::utils::{is_pow2, two64, signed};
use crate::hachi::common::{seeded_mat, mats_fit};
use crate::hachi::setup::{setup_ok, params_match};
use crate::hachi::commit::{decomposes, ntt_of, chunk_committed, chunk, commit_inputs};
use crate::hachi::setup::Parameters;
use crate::stream::Stream;

verus! {

/// The commitment matrices fit in memory in the NTT form of the full ring.
pub open spec fn mats_fit_full(p: Parameters) -> bool {
    &&& p.n * p.width_a * (2 * p.d) <= usize::MAX
    &&& p.n * p.width_b * (2 * p.d) <= usize::MAX
    &&& p.n * p.width_d * (2 * p.d) <= usize::MAX
}

/// Parameters from setup whose matrices fit in memory in both NTT forms.
pub open spec fn prover_params(p: Parameters) -> bool {
    &&& setup_ok(p.l as nat)
    &&& params_match(p, p.l as nat, p.decomp_witness)
    &&& mats_fit(p)
    &&& mats_fit_full(p)
}

/// `ring` is the full ring `Z_q[X]` of the parameters.
pub open spec fn full_ring(ring: Ring, p: Parameters) -> bool {
    ring.wf() && ring.q == p.q && ring.input_dim == p.d && !ring.cyclotomic && ring.output_dim == 2 * p.d
}

/// `ring` is the cyclotomic ring `R_q` of the parameters.
pub open spec fn cyclotomic_ring(ring: Ring, p: Parameters) -> bool {
    ring.wf() && ring.q == p.q && ring.input_dim == p.d && ring.cyclotomic && ring.output_dim == p.d
}

/// Row `row` of the product `M vec` over `Z_q[X]`, of `2d` coefficients.
pub open spec fn full_product(m: PMatNtt, vec: PVec, p: Parameters, row: int) -> Seq<u64> {
    row_product(m, vec, row, (2 * p.d) as nat, p.q as int)
}

/// `m` is the matrix of `n x width` entries regenerated from `seed`.
pub open spec fn is_seeded(m: PMat, p: Parameters, seed: Seq<u8>, width: int) -> bool {
    &&& m.wf()
    &&& m.height == p.n
    &&& m.width == width
    &&& m.vec.d == p.d
    &&& m.vec.vec@ == seeded_mat(p, seed, width)
}

proof fn lemma_pow16_8()
    ensures
        pow(16, 8) == 0x1_0000_0000,
{
    reveal_with_fuel(pow, 9);
}

proof fn lemma_small_constants(p: Parameters)
    requires
        p.d == 1024,
        p.b == 16,
    ensures
        is_pow2(p.d as nat),
        is_pow2(2 * p.d as nat),
        is_pow2(p.b as nat),
        pow(p.b as int, 8) == 0x1_0000_0000,
{
    vstd::arithmetic::power2::lemma2_to64();
    assert(10 < 64 && p.d == pow2(10));
    assert(11 < 64 && 2 * p.d == pow2(11));
    assert(4 < 64 && p.b == pow2(4));
    lemma_pow16_8();
}

/// Sample the commitment matrices `A`, `B`, `D` from the seeds of `params` and their NTT forms
/// in the full ring, in the order `(A, A_ntt, B, B_ntt, D, D_ntt)`. When the three are shared,
/// only `D` is sampled and `A`, `B` are copies of it.
pub fn sample_matrices(params: &Parameters, ring: &Ring) -> (res: (PMat, PMatNtt, PMat, PMatNtt, PMat, PMatNtt))
    requires
        prover_params(*params),
        full_ring(*ring, *params),
    ensures
        is_seeded(res.0, *params, params.a_seed@, params.width_a as int),
        ntt_of(res.1, seeded_mat(*params, params.a_seed@, params.width_a as int), params.n as nat, params.width_a as nat, params.d as nat, 2 * params.d as nat),
        is_seeded(res.2, *params, params.b_seed@, params.width_b as int),
        ntt_of(res.3, seeded_mat(*params, params.b_seed@, params.width_b as int), params.n as nat, params.width_b as nat, params.d as nat, 2 * params.d as nat),
        is_seeded(res.4, *params, params.d_seed@, params.width_d as int),
        ntt_of(res.5, seeded_mat(*params, params.d_seed@, params.width_d as int), params.n as nat, params.width_d as nat, params.d as nat, 2 * params.d as nat),
{
    let ghost p = *params;
    proof {
        lemma_small_constants(p);
        assert(p.n * p.width_d * p.d <= p.n * p.width_d * (2 * p.d)) by (nonlinear_arith);
        assert(p.n * p.width_b * p.d <= p.n * p.width_b * (2 * p.d)) by (nonlinear_arith);
        assert(p.n * p.width_a * p.d <= p.n * p.width_a * (2 * p.d)) by (nonlinear_arith);
    }
    let mat_d = PMat::rand(params.n, params.width_d, params.d, params.q, params.d_seed);
    let mut mat_d_ntt = PMatNtt::zero(mat_d.height(), mat_d.width(), 2 * params.d);
    ring.mat_fwd_ntt(&mat_d, &mut mat_d_ntt);
    if params.reuse_mats {
        let mat_b = mat_d.copy();
        let mat_b_ntt = mat_d_ntt.copy();
        let mat_a = mat_d.copy();
        let mat_a_ntt = mat_d_ntt.copy();
        proof {
            assert forall|k: int, i: int, j: int| 0 <= k < 5 && 0 <= i < p.n && 0 <= j < p.width_d implies
                #[trigger] ntt_entry(mat_a_ntt, k, i, j) == ntt_entry(mat_d_ntt, k, i, j) by {}
            assert forall|k: int, i: int, j: int| 0 <= k < 5 && 0 <= i < p.n && 0 <= j < p.width_d implies
                #[trigger] ntt_entry(mat_b_ntt, k, i, j) == ntt_entry(mat_d_ntt, k, i, j) by {}
        }
        (mat_a, mat_a_ntt, mat_b, mat_b_ntt, mat_d, mat_d_ntt)
    } else {
        let mat_b = PMat::rand(params.n, params.width_b, params.d, params.q, params.b_seed);
        let mut mat_b_ntt = PMatNtt::zero(mat_b.height(), mat_b.width(), 2 * params.d);
        ring.mat_fwd_ntt(&mat_b, &mut mat_b_ntt);
        let mat_a = PMat::rand(params.n, params.width_a, params.d, params.q, params.a_seed);
        let mut mat_a_ntt = PMatNtt::zero(mat_a.height(), mat_a.width(), 2 * params.d);
        ring.mat_fwd_ntt(&mat_a, &mut mat_a_ntt);
        (mat_a, mat_a_ntt, mat_b, mat_b_ntt, mat_d, mat_d_ntt)
    }
}

/// Decompose the first message `w` into `w_hat = G^{-1}(w)` and commit to it over `Z_q[X]`:
/// `D w_hat = v + (X^d + 1) v_quo`, with `v` the commitment in `R_q` and `v_quo` the quotient.
pub fn commit_w_and_lift(
    params: &Parameters,
    ring: &Ring,
    mat_d_ntt: &PMatNtt,
    w: &PVec,
    w_hat: &mut PVec,
    v: &mut PVec,
    v_quo: &mut PVec,
)
    requires
        prover_params(*params),
        full_ring(*ring, *params),
        ntt_of(*mat_d_ntt, seeded_mat(*params, params.d_seed@, params.width_d as int), params.n as nat, params.width_d as nat, params.d as nat, 2 * params.d as nat),
        w.wf() && w.len == pow2(params.r as nat) && w.d == params.d,
        forall|t: int| 0 <= t < w.vec@.len() ==> #[trigger] w.vec@[t] < params.q,
        old(w_hat).wf() && old(w_hat).len == pow2(params.r as nat) * params.delta && old(w_hat).d == params.d,
        old(v).wf() && old(v).len == params.n && old(v).d == params.d,
        old(v_quo).wf() && old(v_quo).len == params.n && old(v_quo).d == params.d,
    ensures
        decomposes(*final(w_hat), w.vec@, pow2(params.r as nat), *params),
        final(v).wf() && final(v).len == params.n && final(v).d == params.d,
        final(v_quo).wf() && final(v_quo).len == params.n && final(v_quo).d == params.d,
        forall|row: int| 0 <= row < params.n ==> (#[trigger] full_product(*mat_d_ntt, *final(w_hat), *params, row)).len()
            == 2 * params.d,
        forall|row: int, j: int| 0 <= row < params.n && 0 <= j < params.d ==> #[trigger] final(v_quo).coeff(row, j)
            == full_product(*mat_d_ntt, *final(w_hat), *params, row)[j + params.d],
        forall|row: int, j: int| 0 <= row < params.n && 0 <= j < params.d ==> #[trigger] final(v).coeff(row, j)
            == cdiv_rem(full_product(*mat_d_ntt, *final(w_hat), *params, row)[j],
                full_product(*mat_d_ntt, *final(w_hat), *params, row)[j + params.d], params.q),
{
    let ghost p = *params;
    proof {
        lemma_small_constants(p);
    }
    w.b_decomp_zq(params.q, params.b, params.delta, w_hat);
    let mut v_full = PVec::zero(params.n, 2 * params.d);
    ring.mat_mul_vec(mat_d_ntt, w_hat, &mut v_full, 0);
    v_full.cyclotomic_div(params.q, v_quo, v);
    proof {
        assert forall|row: int| 0 <= row < params.n implies (#[trigger] full_product(*mat_d_ntt, *w_hat, p, row)).len()
            == 2 * p.d by {
            assert(v_full.elem(0 + row) == full_product(*mat_d_ntt, *w_hat, p, row));
            crate::arithmetic::poly_vec::lemma_flat(row, 0, 2 * p.d, p.n as int);
        }
        assert forall|row: int, j: int| 0 <= row < params.n && 0 <= j < params.d implies
            #[trigger] v_quo.coeff(row, j) == full_product(*mat_d_ntt, *w_hat, p, row)[j + p.d] by {
            assert(v_full.elem(0 + row) == full_product(*mat_d_ntt, *w_hat, p, row));
            crate::arithmetic::poly_vec::lemma_flat(row, j + p.d, 2 * p.d, p.n as int);
        }
        assert forall|row: int, j: int| 0 <= row < params.n && 0 <= j < params.d implies
            #[trigger] v.coeff(row, j) == cdiv_rem(full_product(*mat_d_ntt, *w_hat, p, row)[j],
                full_product(*mat_d_ntt, *w_hat, p, row)[j + p.d], p.q) by {
            assert(v_full.elem(0 + row) == full_product(*mat_d_ntt, *w_hat, p, row));
            crate::arithmetic::poly_vec::lemma_flat(row, j, 2 * p.d, p.n as int);
            crate::arithmetic::poly_vec::lemma_flat(row, j + p.d, 2 * p.d, p.n as int);
        }
    }
}

/// Coefficient `t` of element `e` of `sum_{i < k} c_i s_i`, in wrapping arithmetic modulo
/// `2^64`, for the committed chunks `ss` and the challenges `chals`.
pub open spec fn zfold(ss: Seq<PVec>, chals: Seq<PChal>, e: int, t: int, d: int, k: nat) -> int
    decreases k,
{
    if k == 0 {
        0
    } else {
        (zfold(ss, chals, e, t, d, (k - 1) as nat) + sparse_sum(
            chals[k - 1].coeffs@,
            ss[k - 1].elem(e),
            t,
            d,
            true,
            chals[k - 1].coeffs@.len(),
        )) % two64()
    }
}

/// Every coefficient, read as a signed integer, is at most `bound` in absolute value.
pub open spec fn within_bound(v: Seq<u64>, bound: int) -> bool {
    forall|k: int| 0 <= k < v.len() ==> -bound <= #[trigger] signed(v[k]) <= bound
}

/// A challenge contributes nothing to a polynomial whose `d` coefficients are zero.
proof fn lemma_sparse_sum_zero(coeffs: Seq<u32>, poly: Seq<u64>, t: int, d: int, n: nat)
    requires
        forall|u: int| 0 <= u < d ==> #[trigger] poly[u] == 0,
    ensures
        sparse_sum(coeffs, poly, t, d, true, n) == 0,
    decreases n,
{
    if n > 0 {
        lemma_sparse_sum_zero(coeffs, poly, t, d, (n - 1) as nat);
    }
}

/// Folding chunks that are all zero at element `e` gives zero there.
proof fn lemma_zfold_zero(ss: Seq<PVec>, chals: Seq<PChal>, e: int, t: int, d: int, k: nat)
    requires
        forall|i: int, u: int| 0 <= i < k && 0 <= u < d ==> #[trigger] ss[i].elem(e)[u] == 0,
    ensures
        zfold(ss, chals, e, t, d, k) == 0,
    decreases k,
{
    if k > 0 {
        lemma_zfold_zero(ss, chals, e, t, d, (k - 1) as nat);
        assert forall|u: int| 0 <= u < d implies #[trigger] ss[k - 1].elem(e)[u] == 0 by {
            assert(ss[k - 1].elem(e)[u] == 0);
        }
        lemma_sparse_sum_zero(chals[k - 1].coeffs@, ss[k - 1].elem(e), t, d, chals[k - 1].coeffs@.len());
    }
}

/// A challenge contributes nothing to a polynomial whose `d` coefficients are zero (full mode).
proof fn lemma_sparse_sum_zero_full(coeffs: Seq<u32>, poly: Seq<u64>, t: int, d: int, n: nat)
    requires
        forall|u: int| 0 <= u < d ==> #[trigger] poly[u] == 0,
    ensures
        sparse_sum(coeffs, poly, t, d, false, n) == 0,
    decreases n,
{
    if n > 0 {
        lemma_sparse_sum_zero_full(coeffs, poly, t, d, (n - 1) as nat);
    }
}

/// `sum_i c_i t_i` folds the row of every inner commitment with its own challenge: where the rows
/// `row` of all inner commitments but that of chunk `k` are zero, coefficient `tt` of the fold is
/// that of `c_k t_k` modulo `q`, whatever the other challenges are.
pub proof fn lemma_cfold_single_chunk(chals: Seq<PChal>, t: PVec, n: int, row: int, tt: int, d: int, q: int, kk: nat, k: int)
    requires
        q > 0,
        0 <= k < kk,
        forall|i: int, u: int| 0 <= i < kk && i != k && 0 <= u < d ==> #[trigger] t.elem(i * n + row)[u] == 0,
    ensures
        cfold(chals, t, n, row, tt, d, q, kk) == sparse_sum(chals[k].coeffs@, t.elem(k * n + row), tt, d, false,
            chals[k].coeffs@.len()) % q,
    decreases kk,
{
    let sk = sparse_sum(chals[k].coeffs@, t.elem(k * n + row), tt, d, false, chals[k].coeffs@.len());
    if kk - 1 == k {
        lemma_cfold_zero(chals, t, n, row, tt, d, q, k as nat, k);
    } else {
        lemma_cfold_single_chunk(chals, t, n, row, tt, d, q, (kk - 1) as nat, k);
        assert forall|u: int| 0 <= u < d implies #[trigger] t.elem((kk - 1) * n + row)[u] == 0 by {
            assert(t.elem((kk - 1) * n + row)[u] == 0);
        }
        lemma_sparse_sum_zero_full(chals[kk - 1].coeffs@, t.elem((kk - 1) * n + row), tt, d, chals[kk - 1].coeffs@.len());
        vstd::arithmetic::div_mod::lemma_mod_twice(sk, q);
    }
}

/// Folding rows that are zero below chunk `k` gives zero.
proof fn lemma_cfold_zero(chals: Seq<PChal>, t: PVec, n: int, row: int, tt: int, d: int, q: int, kk: nat, k: int)
    requires
        q > 0,
        kk <= k,
        forall|i: int, u: int| 0 <= i < k && 0 <= u < d ==> #[trigger] t.elem(i * n + row)[u] == 0,
    ensures
        cfold(chals, t, n, row, tt, d, q, kk) == 0,
    decreases kk,
{
    if kk > 0 {
        lemma_cfold_zero(chals, t, n, row, tt, d, q, (kk - 1) as nat, k);
        assert forall|u: int| 0 <= u < d implies #[trigger] t.elem((kk - 1) * n + row)[u] == 0 by {
            assert(t.elem((kk - 1) * n + row)[u] == 0);
        }
        lemma_sparse_sum_zero_full(chals[kk - 1].coeffs@, t.elem((kk - 1) * n + row), tt, d, chals[kk - 1].coeffs@.len());
        vstd::arithmetic::div_mod::lemma_small_mod(0, q as nat);
    }
}

/// The response folds every chunk with its own challenge, `z = sum_i c_i s_i`: where all
/// chunks but chunk `k` are zero at element `e`, that element of `z` is the product `c_k s_k`
/// (wrapping), whatever the other challenges are.
pub proof fn lemma_zfold_single_chunk(ss: Seq<PVec>, chals: Seq<PChal>, e: int, t: int, d: int, n: nat, k: int)
    requires
        0 <= k < n,
        forall|i: int, u: int| 0 <= i < n && i != k && 0 <= u < d ==> #[trigger] ss[i].elem(e)[u] == 0,
    ensures
        zfold(ss, chals, e, t, d, n) == sparse_sum(chals[k].coeffs@, ss[k].elem(e), t, d, true, chals[k].coeffs@.len())
            % two64(),
    decreases n,
{
    let sk = sparse_sum(chals[k].coeffs@, ss[k].elem(e), t, d, true, chals[k].coeffs@.len());
    if n - 1 == k {
        assert forall|i: int, u: int| 0 <= i < k && 0 <= u < d implies #[trigger] ss[i].elem(e)[u] == 0 by {
            assert(i != k);
        }
        lemma_zfold_zero(ss, chals, e, t, d, k as nat);
    } else {
        lemma_zfold_single_chunk(ss, chals, e, t, d, (n - 1) as nat, k);
        assert forall|u: int| 0 <= u < d implies #[trigger] ss[n - 1].elem(e)[u] == 0 by {
            assert(ss[n - 1].elem(e)[u] == 0);
        }
        lemma_sparse_sum_zero(chals[n - 1].coeffs@, ss[n - 1].elem(e), t, d, chals[n - 1].coeffs@.len());
        vstd::arithmetic::div_mod::lemma_mod_twice(sk, two64());
    }
}

proof fn lemma_zfold_prefix(ss: Seq<PVec>, x: PVec, chals: Seq<PChal>, e: int, t: int, d: int, k: nat)
    requires
        k <= ss.len(),
    ensures
        zfold(ss.push(x), chals, e, t, d, k) == zfold(ss, chals, e, t, d, k),
    decreases k,
{
    if k > 0 {
        lemma_zfold_prefix(ss, x, chals, e, t, d, (k - 1) as nat);
        assert(ss.push(x)[k - 1] == ss[k - 1]);
    }
}

/// The folded response `z = sum_i c_i s_i` over the committed chunks `s_i` of the witness, in
/// wrapping two's-complement arithmetic, accumulated into `z` (zero on entry); returns whether
/// every coefficient of `z` is within `params.z_bound` in absolute value.
pub fn compute_z<S: Stream<u64>>(
    witness: &mut S,
    params: &Parameters,
    ring: &Ring,
    challenges: &Vec<PChal>,
    z: &mut PVec,
) -> (ok: bool)
    requires
        prover_params(*params),
        params.decomp_witness,
        commit_inputs(*params, old(witness).contents()),
        cyclotomic_ring(*ring, *params),
        challenges@.len() == pow2(params.r as nat),
        forall|i: int, j: int| 0 <= i < challenges@.len() && 0 <= j < challenges@[i].coeffs@.len()
            ==> entry_exp(#[trigger] challenges@[i].coeffs@[j]) < params.d,
        old(z).wf() && old(z).len == pow2(params.m as nat) * params.delta && old(z).d == params.d,
        forall|k: int| 0 <= k < old(z).vec@.len() ==> #[trigger] old(z).vec@[k] == 0,
    ensures
        final(witness).contents() == old(witness).contents(),
        final(z).wf() && final(z).len == old(z).len && final(z).d == old(z).d,
        exists|ss: Seq<PVec>|
            {
                &&& ss.len() == pow2(params.r as nat)
                &&& forall|i: int| 0 <= i < ss.len() ==> #[trigger] chunk_committed(ss[i], *params, old(witness).contents(), i)
                &&& forall|e: int, t: int| 0 <= e < final(z).len && 0 <= t < params.d ==> #[trigger] final(z).coeff(e, t)
                    == zfold(ss, challenges@, e, t, params.d as int, pow2(params.r as nat))
            },
        ok == within_bound(final(z).vec@, params.z_bound as int),
{
    let ghost p = *params;
    let ghost f = witness.contents();
    proof {
        lemma_small_constants(p);
        vstd::arithmetic::power2::lemma2_to64();
        if p.m < p.r {
            vstd::arithmetic::power2::lemma_pow2_strictly_increases(p.m as nat, p.r as nat);
        }
        vstd::bits::lemma_u64_shl_is_mul(1, params.r as u64);
        vstd::bits::lemma_u64_shl_is_mul(1, params.m as u64);
        vstd::arithmetic::power2::lemma_pow2_adds(p.r as nat, p.m as nat);
        vstd::arithmetic::power2::lemma_pow2_adds((p.r + p.m) as nat, 10);
        let (a, b, c) = (pow2(p.r as nat), pow2(p.m as nat), pow2(10));
        assert(a * (b * c) == (a * b) * c) by (nonlinear_arith);
        assert(b * p.d <= p.n * p.width_a * p.d) by (nonlinear_arith)
            requires
                p.width_a == b * 8,
                p.n == 1,
        ;
        assert(b * 8 * p.d <= p.n * p.width_a * p.d) by (nonlinear_arith)
            requires
                p.width_a == b * 8,
                p.n == 1,
        ;
        assert forall|e: int, t: int| 0 <= e < z.len && 0 <= t < p.d implies #[trigger] z.coeff(e, t) == 0 by {
            crate::arithmetic::poly_vec::lemma_flat(e, t, p.d as int, z.len as int);
        }
    }
    witness.reset();
    let pow_r = (1u64 << (params.r as u64)) as usize;
    let pow_m = (1u64 << (params.m as u64)) as usize;
    let chunk_len = pow_m * params.d;
    let mut f_i = PVec::zero(pow_m, params.d);
    let mut s_i = PVec::zero(pow_m * params.delta, params.d);
    let ghost mut ss: Seq<PVec> = Seq::empty();
    let mut i: usize = 0;
    while i < pow_r
        invariant
            0 <= i <= pow_r,
            *params == p,
            prover_params(p),
            p.decomp_witness,
            commit_inputs(p, f),
            cyclotomic_ring(*ring, p),
            is_pow2(p.b as nat),
            pow(p.b as int, 8) == 0x1_0000_0000,
            pow_r == pow2(p.r as nat),
            pow_m == pow2(p.m as nat),
            chunk_len == pow_m * p.d,
            pow_r * chunk_len == pow2(p.l as nat),
            challenges@.len() == pow_r,
            forall|i: int, j: int| 0 <= i < challenges@.len() && 0 <= j < challenges@[i].coeffs@.len()
                ==> entry_exp(#[trigger] challenges@[i].coeffs@[j]) < p.d,
            witness.contents() == f,
            witness.position() == i * chunk_len,
            f_i.wf() && f_i.len == pow_m && f_i.d == p.d,
            s_i.wf() && s_i.len == pow_m * p.delta && s_i.d == p.d,
            z.wf() && z.len == pow_m * p.delta && z.d == p.d,
            ss.len() == i,
            forall|i2: int| 0 <= i2 < i ==> #[trigger] chunk_committed(ss[i2], p, f, i2),
            forall|e: int, t: int| 0 <= e < z.len && 0 <= t < p.d ==> #[trigger] z.coeff(e, t)
                == zfold(ss, challenges@, e, t, p.d as int, i as nat),
        decreases pow_r - i,
    {
        assert(i * chunk_len + chunk_len <= pow_r * chunk_len) by (nonlinear_arith)
            requires
                i + 1 <= pow_r,
        ;
        witness.read(f_i.mut_slice());
        proof {
            assert((i + 1) * chunk_len == i * chunk_len + chunk_len) by (nonlinear_arith);
            assert(f_i.vec@ == chunk(p, f, i as int));
            assert forall|k: int| 0 <= k < f_i.vec@.len() implies #[trigger] f_i.vec@[k] < p.q by {
                assert(f_i.vec@[k] == f[i * chunk_len + k]);
            }
        }
        f_i.b_decomp_zq(params.q, params.b, params.delta, &mut s_i);
        let ghost z_before = *z;
        proof {
            assert forall|j: int| 0 <= j < challenges@[i as int].coeffs@.len() implies entry_exp(
                #[trigger] challenges@[i as int].coeffs@[j],
            ) < ring.input_dim by {
                assert(entry_exp(challenges@[i as int].coeffs@[j]) < p.d);
            }
        }
        ring.chal_mul_poly_vec(&challenges[i], &s_i, z, 0);
        proof {
            assert(chunk_committed(s_i, p, f, i as int));
            let ss2 = ss.push(s_i);
            assert forall|e: int, t: int| 0 <= e < z.len && 0 <= t < p.d implies #[trigger] z.coeff(e, t)
                == zfold(ss2, challenges@, e, t, p.d as int, (i + 1) as nat) by {
                lemma_zfold_prefix(ss, s_i, challenges@, e, t, p.d as int, i as nat);
                assert(z.coeff(0 + e, t) as int == (z_before.coeff(0 + e, t) + sparse_sum(challenges@[i as int].coeffs@,
                    s_i.elem(e), t, p.d as int, true, challenges@[i as int].coeffs@.len())) % two64());
            }
            assert forall|i2: int| 0 <= i2 < i + 1 implies #[trigger] chunk_committed(ss2[i2], p, f, i2) by {
                if i2 < i {
                    assert(ss2[i2] == ss[i2]);
                }
            }
            ss = ss2;
        }
        i = i + 1;
    }
    // the norm of z
    let bound = params.z_bound as i64;
    let mut ok = true;
    let mut k: usize = 0;
    while k < z.vec.len()
        invariant
            0 <= k <= z.vec@.len(),
            bound == p.z_bound,
            p.z_bound < 0x8000_0000,
            ok == (forall|k2: int| 0 <= k2 < k ==> -bound <= #[trigger] signed(z.vec@[k2]) <= bound),
        decreases z.vec@.len() - k,
    {
        let x = z.vec[k];
        let sx = #[verifier::truncate] (x as i64);
        proof {
            assert(sx as int == signed(x)) by (bit_vector)
                requires
                    sx == #[verifier::truncate] (x as i64),
            ;
        }
        if sx < -bound || sx > bound {
            ok = false;
        }
        k = k + 1;
    }
    proof {
        assert(forall|i: int| 0 <= i < ss.len() ==> #[trigger] chunk_committed(ss[i], p, f, i));
    }
    ok
}

/// Coefficient `tt` of row `row` of `sum_{i < k} c_i t_i` over `Z_q[X]`, reduced modulo `q`
/// after every term; row `row` of `t_i` is element `i n + row` of `t`.
pub open spec fn cfold(chals: Seq<PChal>, t: PVec, n: int, row: int, tt: int, d: int, q: int, k: nat) -> int
    decreases k,
{
    if k == 0 {
        0
    } else {
        (cfold(chals, t, n, row, tt, d, q, (k - 1) as nat) + sparse_sum(
            chals[k - 1].coeffs@,
            t.elem((k - 1) * n + row),
            tt,
            d,
            false,
            chals[k - 1].coeffs@.len(),
        )) % q
    }
}

/// `sum_i c_i t_i` computed over `Z_q[X]` and split by `X^d + 1` into `quo` and `rem`.
pub fn lift_c_i_t_i(params: &Parameters, ring: &Ring, challenges: &Vec<PChal>, t: &PVec, quo: &mut PVec, rem: &mut PVec)
    requires
        prover_params(*params),
        full_ring(*ring, *params),
        challenges@.len() == pow2(params.r as nat),
        forall|i: int, j: int| 0 <= i < challenges@.len() && 0 <= j < challenges@[i].coeffs@.len()
            ==> entry_exp(#[trigger] challenges@[i].coeffs@[j]) < params.d,
        t.wf() && t.len == params.n * pow2(params.r as nat) && t.d == params.d,
        forall|k: int| 0 <= k < t.vec@.len() ==> #[trigger] t.vec@[k] < params.q,
        old(quo).wf() && old(quo).len == params.n && old(quo).d == params.d,
        old(rem).wf() && old(rem).len == params.n && old(rem).d == params.d,
    ensures
        final(quo).wf() && final(quo).len == params.n && final(quo).d == params.d,
        final(rem).wf() && final(rem).len == params.n && final(rem).d == params.d,
        forall|row: int, j: int| 0 <= row < params.n && 0 <= j < params.d ==> #[trigger] final(quo).coeff(row, j)
            == cfold(challenges@, *t, params.n as int, row, j + params.d, params.d as int, params.q as int, pow2(params.r as nat)),
        forall|row: int, j: int| 0 <= row < params.n && 0 <= j < params.d ==> #[trigger] final(rem).coeff(row, j)
            == cdiv_rem(
                cfold(challenges@, *t, params.n as int, row, j, params.d as int, params.q as int, pow2(params.r as nat)) as u64,
                cfold(challenges@, *t, params.n as int, row, j + params.d, params.d as int, params.q as int, pow2(params.r as nat)) as u64,
                params.q,
            ),
{
    let ghost p = *params;
    let ghost n = p.n as int;
    let ghost d = p.d as int;
    let ghost q = p.q as int;
    proof {
        lemma_small_constants(p);
        vstd::arithmetic::power2::lemma2_to64();
        vstd::bits::lemma_u64_shl_is_mul(1, params.r as u64);
    }
    let pow_r = (1u64 << (params.r as u64)) as usize;
    let mut prod_full = PVec::zero(params.n, 2 * params.d);
    proof {
        assert forall|row: int, tt: int| 0 <= row < n && 0 <= tt < 2 * d implies #[trigger] prod_full.coeff(row, tt)
            == cfold(challenges@, *t, n, row, tt, d, q, 0) by {
            crate::arithmetic::poly_vec::lemma_flat(row, tt, 2 * d, n);
        }
    }
    let mut i: usize = 0;
    while i < pow_r
        invariant
            0 <= i <= pow_r,
            *params == p,
            n == p.n && d == p.d && q == p.q,
            prover_params(p),
            full_ring(*ring, p),
            pow_r == pow2(p.r as nat),
            challenges@.len() == pow_r,
            forall|i: int, j: int| 0 <= i < challenges@.len() && 0 <= j < challenges@[i].coeffs@.len()
                ==> entry_exp(#[trigger] challenges@[i].coeffs@[j]) < p.d,
            t.wf() && t.len == p.n * pow_r && t.d == p.d,
            forall|k: int| 0 <= k < t.vec@.len() ==> #[trigger] t.vec@[k] < p.q,
            prod_full.wf() && prod_full.len == p.n && prod_full.d == 2 * p.d,
            forall|row: int, tt: int| 0 <= row < n && 0 <= tt < 2 * d ==> #[trigger] prod_full.coeff(row, tt)
                == cfold(challenges@, *t, n, row, tt, d, q, i as nat),
        decreases pow_r - i,
    {
        let mut j: usize = 0;
        while j < params.n
            invariant
                0 <= i < pow_r,
                0 <= j <= p.n,
                *params == p,
                n == p.n && d == p.d && q == p.q,
                prover_params(p),
                full_ring(*ring, p),
                pow_r == pow2(p.r as nat),
                challenges@.len() == pow_r,
                forall|i: int, j: int| 0 <= i < challenges@.len() && 0 <= j < challenges@[i].coeffs@.len()
                    ==> entry_exp(#[trigger] challenges@[i].coeffs@[j]) < p.d,
                t.wf() && t.len == p.n * pow_r && t.d == p.d,
                forall|k: int| 0 <= k < t.vec@.len() ==> #[trigger] t.vec@[k] < p.q,
                prod_full.wf() && prod_full.len == p.n && prod_full.d == 2 * p.d,
                forall|row: int, tt: int| 0 <= row < j && 0 <= tt < 2 * d ==> #[trigger] prod_full.coeff(row, tt)
                    == cfold(challenges@, *t, n, row, tt, d, q, (i + 1) as nat),
                forall|row: int, tt: int| j <= row < n && 0 <= tt < 2 * d ==> #[trigger] prod_full.coeff(row, tt)
                    == cfold(challenges@, *t, n, row, tt, d, q, i as nat),
            decreases p.n - j,
        {
            let ghost before = prod_full;
            proof {
                assert(i * n + j < n * pow_r) by (nonlinear_arith)
                    requires
                        i < pow_r,
                        j < n,
                        n == 1,
                ;
                crate::arithmetic::poly_vec::lemma_flat(i * n + j, 0, d, t.len as int);
                crate::arithmetic::poly_vec::lemma_flat(j as int, 0, 2 * d, n);
                assert forall|k: int| 0 <= k < t.elem(i * n + j).len() implies #[trigger] t.elem(i * n + j)[k] < q by {
                    crate::arithmetic::poly_vec::lemma_flat(i * n + j, k, d, t.len as int);
                }
                assert forall|j2: int| 0 <= j2 < challenges@[i as int].coeffs@.len() implies entry_exp(
                    #[trigger] challenges@[i as int].coeffs@[j2],
                ) < ring.input_dim by {
                    assert(entry_exp(challenges@[i as int].coeffs@[j2]) < p.d);
                }
                assert forall|k: int| 0 <= k < prod_full.elem(j as int).len() implies #[trigger] prod_full.elem(j as int)[k] < q by {
                    crate::arithmetic::poly_vec::lemma_flat(j as int, k, 2 * d, n);
                    vstd::arithmetic::div_mod::lemma_mod_bound(
                        cfold(challenges@, *t, n, j as int, k, d, q, (i as nat - 1) as nat) + 0, q);
                    if i > 0 {
                        let kk = (i - 1) as nat;
                        vstd::arithmetic::div_mod::lemma_mod_bound(cfold(challenges@, *t, n, j as int, k, d, q, kk)
                            + sparse_sum(challenges@[kk as int].coeffs@, t.elem(kk * n + j), k, d, false,
                            challenges@[kk as int].coeffs@.len()), q);
                    }
                    assert(prod_full.coeff(j as int, k) == cfold(challenges@, *t, n, j as int, k, d, q, i as nat));
                }
            }
            let src = t.element(i * params.n + j);
            let out = prod_full.mut_element(j);
            let ghost out0 = out@;
            ring.chal_mul_poly(&challenges[i], src, out);
            proof {
                crate::arithmetic::poly_vec::lemma_replace_elem(before.vec@, prod_full.vec@, out@, j as int, 2 * d, n);
                assert forall|row: int, tt: int| 0 <= row < j + 1 && 0 <= tt < 2 * d implies #[trigger] prod_full.coeff(row, tt)
                    == cfold(challenges@, *t, n, row, tt, d, q, (i + 1) as nat) by {
                    if row < j {
                        assert(prod_full.coeff(row, tt) == before.coeff(row, tt));
                    } else {
                        assert(prod_full.coeff(row, tt) == out@[tt]);
                        assert(out0[tt] == before.coeff(row, tt));
                        assert(src@ == t.elem(i * n + row));
                        assert(out@[tt] as int == (out0[tt] + sparse_sum(challenges@[i as int].coeffs@, src@, tt, d, false,
                            challenges@[i as int].coeffs@.len())) % q);
                    }
                }
                assert forall|row: int, tt: int| j + 1 <= row < n && 0 <= tt < 2 * d implies #[trigger] prod_full.coeff(row, tt)
                    == cfold(challenges@, *t, n, row, tt, d, q, i as nat) by {
                    assert(prod_full.coeff(row, tt) == before.coeff(row, tt));
                }
            }
            j = j + 1;
        }
        i = i + 1;
    }
    prod_full.cyclotomic_div(params.q, quo, rem);
    proof {
        assert forall|row: int, j: int| 0 <= row < n && 0 <= j < d implies #[trigger] rem.coeff(row, j)
            == cdiv_rem(cfold(challenges@, *t, n, row, j, d, q, pow_r as nat) as u64,
                cfold(challenges@, *t, n, row, j + d, d, q, pow_r as nat) as u64, p.q) by {
            assert(prod_full.coeff(row, j) == cfold(challenges@, *t, n, row, j, d, q, pow_r as nat));
            assert(prod_full.coeff(row, j + d) == cfold(challenges@, *t, n, row, j + d, d, q, pow_r as nat));
        }
        assert forall|row: int, j: int| 0 <= row < n && 0 <= j < d implies #[trigger] quo.coeff(row, j)
            == cfold(challenges@, *t, n, row, j + d, d, q, pow_r as nat) by {
            assert(prod_full.coeff(row, j + d) == cfold(challenges@, *t, n, row, j + d, d, q, pow_r as nat));
        }
    }
}

} // verus!
