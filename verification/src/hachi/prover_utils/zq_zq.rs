//! Prover steps on the witness over `Z_q`: the reduction of the evaluation claim to the ring
//! element `Y` together with the first message `w` (one pass over the witness), and the
//! assembly of the next witness `(z', r)` of the ring-switched relation.
//!
//! Coefficient `p` of the witness is read as `p = i 2^{m + 10} + j d + c`: chunk `i` (paired
//! with `x[0..r]`), ring element `j` of the chunk (paired with `x[r..r+m]`) and coefficient `c`.

use vstd::prelude::*;
use vstd::arithmetic::power::pow;
use vstd::arithmetic::power2::pow2;
use crate::arithmetic::poly_vec::{PVec, digit_col, col_ok};
use crate::arithmetic::ring::{Ring, int_dot};
use crate::arithmetic::utils::{
    Logarithm, multi_lin_coeff_int, spec_multi_lin_coeff, is_balanced_digit, digits_value, window_rep, ceil_log2,
    lemma_ceil_log2_unique, is_pow2, pow2_usize, exp2_of,
};
use crate::hachi::common::{a_coef, m_mu, m_rows};
use crate::hachi::verify::next_num_vars;
use crate::hachi::commit::{chunk, commit_inputs, residue_witness};
use crate::hachi::prover_utils::rq::{prover_params, cyclotomic_ring};
use crate::hachi::setup::Parameters;
use crate::stream::Stream;

verus! {

/// Coefficient `t` of `w_i = sum_{j < n} a_j f_{i,j}` over the integers.
pub open spec fn chunk_dot(p: Parameters, x: Seq<u64>, f: Seq<u64>, i: int, t: int, n: nat) -> int
    decreases n,
{
    if n == 0 {
        0
    } else {
        chunk_dot(p, x, f, i, t, (n - 1) as nat) + a_coef(p, x, n - 1) * chunk(p, f, i)[(n - 1) * p.d + t]
    }
}

/// Coefficient `t` of `Y` after the first `i` chunks and the first `j` elements of chunk `i`:
/// every element `f_{i,j}` is multiplied by the monomial `b_i a_j` of `x[0..r+m]` at index
/// `i + j 2^r`, and the sum is reduced modulo `q` after every term.
pub open spec fn y_acc(p: Parameters, x: Seq<u64>, f: Seq<u64>, t: int, i: nat, j: nat) -> int
    decreases i, j,
{
    if j > 0 {
        let jj = j - 1;
        (y_acc(p, x, f, t, i, (j - 1) as nat) + spec_multi_lin_coeff(
            x.subrange(0, (p.r + p.m) as int),
            (i + jj * pow2(p.r as nat)) as nat,
            (p.r + p.m) as nat,
            p.q as int,
        ) * chunk(p, f, i as int)[jj * p.d + t]) % (p.q as int)
    } else if i > 0 {
        y_acc(p, x, f, t, (i - 1) as nat, pow2(p.m as nat))
    } else {
        0
    }
}

proof fn lemma_chunk_dot(p: Parameters, x: Seq<u64>, f: Seq<u64>, i: int, t: int, a: Seq<u64>, fi: PVec, n: nat)
    requires
        n <= a.len(),
        forall|j: int| 0 <= j < a.len() ==> #[trigger] a[j] == a_coef(p, x, j),
        fi.vec@ == chunk(p, f, i),
        fi.d == p.d,
    ensures
        int_dot(a, fi, t, n) == chunk_dot(p, x, f, i, t, n),
    decreases n,
{
    if n > 0 {
        lemma_chunk_dot(p, x, f, i, t, a, fi, (n - 1) as nat);
    }
}

/// Reduce the evaluation claim at `x` to `Y = sum_{i,j} b_i a_j f_{i,j}` in `y` (one element) and
/// compute the first message `w_i = sum_j a_j f_{i,j}` in `w` (`2^r` elements), in one pass
/// over the witness; `y` and `w` are zero on entry, and all their coefficients are residues.
pub fn compute_y_and_w<S: Stream<u64>>(witness: &mut S, params: &Parameters, x: &[u64], ring: &Ring, y: &mut PVec, w: &mut PVec)
    requires
        prover_params(*params),
        commit_inputs(*params, old(witness).contents()),
        residue_witness(*params, old(witness).contents()),
        pow2(params.l as nat) <= usize::MAX,
        cyclotomic_ring(*ring, *params),
        x@.len() >= params.r + params.m,
        forall|t: int| 0 <= t < params.r + params.m ==> #[trigger] x@[t] < params.q,
        old(y).wf() && old(y).len == 1 && old(y).d == params.d,
        old(w).wf() && old(w).len == pow2(params.r as nat) && old(w).d == params.d,
        forall|k: int| 0 <= k < old(y).vec@.len() ==> #[trigger] old(y).vec@[k] == 0,
        forall|k: int| 0 <= k < old(w).vec@.len() ==> #[trigger] old(w).vec@[k] == 0,
    ensures
        final(witness).contents() == old(witness).contents(),
        final(y).wf() && final(y).len == 1 && final(y).d == params.d,
        final(w).wf() && final(w).len == pow2(params.r as nat) && final(w).d == params.d,
        forall|t: int| 0 <= t < params.d ==> #[trigger] final(y).coeff(0, t)
            == y_acc(*params, x@, old(witness).contents(), t, pow2(params.r as nat), 0),
        forall|i: int, t: int| 0 <= i < pow2(params.r as nat) && 0 <= t < params.d ==> #[trigger] final(w).coeff(i, t)
            == chunk_dot(*params, x@, old(witness).contents(), i, t, pow2(params.m as nat)) % (params.q as int),
{
    let ghost p = *params;
    let ghost f = witness.contents();
    proof {
        vstd::arithmetic::power2::lemma2_to64();
        if p.m < p.r {
            vstd::arithmetic::power2::lemma_pow2_strictly_increases(p.m as nat, p.r as nat);
        }
        vstd::arithmetic::power2::lemma_pow2_adds(p.r as nat, p.m as nat);
        vstd::arithmetic::power2::lemma_pow2_adds((p.r + p.m) as nat, 10);
        let (a, b, c) = (pow2(p.r as nat), pow2(p.m as nat), pow2(10));
        assert(a * (b * c) == (a * b) * c) by (nonlinear_arith);
        vstd::arithmetic::power2::lemma_pow2_pos(p.r as nat);
        vstd::arithmetic::power2::lemma_pow2_pos(p.m as nat);
        assert(a * b <= (a * b) * c) by (nonlinear_arith)
            requires
                c == 1024,
                a * b >= 0,
        ;
        assert(b * c <= a * (b * c)) by (nonlinear_arith)
            requires
                a >= 1,
                b * c >= 0,
        ;
        assert(b <= a);
        if p.l > 64 {
            vstd::arithmetic::power2::lemma_pow2_strictly_increases(64, p.l as nat);
        }
        assert(p.l < 64);
        assert(10 < 64 && p.d == pow2(10));
    }
    witness.reset();
    let pow_r = pow2_usize(params.r);
    let pow_m = pow2_usize(params.m);
    let chunk_len = pow_m * params.d;
    let mut f_i = PVec::zero(pow_m, params.d);
    let mut a: Vec<u64> = Vec::with_capacity(pow_m);
    let xm = vstd::slice::slice_subrange(x, params.r, params.r + params.m);
    let mut j: usize = 0;
    while j < pow_m
        invariant
            0 <= j <= pow_m,
            *params == p,
            prover_params(p),
            pow_m == pow2(p.m as nat),
            x@.len() >= p.r + p.m,
            forall|t: int| 0 <= t < p.r + p.m ==> #[trigger] x@[t] < p.q,
            xm@ == x@.subrange(p.r as int, (p.r + p.m) as int),
            a@.len() == j,
            forall|t: int| 0 <= t < j ==> #[trigger] a@[t] == a_coef(p, x@, t),
        decreases pow_m - j,
    {
        a.push(multi_lin_coeff_int(xm, j, params.m, params.q));
        j = j + 1;
    }
    let xs = vstd::slice::slice_subrange(x, 0, params.r + params.m);
    proof {
        assert forall|i: int, t: int| 0 <= i < w.len && 0 <= t < p.d implies #[trigger] w.coeff(i, t) == 0 by {
            crate::arithmetic::poly_vec::lemma_flat(i, t, p.d as int, w.len as int);
        }
        assert forall|t: int| 0 <= t < p.d implies #[trigger] y.coeff(0, t) == y_acc(p, x@, f, t, 0, 0) by {
            crate::arithmetic::poly_vec::lemma_flat(0, t, p.d as int, 1);
        }
    }
    let mut i: usize = 0;
    while i < pow_r
        invariant
            0 <= i <= pow_r,
            *params == p,
            prover_params(p),
            commit_inputs(p, f),
            residue_witness(p, f),
            cyclotomic_ring(*ring, p),
            p.d == pow2(10),
            pow_r == pow2(p.r as nat),
            pow_m == pow2(p.m as nat),
            pow_r * pow_m <= usize::MAX,
            p.r + p.m <= 64,
            chunk_len == pow_m * p.d,
            pow_r * chunk_len == pow2(p.l as nat),
            x@.len() >= p.r + p.m,
            forall|t: int| 0 <= t < p.r + p.m ==> #[trigger] x@[t] < p.q,
            xs@ == x@.subrange(0, (p.r + p.m) as int),
            a@.len() == pow_m,
            forall|t: int| 0 <= t < pow_m ==> #[trigger] a@[t] == a_coef(p, x@, t),
            witness.contents() == f,
            witness.position() == i * chunk_len,
            f_i.wf() && f_i.len == pow_m && f_i.d == p.d,
            y.wf() && y.len == 1 && y.d == p.d,
            w.wf() && w.len == pow_r && w.d == p.d,
            forall|t: int| 0 <= t < p.d ==> #[trigger] y.coeff(0, t) == y_acc(p, x@, f, t, i as nat, 0),
            forall|i2: int, t: int| 0 <= i2 < i && 0 <= t < p.d ==> #[trigger] w.coeff(i2, t)
                == chunk_dot(p, x@, f, i2, t, pow_m as nat) % (p.q as int),
            forall|i2: int, t: int| i <= i2 < pow_r && 0 <= t < p.d ==> #[trigger] w.coeff(i2, t) == 0,
        decreases pow_r - i,
    {
        assert(i * chunk_len + chunk_len <= pow_r * chunk_len) by (nonlinear_arith)
            requires
                i + 1 <= pow_r,
        ;
        witness.read(f_i.mut_slice());
        proof {
            assert((i + 1) * chunk_len == i * chunk_len + chunk_len) by (nonlinear_arith);
            assert(f_i.vec@ == chunk(p, f, i as int));
        }
        let ghost w_before = *w;
        ring.int_vec_mul_poly_vec(&a, &f_i, w, i);
        proof {
            assert forall|i2: int, t: int| 0 <= i2 < i + 1 && 0 <= t < p.d implies #[trigger] w.coeff(i2, t)
                == chunk_dot(p, x@, f, i2, t, pow_m as nat) % (p.q as int) by {
                if i2 == i {
                    lemma_chunk_dot(p, x@, f, i as int, t, a@, f_i, pow_m as nat);
                }
            }
        }
        let mut j: usize = 0;
        while j < pow_m
            invariant
                0 <= j <= pow_m,
                0 <= i < pow_r,
                *params == p,
                prover_params(p),
                cyclotomic_ring(*ring, p),
                pow_r == pow2(p.r as nat),
                pow_m == pow2(p.m as nat),
                pow_r * pow_m <= usize::MAX,
                p.r + p.m <= 64,
                x@.len() >= p.r + p.m,
                forall|t: int| 0 <= t < p.r + p.m ==> #[trigger] x@[t] < p.q,
                xs@ == x@.subrange(0, (p.r + p.m) as int),
                f_i.wf() && f_i.len == pow_m && f_i.d == p.d,
                f_i.vec@ == chunk(p, f, i as int),
                y.wf() && y.len == 1 && y.d == p.d,
                forall|t: int| 0 <= t < p.d ==> #[trigger] y.coeff(0, t) == y_acc(p, x@, f, t, i as nat, j as nat),
            decreases pow_m - j,
        {
            assert(i + j * pow_r < pow_r * pow_m) by (nonlinear_arith)
                requires
                    i < pow_r,
                    j < pow_m,
            ;
            let coeff = multi_lin_coeff_int(xs, i + j * pow_r, params.r + params.m, params.q);
            let ghost y_before = *y;
            let src = f_i.element(j);
            let out = y.mut_element(0);
            let ghost out0 = out@;
            ring.int_mul_poly(coeff, src, out);
            proof {
                crate::arithmetic::poly_vec::lemma_flat(0, 0, p.d as int, 1);
                crate::arithmetic::poly_vec::lemma_replace_elem(y_before.vec@, y.vec@, out@, 0, p.d as int, 1);
                assert forall|t: int| 0 <= t < p.d implies #[trigger] y.coeff(0, t) == y_acc(p, x@, f, t, i as nat, (j + 1) as nat) by {
                    crate::arithmetic::poly_vec::lemma_flat(j as int, t, p.d as int, pow_m as int);
                    assert(out0[t] == y_before.coeff(0, t));
                    assert(src@[t] == f_i.vec@[j * p.d + t]);
                    assert(y.coeff(0, t) == out@[t]);
                }
            }
            j = j + 1;
        }
        i = i + 1;
    }
}

/// `dig` holds, element after element, the `delta` balanced digits of every residue of the first
/// `len` elements of `src`, which recompose to its representative in the window.
pub open spec fn zq_digits(dig: Seq<u64>, src: Seq<u64>, len: nat, p: Parameters) -> bool {
    &&& dig.len() == len * p.delta * p.d
    &&& forall|i: int, j: int|
        0 <= i < len && 0 <= j < p.d ==> {
            let s = #[trigger] digit_col(dig, i, j, p.d as int, p.delta as int);
            &&& forall|k: int| 0 <= k < p.delta ==> is_balanced_digit(#[trigger] s[k], p.b as int)
            &&& digits_value(s, p.b as int) == window_rep(src[i * p.d + j] as int, p.q as int, p.b as int, p.delta as nat)
        }
}

/// `dig` holds the `tau` balanced digits of every short (wrapping-signed) coefficient of the
/// first `len` elements of `src`.
pub open spec fn short_digits(dig: Seq<u64>, src: Seq<u64>, len: nat, p: Parameters) -> bool {
    &&& dig.len() == len * p.delta_z * p.d
    &&& forall|i: int, j: int|
        0 <= i < len && 0 <= j < p.d ==> #[trigger] col_ok(dig, i, j, p.d as int, p.delta_z as int, p.b as int, src[i * p.d + j])
}

/// `a - b mod q` for residues `a`, `b`.
pub open spec fn quo_diff(a: u64, b: u64, q: u64) -> u64 {
    if a >= b {
        (a - b) as u64
    } else {
        (a - b + q) as u64
    }
}

/// The quotient of the rows `sum_i c_i t_i - A z`: the difference of the two quotients modulo `q`.
pub open spec fn quo_seq(p: Parameters, c_i_t_i_quo: PVec, mat_a_z_quo: PVec) -> Seq<u64> {
    Seq::new((p.n * p.d) as nat, |k: int| quo_diff(c_i_t_i_quo.vec@[k], mat_a_z_quo.vec@[k], p.q))
}

/// `wit` is the next witness `(z', r)`: the digits of `w`, the digits of `t`, the digits of `z`,
/// then the digits of the quotients of the rows `v = D w_hat`, `u = B t_hat`, a zero row for `Y`,
/// the row of `sum_i c_i w_i` and the rows of `sum_i c_i t_i - A z`, and zeros up to `2^nv`.
pub open spec fn next_witness_ok(
    wit: Seq<u64>,
    nv: nat,
    p: Parameters,
    w_hat: PVec,
    t_hat: PVec,
    z: PVec,
    v_quo: PVec,
    u_quo: PVec,
    c_i_w_i_quo: PVec,
    c_i_t_i_quo: PVec,
    mat_a_z_quo: PVec,
) -> bool {
    exists|zh: Seq<u64>, vh: Seq<u64>, uh: Seq<u64>, ch: Seq<u64>, qh: Seq<u64>|
        #![trigger short_digits(zh, z.vec@, z.len as nat, p), zq_digits(vh, v_quo.vec@, p.n as nat, p), zq_digits(uh, u_quo.vec@, p.n as nat, p), zq_digits(ch, c_i_w_i_quo.vec@, 1, p), zq_digits(qh, quo_seq(p, c_i_t_i_quo, mat_a_z_quo), p.n as nat, p)]
        {
            &&& short_digits(zh, z.vec@, z.len as nat, p)
            &&& zq_digits(vh, v_quo.vec@, p.n as nat, p)
            &&& zq_digits(uh, u_quo.vec@, p.n as nat, p)
            &&& zq_digits(ch, c_i_w_i_quo.vec@, 1, p)
            &&& zq_digits(qh, quo_seq(p, c_i_t_i_quo, mat_a_z_quo), p.n as nat, p)
            &&& wit.len() == pow2(nv)
            &&& wit == w_hat.vec@ + t_hat.vec@ + zh + vh + uh + Seq::new((p.d * p.delta) as nat, |k: int| 0u64) + ch + qh
                + Seq::new((pow2(nv) - (m_mu(p) + m_rows(p) * p.delta) * p.d) as nat, |k: int| 0u64)
        }
}

fn append_all(dst: &mut Vec<u64>, src: &[u64])
    requires
        old(dst)@.len() + src@.len() <= usize::MAX,
    ensures
        final(dst)@ == old(dst)@ + src@,
{
    let ghost d0 = dst@;
    let mut i: usize = 0;
    while i < src.len()
        invariant
            0 <= i <= src@.len(),
            dst@ == d0 + src@.take(i as int),
        decreases src@.len() - i,
    {
        dst.push(src[i]);
        i = i + 1;
    }
    assert(src@.take(src@.len() as int) =~= src@);
}

fn append_zeros(dst: &mut Vec<u64>, n: usize)
    ensures
        final(dst)@ == old(dst)@ + Seq::new(n as nat, |k: int| 0u64),
{
    let ghost d0 = dst@;
    let mut i: usize = 0;
    while i < n
        invariant
            0 <= i <= n,
            dst@ == d0 + Seq::new(i as nat, |k: int| 0u64),
        decreases n - i,
    {
        dst.push(0);
        i = i + 1;
        assert(dst@ =~= d0 + Seq::new(i as nat, |k: int| 0u64));
    }
}

proof fn lemma_base16(b: u64)
    requires
        b == 16,
    ensures
        is_pow2(b as nat),
        exp2_of(b as nat) == 4,
        pow(b as int, 8) == 0x1_0000_0000,
{
    vstd::arithmetic::power2::lemma2_to64();
    assert(4 < 64 && b == pow2(4));
    crate::arithmetic::utils::lemma_log_of_pow2(b as nat, 4);
    reveal_with_fuel(pow, 9);
}

/// Assemble the next witness `(z', r)` of the ring-switched relation (see [`next_witness_ok`]):
/// returns the number `nv` of its variables, the width `mu` of `M'` in ring elements, the number
/// `3n + 2` of rows of `M`, and the `2^nv` digits.
pub fn form_next_witness(
    params: &Parameters,
    w_hat: &PVec,
    t_hat: &PVec,
    z: &PVec,
    v_quo: &PVec,
    u_quo: &PVec,
    c_i_w_i_quo: &PVec,
    c_i_t_i_quo: &PVec,
    mat_a_z_quo: &PVec,
) -> (res: (usize, usize, usize, Vec<u64>))
    requires
        prover_params(*params),
        params.decomp_witness,
        pow2(next_num_vars(*params)) <= usize::MAX,
        w_hat.wf() && w_hat.len == pow2(params.r as nat) * params.delta && w_hat.d == params.d,
        t_hat.wf() && t_hat.len == params.n * pow2(params.r as nat) * params.delta && t_hat.d == params.d,
        z.wf() && z.len == pow2(params.m as nat) * params.delta && z.d == params.d,
        v_quo.wf() && v_quo.len == params.n && v_quo.d == params.d,
        u_quo.wf() && u_quo.len == params.n && u_quo.d == params.d,
        c_i_w_i_quo.wf() && c_i_w_i_quo.len == 1 && c_i_w_i_quo.d == params.d,
        c_i_t_i_quo.wf() && c_i_t_i_quo.len == params.n && c_i_t_i_quo.d == params.d,
        mat_a_z_quo.wf() && mat_a_z_quo.len == params.n && mat_a_z_quo.d == params.d,
        forall|k: int| 0 <= k < v_quo.vec@.len() ==> #[trigger] v_quo.vec@[k] < params.q,
        forall|k: int| 0 <= k < u_quo.vec@.len() ==> #[trigger] u_quo.vec@[k] < params.q,
        forall|k: int| 0 <= k < c_i_w_i_quo.vec@.len() ==> #[trigger] c_i_w_i_quo.vec@[k] < params.q,
        forall|k: int| 0 <= k < c_i_t_i_quo.vec@.len() ==> #[trigger] c_i_t_i_quo.vec@[k] < params.q,
        forall|k: int| 0 <= k < mat_a_z_quo.vec@.len() ==> #[trigger] mat_a_z_quo.vec@[k] < params.q,
    ensures
        res.0 == next_num_vars(*params),
        res.1 == m_mu(*params),
        res.2 == m_rows(*params),
        next_witness_ok(res.3@, res.0 as nat, *params, *w_hat, *t_hat, *z, *v_quo, *u_quo, *c_i_w_i_quo, *c_i_t_i_quo, *mat_a_z_quo),
{
    let ghost p = *params;
    proof {
        lemma_base16(p.b);
        vstd::arithmetic::power2::lemma2_to64();
        assert(10 < 64 && p.d == pow2(10));
        crate::hachi::common::lemma_ceil_pow2(((m_mu(p) + m_rows(p) * p.delta) * p.d) as nat);
    }
    let mu = w_hat.length() + t_hat.length() + z.length() * params.delta_z;
    let rows = v_quo.length() + u_quo.length() + 1 + c_i_w_i_quo.length() + c_i_t_i_quo.length();
    let num_vars = ((mu + rows * params.delta) * params.d).log();
    proof {
        lemma_ceil_log2_unique(((m_mu(p) + m_rows(p) * p.delta) * p.d) as nat, num_vars as nat);
    }
    let total = pow2_usize(num_vars);
    let mut witness: Vec<u64> = Vec::with_capacity(total);
    append_all(&mut witness, w_hat.slice());
    append_all(&mut witness, t_hat.slice());
    let mut z_hat = PVec::zero(z.length() * params.delta_z, params.d);
    z.b_decomp(params.b, params.delta_z, &mut z_hat);
    append_all(&mut witness, z_hat.slice());
    let mut v_quo_hat = PVec::zero(v_quo.length() * params.delta, params.d);
    v_quo.b_decomp_zq(params.q, params.b, params.delta, &mut v_quo_hat);
    append_all(&mut witness, v_quo_hat.slice());
    let mut u_quo_hat = PVec::zero(u_quo.length() * params.delta, params.d);
    u_quo.b_decomp_zq(params.q, params.b, params.delta, &mut u_quo_hat);
    append_all(&mut witness, u_quo_hat.slice());
    // the row of Y has no quotient
    append_zeros(&mut witness, params.d * params.delta);
    let mut c_i_w_i_quo_hat = PVec::zero(c_i_w_i_quo.length() * params.delta, params.d);
    c_i_w_i_quo.b_decomp_zq(params.q, params.b, params.delta, &mut c_i_w_i_quo_hat);
    append_all(&mut witness, c_i_w_i_quo_hat.slice());
    // quotient of sum_i c_i t_i - A z
    let mut quo = PVec::zero(c_i_t_i_quo.length(), params.d);
    let ghost quo0 = quo;
    let coeffs = quo.mut_slice();
    let n_coeffs = coeffs.len();
    let mut i: usize = 0;
    while i < n_coeffs
        invariant
            0 <= i <= n_coeffs,
            n_coeffs == coeffs@.len(),
            *params == p,
            n_coeffs == p.n * p.d,
            c_i_t_i_quo.vec@.len() == p.n * p.d,
            mat_a_z_quo.vec@.len() == p.n * p.d,
            p.q < 0x8000_0000_0000_0000,
            forall|k: int| 0 <= k < c_i_t_i_quo.vec@.len() ==> #[trigger] c_i_t_i_quo.vec@[k] < p.q,
            forall|k: int| 0 <= k < mat_a_z_quo.vec@.len() ==> #[trigger] mat_a_z_quo.vec@[k] < p.q,
            forall|k: int| 0 <= k < i ==> #[trigger] coeffs@[k] == quo_seq(p, *c_i_t_i_quo, *mat_a_z_quo)[k],
            forall|k: int| 0 <= k < i ==> #[trigger] coeffs@[k] < p.q,
        decreases n_coeffs - i,
    {
        let a = c_i_t_i_quo.slice()[i];
        let b = mat_a_z_quo.slice()[i];
        let quo_coeff = if a >= b { a - b } else { params.q - (b - a) };
        coeffs[i] = quo_coeff;
        i = i + 1;
    }
    let mut quo_hat = PVec::zero(quo.length() * params.delta, params.d);
    proof {
        assert forall|k: int| 0 <= k < quo.vec@.len() implies #[trigger] quo.vec@[k] < p.q by {}
    }
    quo.b_decomp_zq(params.q, params.b, params.delta, &mut quo_hat);
    append_all(&mut witness, quo_hat.slice());
    let len = witness.len();
    append_zeros(&mut witness, total - len);
    proof {
        assert(quo.vec@ =~= quo_seq(p, *c_i_t_i_quo, *mat_a_z_quo));
        assert forall|i: int, j: int| 0 <= i < z.len && 0 <= j < p.d implies #[trigger] col_ok(z_hat.vec@, i, j,
            p.d as int, p.delta_z as int, p.b as int, z.vec@[i * p.d + j]) by {
            assert(z.coeff(i, j) == z.vec@[i * p.d + j]);
        }
        assert(short_digits(z_hat.vec@, z.vec@, z.len as nat, p));
        assert(zq_digits(v_quo_hat.vec@, v_quo.vec@, p.n as nat, p));
        assert(zq_digits(u_quo_hat.vec@, u_quo.vec@, p.n as nat, p));
        assert(zq_digits(c_i_w_i_quo_hat.vec@, c_i_w_i_quo.vec@, 1, p));
        assert(zq_digits(quo_hat.vec@, quo_seq(p, *c_i_t_i_quo, *mat_a_z_quo), p.n as nat, p));
    }
    (num_vars, mu, rows, witness)
}

} // verus!
