//! The verification matrix `M_alpha` of the ring-switched relation, evaluated at the verifier's
//! `alpha` in `F_{q^4}`: `M [z' | r] = y` with `M = [M' | -(X^d + 1) G_{3n+2}]`, where `M'` is the
//! matrix of the five verification equations acting on `z' = (w_hat, t_hat, z_hat)` and `r`
//! holds the gadget-decomposed quotients by `X^d + 1`. The table is row-major, entry
//! `(row, col)` at index `row * width + col`, zero-padded so that both dimensions are powers of
//! two. Both the prover and the verifier build it.

use vstd::prelude::*;
use vstd::arithmetic::power::pow;
use vstd::arithmetic::power2::pow2;
use crate::arithmetic::field::{Fq4, fq, lift4, scale4, neg4, add4, mul4};
use crate::arithmetic::utils::{
    Logarithm, gadget, lift_int, mul_int_field, multi_lin_coeff_int, spec_multi_lin_coeff, ceil_log2,
    lemma_ceil_log2_unique, signed, is_ceil_log2,
};
use crate::arithmetic::poly::{Poly, poly_eval};
use crate::arithmetic::poly_chal::{PChal, chal_eval, entry_exp};
use crate::arithmetic::poly_mat::PMat;
use crate::arithmetic::rng::{samples, low_mask};
use crate::arithmetic::utils::is_pow2;
use crate::hachi::setup::{Parameters, setup_ok, params_match};

verus! {

/// Number of ring elements of `z' = (w_hat, t_hat, z_hat)`, the width of `M'`.
pub open spec fn m_mu(p: Parameters) -> int {
    p.width_d + p.width_b + p.width_a * p.delta_z
}

/// Number of rows of `M'`: `n` for `v = D w_hat`, `n` for `u = B t_hat`, one for `Y`, one for
/// the folded `w`, `n` for the folded `t`.
pub open spec fn m_rows(p: Parameters) -> int {
    3 * p.n + 2
}

/// Height of the table: `m_rows` rounded up to a power of two.
pub open spec fn m_height(p: Parameters) -> nat {
    pow2(ceil_log2(m_rows(p) as nat))
}

/// Width of the table: `mu + (3n + 2) delta` rounded up to a power of two.
pub open spec fn m_width(p: Parameters) -> nat {
    pow2(ceil_log2((m_mu(p) + m_rows(p) * p.delta) as nat))
}

/// Gadget weight `b^j`.
pub open spec fn gw(p: Parameters, j: int) -> int {
    pow(p.b as int, j as nat)
}

/// `b_i`: the multilinear monomial of the chunk variables `x[0..r]` selected by `i`.
pub open spec fn b_coef(p: Parameters, x: Seq<u64>, i: int) -> int {
    spec_multi_lin_coeff(x.subrange(0, p.r as int), i as nat, p.r as nat, p.q as int)
}

/// `a_i`: the multilinear monomial of the element variables `x[r..r+m]` selected by `i`.
pub open spec fn a_coef(p: Parameters, x: Seq<u64>, i: int) -> int {
    spec_multi_lin_coeff(x.subrange(p.r as int, (p.r + p.m) as int), i as nat, p.m as nat, p.q as int)
}

/// Challenge `c_i` evaluated at `alpha`.
pub open spec fn chal_at(chals: Seq<PChal>, pows: Seq<Fq4>, i: int) -> Fq4 {
    chal_eval(chals[i].coeffs@, pows, chals[i].coeffs@.len())
}

/// The `d` coefficients of entry `(row, col)` of a row-major matrix of polynomials of width
/// `width`, held as its flat coefficient sequence.
pub open spec fn coeffs_at(m: Seq<u64>, width: int, d: int, row: int, col: int) -> Seq<u64> {
    m.subrange((row * width + col) * d, (row * width + col) * d + d)
}

/// Matrix entry `(row, col)` evaluated at `alpha`.
pub open spec fn mat_at(m: Seq<u64>, width: int, d: int, pows: Seq<Fq4>, row: int, col: int) -> Fq4 {
    poly_eval(coeffs_at(m, width, d, row, col), pows, d as nat)
}

/// `-(alpha^d + 1)`, computed as `-(alpha^{d-1} alpha + 1)`.
pub open spec fn quo_scalar(p: Parameters, pows: Seq<Fq4>) -> Fq4 {
    neg4(add4(mul4(pows[p.d - 1], pows[1]), pows[0]))
}

/// Entry `(row, col)` of the table of `M_alpha` for the commitment matrices `A`, `B`, `D`, given by
/// their flat coefficient sequences.
///
/// Columns: `[0, delta 2^r)` digits of `w`, `[delta 2^r, delta 2^r + n delta 2^r)` digits of
/// `t` (row `k` of `t_i`, digit `j` at `i n delta + k delta + j`), `[.., mu)` digits of `z`
/// (`tau` per entry), then `(3n + 2) delta` digits of the quotients (row `i` at
/// `mu + i delta + j`). Rows: `D`, `B`, `b^T G`, `c^T G | -a^T G J`, `c^T G_n | -A J`.
pub open spec fn m_entry(
    p: Parameters,
    x: Seq<u64>,
    chals: Seq<PChal>,
    pows: Seq<Fq4>,
    ma: Seq<u64>,
    mb: Seq<u64>,
    md: Seq<u64>,
    row: int,
    col: int,
) -> Fq4 {
    let n = p.n as int;
    let delta = p.delta as int;
    let dz = p.delta_z as int;
    let wd = p.width_d as int;
    let wb = p.width_b as int;
    let mu = m_mu(p);
    let zero = lift4(fq(0));
    if mu <= col < mu + m_rows(p) * delta && (col - mu) / delta == row {
        scale4(fq(gw(p, (col - mu) % delta)), quo_scalar(p, pows))
    } else if row < n {
        if col < wd {
            mat_at(md, wd, p.d as int, pows, row, col)
        } else {
            zero
        }
    } else if row < 2 * n {
        if wd <= col < wd + wb {
            mat_at(mb, wb, p.d as int, pows, row - n, col - wd)
        } else {
            zero
        }
    } else if row == 2 * n {
        if col < pow2(p.r as nat) * delta {
            lift4(fq(b_coef(p, x, col / delta) * gw(p, col % delta)))
        } else {
            zero
        }
    } else if row == 2 * n + 1 {
        if col < pow2(p.r as nat) * delta {
            scale4(fq(gw(p, col % delta)), chal_at(chals, pows, col / delta))
        } else if wd + wb <= col < wd + wb + pow2(p.m as nat) * delta * dz {
            let c = col - wd - wb;
            neg4(lift4(fq(((a_coef(p, x, c / (delta * dz)) * gw(p, (c % (delta * dz)) / dz)) % (p.q as int))
                * gw(p, c % dz))))
        } else {
            zero
        }
    } else if row < 3 * n + 2 {
        let k = row - 2 * n - 2;
        if wd <= col < wd + wb && ((col - wd) % (delta * n)) / delta == k {
            scale4(fq(gw(p, (col - wd) % delta)), chal_at(chals, pows, (col - wd) / (delta * n)))
        } else if wd + wb <= col < mu {
            let c = col - wd - wb;
            neg4(scale4(fq(gw(p, c % dz)), mat_at(ma, p.width_a as int, p.d as int, pows, k, c / dz)))
        } else {
            zero
        }
    } else {
        zero
    }
}

/// The public inputs for which the table can be built: parameters from setup with the witness
/// decomposed, an evaluation point of residues, `2^r` challenges whose exponents index the
/// powers `(1, alpha, ..., alpha^{d-1})`, and a table that fits in memory.
pub open spec fn m_alpha_inputs(p: Parameters, x: Seq<u64>, chals: Seq<PChal>, pows: Seq<Fq4>) -> bool {
    &&& setup_ok(p.l as nat)
    &&& params_match(p, p.l as nat, true)
    &&& x.len() >= p.r + p.m
    &&& forall|t: int| 0 <= t < p.r + p.m ==> #[trigger] x[t] < p.q
    &&& chals.len() == pow2(p.r as nat)
    &&& forall|i: int, t: int|
        0 <= i < chals.len() && 0 <= t < chals[i].coeffs@.len() ==> entry_exp(#[trigger] chals[i].coeffs@[t])
            < pows.len()
    &&& pows.len() == p.d
    &&& m_height(p) * m_width(p) <= usize::MAX
}

/// The commitment matrices have the shapes of the parameters.
pub open spec fn m_alpha_mats(p: Parameters, ma: PMat, mb: PMat, md: PMat) -> bool {
    &&& ma.wf() && ma.height == p.n && ma.width == p.width_a && ma.vec.d == p.d
    &&& mb.wf() && mb.height == p.n && mb.width == p.width_b && mb.vec.d == p.d
    &&& md.wf() && md.height == p.n && md.width == p.width_d && md.vec.d == p.d
}

/// The table of `M_alpha` is as [`m_entry`] says, entry by entry.
pub open spec fn is_m_alpha_table(
    t: Seq<Fq4>,
    p: Parameters,
    x: Seq<u64>,
    chals: Seq<PChal>,
    pows: Seq<Fq4>,
    ma: Seq<u64>,
    mb: Seq<u64>,
    md: Seq<u64>,
) -> bool {
    &&& t.len() == m_height(p) * m_width(p)
    &&& forall|row: int, col: int|
        0 <= row < m_height(p) && 0 <= col < m_width(p) ==> #[trigger] t[row * m_width(p) + col]
            == m_entry(p, x, chals, pows, ma, mb, md, row, col)
}

/// The table of `M_alpha` is determined by its inputs: two tables that both meet
/// [`is_m_alpha_table`] for the same parameters, point, challenges, powers and matrices are equal.
/// In particular the table built from one shared matrix is the one built from three copies of it.
pub proof fn lemma_m_alpha_table_unique(
    t1: Seq<Fq4>,
    t2: Seq<Fq4>,
    p: Parameters,
    x: Seq<u64>,
    chals: Seq<PChal>,
    pows: Seq<Fq4>,
    ma: Seq<u64>,
    mb: Seq<u64>,
    md: Seq<u64>,
)
    requires
        is_m_alpha_table(t1, p, x, chals, pows, ma, mb, md),
        is_m_alpha_table(t2, p, x, chals, pows, ma, mb, md),
    ensures
        t1 == t2,
{
    let w = m_width(p) as int;
    let h = m_height(p) as int;
    if w >= 1 {
        assert forall|k: int| 0 <= k < t1.len() implies #[trigger] t1[k] == t2[k] by {
            let row = k / w;
            let col = k % w;
            vstd::arithmetic::div_mod::lemma_fundamental_div_mod(k, w);
            assert(0 <= row < h) by (nonlinear_arith)
                requires
                    0 <= k < h * w,
                    w >= 1,
                    row == k / w,
            ;
            assert(row * w + col == k) by (nonlinear_arith)
                requires
                    k == w * (k / w) + k % w,
                    row == k / w,
                    col == k % w,
            ;
            vstd::arithmetic::div_mod::lemma_mod_bound(k, w);
        }
    } else {
        assert(t1.len() == 0) by (nonlinear_arith)
            requires
                t1.len() == h * w,
                w <= 0,
                w >= 0,
        ;
    }
    assert(t1 =~= t2);
}

proof fn lemma_pow2_ge(x: nat)
    ensures
        pow2(x) >= x,
    decreases x,
{
    if x > 0 {
        lemma_pow2_ge((x - 1) as nat);
        vstd::arithmetic::power2::lemma_pow2_unfold(x);
        vstd::arithmetic::power2::lemma_pow2_pos((x - 1) as nat);
    }
}

proof fn lemma_ceil_log2_from(x: nat, k: nat)
    requires
        x <= pow2(k),
    ensures
        is_ceil_log2(x, ceil_log2(x)),
    decreases k,
{
    if k == 0 || pow2((k - 1) as nat) < x {
        assert(is_ceil_log2(x, k));
    } else {
        lemma_ceil_log2_from(x, (k - 1) as nat);
    }
}

/// `2^ceil(log2(x))` is at least `x`, and below `2^64` it has an exponent below 64.
pub proof fn lemma_ceil_pow2(x: nat)
    ensures
        is_ceil_log2(x, ceil_log2(x)),
        pow2(ceil_log2(x)) >= x,
        pow2(ceil_log2(x)) >= 1,
        pow2(ceil_log2(x)) <= usize::MAX ==> ceil_log2(x) < 64,
{
    lemma_pow2_ge(x);
    lemma_ceil_log2_from(x, x);
    vstd::arithmetic::power2::lemma_pow2_pos(ceil_log2(x));
    if ceil_log2(x) >= 64 {
        vstd::arithmetic::power2::lemma2_to64();
        if ceil_log2(x) > 64 {
            vstd::arithmetic::power2::lemma_pow2_strictly_increases(64, ceil_log2(x));
        }
    }
}

/// The table's dimensions: at least the rows and columns of `M`, and both fit a `usize` when the
/// whole table does.
pub proof fn lemma_table_dims(p: Parameters)
    requires
        m_height(p) * m_width(p) <= usize::MAX,
        p.n >= 1,
    ensures
        m_height(p) >= m_rows(p),
        m_width(p) >= m_mu(p) + m_rows(p) * p.delta,
        m_height(p) <= usize::MAX,
        m_width(p) <= usize::MAX,
        ceil_log2(m_rows(p) as nat) < 64,
        ceil_log2((m_mu(p) + m_rows(p) * p.delta) as nat) < 64,
{
    lemma_ceil_pow2(m_rows(p) as nat);
    lemma_ceil_pow2((m_mu(p) + m_rows(p) * p.delta) as nat);
    let h = m_height(p);
    let w = m_width(p);
    assert(h <= h * w && w <= h * w) by (nonlinear_arith)
        requires
            h >= 1,
            w >= 1,
    ;
}

proof fn lemma_gadget_weights()
    ensures
        pow(16, 7) == 268435456,
        pow(16, 3) == 4096,
{
    reveal_with_fuel(pow, 8);
}

/// Values precomputed once for the whole table.
struct Precomputed {
    mu: usize,
    rows: usize,
    pow_r: usize,
    pow_m: usize,
    g: Vec<u64>,
    gz: Vec<u64>,
    b_coeffs: Vec<u64>,
    a_coeffs: Vec<u64>,
    c_evals: Vec<Fq4>,
    quo: Fq4,
}

/// The precomputed values are the gadget weights, the monomials `b_i`, `a_i`, the challenges at
/// `alpha` and `-(alpha^d + 1)`.
spec fn pc_ok(pc: Precomputed, p: Parameters, x: Seq<u64>, chals: Seq<PChal>, pows: Seq<Fq4>) -> bool {
    &&& pc.mu == m_mu(p)
    &&& pc.rows == m_rows(p)
    &&& pc.pow_r == pow2(p.r as nat)
    &&& pc.pow_m == pow2(p.m as nat)
    &&& pc.g@.len() == p.delta
    &&& (forall|j: int| 0 <= j < p.delta ==> #[trigger] pc.g@[j] == gw(p, j))
    &&& (forall|j: int| 0 <= j < p.delta ==> #[trigger] pc.g@[j] <= 268435456)
    &&& pc.gz@.len() == p.delta_z
    &&& (forall|j: int| 0 <= j < p.delta_z ==> #[trigger] pc.gz@[j] == gw(p, j))
    &&& (forall|j: int| 0 <= j < p.delta_z ==> #[trigger] pc.gz@[j] <= 4096)
    &&& pc.b_coeffs@.len() == pow2(p.r as nat)
    &&& (forall|i: int| 0 <= i < pow2(p.r as nat) ==> #[trigger] pc.b_coeffs@[i] == b_coef(p, x, i))
    &&& (forall|i: int| 0 <= i < pow2(p.r as nat) ==> #[trigger] pc.b_coeffs@[i] <= p.q)
    &&& pc.a_coeffs@.len() == pow2(p.m as nat)
    &&& (forall|i: int| 0 <= i < pow2(p.m as nat) ==> #[trigger] pc.a_coeffs@[i] == a_coef(p, x, i))
    &&& (forall|i: int| 0 <= i < pow2(p.m as nat) ==> #[trigger] pc.a_coeffs@[i] <= p.q)
    &&& pc.c_evals@.len() == pow2(p.r as nat)
    &&& (forall|i: int| 0 <= i < pow2(p.r as nat) ==> #[trigger] pc.c_evals@[i] == chal_at(chals, pows, i))
    &&& pc.quo == quo_scalar(p, pows)
}

fn precompute(params: &Parameters, x: &[u64], challenges: &[PChal], alpha_pows: &[Fq4]) -> (pc: Precomputed)
    requires
        m_alpha_inputs(*params, x@, challenges@, alpha_pows@),
    ensures
        pc_ok(pc, *params, x@, challenges@, alpha_pows@),
{
    let ghost p = *params;
    proof {
        lemma_table_dims(p);
        lemma_gadget_weights();
        vstd::arithmetic::power2::lemma2_to64();
        vstd::bits::lemma_u64_shl_is_mul(1, params.r as u64);
        vstd::bits::lemma_u64_shl_is_mul(1, params.m as u64);
        if p.m < p.r {
            vstd::arithmetic::power2::lemma_pow2_strictly_increases(p.m as nat, p.r as nat);
        }
    }
    let mu = params.width_d + params.width_b + params.width_a * params.delta_z;
    let rows = params.n + params.n + 1 + 1 + params.n;
    let g = gadget(params.b, params.delta);
    let gz = gadget(params.b, params.delta_z);
    let pow_r = (1u64 << (params.r as u64)) as usize;
    let pow_m = (1u64 << (params.m as u64)) as usize;

    let xr = vstd::slice::slice_subrange(x, 0, params.r);
    let mut b_coeffs: Vec<u64> = Vec::with_capacity(pow_r);
    let mut i: usize = 0;
    while i < pow_r
        invariant
            0 <= i <= pow_r,
            pow_r == pow2(p.r as nat),
            *params == p,
            m_alpha_inputs(p, x@, challenges@, alpha_pows@),
            xr@ == x@.subrange(0, p.r as int),
            b_coeffs@.len() == i,
            forall|t: int| 0 <= t < i ==> #[trigger] b_coeffs@[t] == b_coef(p, x@, t),
            forall|t: int| 0 <= t < i ==> #[trigger] b_coeffs@[t] <= p.q,
        decreases pow_r - i,
    {
        let c = multi_lin_coeff_int(xr, i, params.r, params.q);
        b_coeffs.push(c);
        i = i + 1;
    }

    let xm = vstd::slice::slice_subrange(x, params.r, params.r + params.m);
    let mut a_coeffs: Vec<u64> = Vec::with_capacity(pow_m);
    let mut i: usize = 0;
    while i < pow_m
        invariant
            0 <= i <= pow_m,
            pow_m == pow2(p.m as nat),
            *params == p,
            m_alpha_inputs(p, x@, challenges@, alpha_pows@),
            xm@ == x@.subrange(p.r as int, (p.r + p.m) as int),
            a_coeffs@.len() == i,
            forall|t: int| 0 <= t < i ==> #[trigger] a_coeffs@[t] == a_coef(p, x@, t),
            forall|t: int| 0 <= t < i ==> #[trigger] a_coeffs@[t] <= p.q,
        decreases pow_m - i,
    {
        let c = multi_lin_coeff_int(xm, i, params.m, params.q);
        a_coeffs.push(c);
        i = i + 1;
    }

    let mut c_evals: Vec<Fq4> = Vec::with_capacity(pow_r);
    let mut i: usize = 0;
    while i < pow_r
        invariant
            0 <= i <= pow_r,
            pow_r == pow2(p.r as nat),
            *params == p,
            m_alpha_inputs(p, x@, challenges@, alpha_pows@),
            c_evals@.len() == i,
            forall|t: int| 0 <= t < i ==> #[trigger] c_evals@[t] == chal_at(challenges@, alpha_pows@, t),
        decreases pow_r - i,
    {
        proof {
            assert forall|t: int| 0 <= t < challenges@[i as int].coeffs@.len() implies entry_exp(
                #[trigger] challenges@[i as int].coeffs@[t],
            ) < alpha_pows@.len() by {
                assert(entry_exp(challenges@[i as int].coeffs@[t]) < alpha_pows@.len());
            }
        }
        let e = challenges[i].eval(alpha_pows);
        c_evals.push(e);
        i = i + 1;
    }

    let quo = alpha_pows[params.d - 1].times(alpha_pows[1]).plus(alpha_pows[0]).negate();
    proof {
        assert forall|j: int| 0 <= j < p.delta implies #[trigger] g@[j] <= 268435456 by {
            vstd::arithmetic::power::lemma_pow_increases(16, j as nat, 7);
        }
        assert forall|j: int| 0 <= j < p.delta_z implies #[trigger] gz@[j] <= 4096 by {
            vstd::arithmetic::power::lemma_pow_increases(16, j as nat, 3);
        }
    }
    Precomputed { mu, rows, pow_r, pow_m, g, gz, b_coeffs, a_coeffs, c_evals, quo }
}

/// Entry `(row, col)` of the table.
fn entry(
    params: &Parameters,
    x: &[u64],
    challenges: &[PChal],
    alpha_pows: &[Fq4],
    mat_a: &PMat,
    mat_b: &PMat,
    mat_d: &PMat,
    pc: &Precomputed,
    row: usize,
    col: usize,
) -> (e: Fq4)
    requires
        m_alpha_inputs(*params, x@, challenges@, alpha_pows@),
        m_alpha_mats(*params, *mat_a, *mat_b, *mat_d),
        pc_ok(*pc, *params, x@, challenges@, alpha_pows@),
        row < m_height(*params),
        col < m_width(*params),
    ensures
        e == m_entry(*params, x@, challenges@, alpha_pows@, mat_a.vec.vec@, mat_b.vec.vec@, mat_d.vec.vec@, row as int, col as int),
{
    let ghost p = *params;
    proof {
        lemma_table_dims(p);
        vstd::arithmetic::power2::lemma2_to64();
    }
    let n = params.n;
    let delta = params.delta;
    let dz = params.delta_z;
    let wd = params.width_d;
    let wb = params.width_b;
    let mu = pc.mu;
    if mu <= col && col < mu + pc.rows * delta && (col - mu) / delta == row {
        return mul_int_field(pc.g[(col - mu) % delta], pc.quo);
    }
    if row < n {
        if col < wd {
            mat_d.element(row, col).eval(alpha_pows)
        } else {
            Fq4::zero()
        }
    } else if row < 2 * n {
        if wd <= col && col < wd + wb {
            mat_b.element(row - n, col - wd).eval(alpha_pows)
        } else {
            Fq4::zero()
        }
    } else if row == 2 * n {
        if col < pc.pow_r * delta {
            let bi = pc.b_coeffs[col / delta];
            let gj = pc.g[col % delta];
            proof {
                assert(bi * gj <= 0x1_0000_0000 * 268435456) by (nonlinear_arith)
                    requires
                        bi <= 0x1_0000_0000,
                        gj <= 268435456,
                ;
            }
            lift_int(bi * gj)
        } else {
            Fq4::zero()
        }
    } else if row == 2 * n + 1 {
        if col < pc.pow_r * delta {
            mul_int_field(pc.g[col % delta], pc.c_evals[col / delta])
        } else if wd + wb <= col && col < wd + wb + pc.pow_m * delta * dz {
            let c = col - wd - wb;
            proof {
                let dd: usize = (delta * dz) as usize;
                assert(c / dd < pc.pow_m) by (nonlinear_arith)
                    requires
                        c < pc.pow_m * delta * dz,
                        dd == delta * dz,
                        dd > 0,
                ;
            }
            let ai = pc.a_coeffs[c / (delta * dz)];
            let gj = pc.g[(c % (delta * dz)) / dz];
            let gk = pc.gz[c % dz];
            proof {
                assert(ai * gj <= 0x1_0000_0000 * 268435456) by (nonlinear_arith)
                    requires
                        ai <= 0x1_0000_0000,
                        gj <= 268435456,
                ;
            }
            let t = (ai * gj) % params.q;
            proof {
                assert(t * gk <= 0x1_0000_0000 * 4096) by (nonlinear_arith)
                    requires
                        t <= 0x1_0000_0000,
                        gk <= 4096,
                ;
            }
            lift_int(t * gk).negate()
        } else {
            Fq4::zero()
        }
    } else if row < 3 * n + 2 {
        let k = row - 2 * n - 2;
        if wd <= col && col < wd + wb && ((col - wd) % (delta * n)) / delta == k {
            mul_int_field(pc.g[(col - wd) % delta], pc.c_evals[(col - wd) / (delta * n)])
        } else if wd + wb <= col && col < mu {
            let c = col - wd - wb;
            proof {
                let wa = params.width_a;
                assert(c / dz < wa) by (nonlinear_arith)
                    requires
                        c < wa * dz,
                        dz > 0,
                ;
            }
            mul_int_field(pc.gz[c % dz], mat_a.element(k, c / dz).eval(alpha_pows)).negate()
        } else {
            Fq4::zero()
        }
    } else {
        Fq4::zero()
    }
}

/// `evs` holds the evaluations at `alpha` of the entries of the one row of the shared matrix.
spec fn shared_evals_ok(evs: Seq<Fq4>, p: Parameters, pows: Seq<Fq4>, m: Seq<u64>) -> bool {
    &&& evs.len() == p.width_d
    &&& forall|col: int| 0 <= col < p.width_d ==> #[trigger] evs[col] == mat_at(m, p.width_d as int, p.d as int, pows, 0, col)
}

/// The evaluations at `alpha` of the entries of the shared matrix: each is evaluated once and
/// serves `D`, `B` and the expansion of `A`.
fn shared_evals(params: &Parameters, x: &[u64], challenges: &[PChal], alpha_pows: &[Fq4], mat: &PMat) -> (evs: Vec<Fq4>)
    requires
        m_alpha_inputs(*params, x@, challenges@, alpha_pows@),
        m_alpha_mats(*params, *mat, *mat, *mat),
    ensures
        shared_evals_ok(evs@, *params, alpha_pows@, mat.vec.vec@),
{
    let mut evs: Vec<Fq4> = Vec::with_capacity(params.width_d);
    let mut col: usize = 0;
    while col < params.width_d
        invariant
            0 <= col <= params.width_d,
            m_alpha_inputs(*params, x@, challenges@, alpha_pows@),
            m_alpha_mats(*params, *mat, *mat, *mat),
            evs@.len() == col,
            forall|c: int| 0 <= c < col ==> #[trigger] evs@[c] == mat_at(mat.vec.vec@, params.width_d as int, params.d as int, alpha_pows@, 0, c),
        decreases params.width_d - col,
    {
        evs.push(mat.element(0, col).eval(alpha_pows));
        col = col + 1;
    }
    evs
}

/// Entry `(row, col)` of the table of `M_alpha` when one matrix serves as `A`, `B` and `D`, its
/// entries read from their evaluations `evs`, computed once for the three blocks.
fn entry_shared(
    params: &Parameters,
    x: &[u64],
    challenges: &[PChal],
    alpha_pows: &[Fq4],
    mat: &PMat,
    evs: &Vec<Fq4>,
    pc: &Precomputed,
    row: usize,
    col: usize,
) -> (e: Fq4)
    requires
        m_alpha_inputs(*params, x@, challenges@, alpha_pows@),
        params.reuse_mats,
        m_alpha_mats(*params, *mat, *mat, *mat),
        shared_evals_ok(evs@, *params, alpha_pows@, mat.vec.vec@),
        pc_ok(*pc, *params, x@, challenges@, alpha_pows@),
        row < m_height(*params),
        col < m_width(*params),
    ensures
        e == m_entry(*params, x@, challenges@, alpha_pows@, mat.vec.vec@, mat.vec.vec@, mat.vec.vec@, row as int, col as int),
{
    let ghost p = *params;
    proof {
        lemma_table_dims(p);
        vstd::arithmetic::power2::lemma2_to64();
    }
    let n = params.n;
    let delta = params.delta;
    let dz = params.delta_z;
    let wd = params.width_d;
    let wb = params.width_b;
    let mu = pc.mu;
    if mu <= col && col < mu + pc.rows * delta && (col - mu) / delta == row {
        return mul_int_field(pc.g[(col - mu) % delta], pc.quo);
    }
    if row < n {
        if col < wd {
            evs[col]
        } else {
            Fq4::zero()
        }
    } else if row < 2 * n {
        if wd <= col && col < wd + wb {
            evs[col - wd]
        } else {
            Fq4::zero()
        }
    } else if row == 2 * n {
        if col < pc.pow_r * delta {
            let bi = pc.b_coeffs[col / delta];
            let gj = pc.g[col % delta];
            proof {
                assert(bi * gj <= 0x1_0000_0000 * 268435456) by (nonlinear_arith)
                    requires
                        bi <= 0x1_0000_0000,
                        gj <= 268435456,
                ;
            }
            lift_int(bi * gj)
        } else {
            Fq4::zero()
        }
    } else if row == 2 * n + 1 {
        if col < pc.pow_r * delta {
            mul_int_field(pc.g[col % delta], pc.c_evals[col / delta])
        } else if wd + wb <= col && col < wd + wb + pc.pow_m * delta * dz {
            let c = col - wd - wb;
            proof {
                let dd: usize = (delta * dz) as usize;
                assert(c / dd < pc.pow_m) by (nonlinear_arith)
                    requires
                        c < pc.pow_m * delta * dz,
                        dd == delta * dz,
                        dd > 0,
                ;
            }
            let ai = pc.a_coeffs[c / (delta * dz)];
            let gj = pc.g[(c % (delta * dz)) / dz];
            let gk = pc.gz[c % dz];
            proof {
                assert(ai * gj <= 0x1_0000_0000 * 268435456) by (nonlinear_arith)
                    requires
                        ai <= 0x1_0000_0000,
                        gj <= 268435456,
                ;
            }
            let t = (ai * gj) % params.q;
            proof {
                assert(t * gk <= 0x1_0000_0000 * 4096) by (nonlinear_arith)
                    requires
                        t <= 0x1_0000_0000,
                        gk <= 4096,
                ;
            }
            lift_int(t * gk).negate()
        } else {
            Fq4::zero()
        }
    } else if row < 3 * n + 2 {
        let k = row - 2 * n - 2;
        if wd <= col && col < wd + wb && ((col - wd) % (delta * n)) / delta == k {
            mul_int_field(pc.g[(col - wd) % delta], pc.c_evals[(col - wd) / (delta * n)])
        } else if wd + wb <= col && col < mu {
            let c = col - wd - wb;
            proof {
                let wa = params.width_a;
                assert(c / dz < wa) by (nonlinear_arith)
                    requires
                        c < wa * dz,
                        dz > 0,
                ;
            }
            mul_int_field(pc.gz[c % dz], evs[c / dz]).negate()
        } else {
            Fq4::zero()
        }
    } else {
        Fq4::zero()
    }
}

/// The table for commitment matrices `A`, `B`, `D` of the shapes of `params`, entry by entry.
fn build_table(
    params: &Parameters,
    x: &[u64],
    challenges: &[PChal],
    alpha_pows: &[Fq4],
    mat_a: &PMat,
    mat_b: &PMat,
    mat_d: &PMat,
) -> (evals: Vec<Fq4>)
    requires
        m_alpha_inputs(*params, x@, challenges@, alpha_pows@),
        m_alpha_mats(*params, *mat_a, *mat_b, *mat_d),
    ensures
        is_m_alpha_table(evals@, *params, x@, challenges@, alpha_pows@, mat_a.vec.vec@, mat_b.vec.vec@, mat_d.vec.vec@),
{
    let ghost p = *params;
    let pc = precompute(params, x, challenges, alpha_pows);
    proof {
        lemma_table_dims(p);
        vstd::arithmetic::power2::lemma2_to64();
    }
    let log_h = pc.rows.log();
    let log_w = (pc.mu + pc.rows * params.delta).log();
    proof {
        lemma_ceil_log2_unique(m_rows(p) as nat, log_h as nat);
        lemma_ceil_log2_unique((m_mu(p) + m_rows(p) * p.delta) as nat, log_w as nat);
        vstd::bits::lemma_u64_shl_is_mul(1, log_h as u64);
        vstd::bits::lemma_u64_shl_is_mul(1, log_w as u64);
    }
    let height = (1u64 << (log_h as u64)) as usize;
    let width = (1u64 << (log_w as u64)) as usize;
    let total = height * width;
    let mut evals: Vec<Fq4> = Vec::with_capacity(total);
    let mut k: usize = 0;
    while k < total
        invariant
            0 <= k <= total,
            total == m_height(p) * m_width(p),
            height == m_height(p),
            width == m_width(p),
            width >= 1,
            *params == p,
            m_alpha_inputs(p, x@, challenges@, alpha_pows@),
            m_alpha_mats(p, *mat_a, *mat_b, *mat_d),
            pc_ok(pc, p, x@, challenges@, alpha_pows@),
            evals@.len() == k,
            forall|t: int| 0 <= t < k ==> #[trigger] evals@[t]
                == m_entry(p, x@, challenges@, alpha_pows@, mat_a.vec.vec@, mat_b.vec.vec@, mat_d.vec.vec@, t / (width as int), t % (width as int)),
        decreases total - k,
    {
        let row = k / width;
        let col = k % width;
        proof {
            assert(row < height) by (nonlinear_arith)
                requires
                    k < height * width,
                    row == k / width,
                    width >= 1,
            ;
        }
        let e = entry(params, x, challenges, alpha_pows, mat_a, mat_b, mat_d, &pc, row, col);
        evals.push(e);
        k = k + 1;
    }
    proof {
        assert forall|row: int, col: int| 0 <= row < m_height(p) && 0 <= col < m_width(p) implies
            #[trigger] evals@[row * m_width(p) + col]
                == m_entry(p, x@, challenges@, alpha_pows@, mat_a.vec.vec@, mat_b.vec.vec@, mat_d.vec.vec@, row, col) by {
            crate::arithmetic::poly_vec::lemma_flat(row, col, width as int, height as int);
            let t = row * width + col;
            assert(evals@[t] == m_entry(p, x@, challenges@, alpha_pows@, mat_a.vec.vec@, mat_b.vec.vec@, mat_d.vec.vec@, t / (width as int), t % (width as int)));
        }
    }
    evals
}

/// The table of `M_alpha` for given commitment matrices `A`, `B`, `D` in coefficient form:
/// `height * width` elements of `F_{q^4}`, entry `(row, col)` at index `row * width + col`, as
/// [`m_entry`] says.
pub fn form_m_alpha_different_matrices(
    params: &Parameters,
    x: &[u64],
    challenges: &[PChal],
    alpha_pows: &[Fq4],
    mat_a: &PMat,
    mat_b: &PMat,
    mat_d: &PMat,
) -> (evals: Vec<Fq4>)
    requires
        m_alpha_inputs(*params, x@, challenges@, alpha_pows@),
        m_alpha_mats(*params, *mat_a, *mat_b, *mat_d),
    ensures
        is_m_alpha_table(evals@, *params, x@, challenges@, alpha_pows@, mat_a.vec.vec@, mat_b.vec.vec@, mat_d.vec.vec@),
{
    build_table(params, x, challenges, alpha_pows, mat_a, mat_b, mat_d)
}

/// The table of `M_alpha` when one matrix serves as `A`, `B` and `D` (the three widths are
/// equal): the same table as [`form_m_alpha_different_matrices`] with `mat` passed three times,
/// each entry of the matrix evaluated at `alpha` once for the three blocks.
pub fn form_m_alpha_same_matrix(
    params: &Parameters,
    x: &[u64],
    challenges: &[PChal],
    alpha_pows: &[Fq4],
    mat: &PMat,
) -> (evals: Vec<Fq4>)
    requires
        params.reuse_mats,
        m_alpha_inputs(*params, x@, challenges@, alpha_pows@),
        m_alpha_mats(*params, *mat, *mat, *mat),
    ensures
        is_m_alpha_table(evals@, *params, x@, challenges@, alpha_pows@, mat.vec.vec@, mat.vec.vec@, mat.vec.vec@),
{
    let ghost p = *params;
    let ghost mv = mat.vec.vec@;
    let evs = shared_evals(params, x, challenges, alpha_pows, mat);
    let pc = precompute(params, x, challenges, alpha_pows);
    proof {
        lemma_table_dims(p);
        vstd::arithmetic::power2::lemma2_to64();
    }
    let log_h = pc.rows.log();
    let log_w = (pc.mu + pc.rows * params.delta).log();
    proof {
        lemma_ceil_log2_unique(m_rows(p) as nat, log_h as nat);
        lemma_ceil_log2_unique((m_mu(p) + m_rows(p) * p.delta) as nat, log_w as nat);
        vstd::bits::lemma_u64_shl_is_mul(1, log_h as u64);
        vstd::bits::lemma_u64_shl_is_mul(1, log_w as u64);
    }
    let height = (1u64 << (log_h as u64)) as usize;
    let width = (1u64 << (log_w as u64)) as usize;
    let total = height * width;
    let mut evals: Vec<Fq4> = Vec::with_capacity(total);
    let mut k: usize = 0;
    while k < total
        invariant
            0 <= k <= total,
            total == m_height(p) * m_width(p),
            height == m_height(p),
            width == m_width(p),
            width >= 1,
            *params == p,
            mv == mat.vec.vec@,
            p.reuse_mats,
            m_alpha_inputs(p, x@, challenges@, alpha_pows@),
            m_alpha_mats(p, *mat, *mat, *mat),
            shared_evals_ok(evs@, p, alpha_pows@, mv),
            pc_ok(pc, p, x@, challenges@, alpha_pows@),
            evals@.len() == k,
            forall|t: int| 0 <= t < k ==> #[trigger] evals@[t]
                == m_entry(p, x@, challenges@, alpha_pows@, mv, mv, mv, t / (width as int), t % (width as int)),
        decreases total - k,
    {
        let row = k / width;
        let col = k % width;
        proof {
            assert(row < height) by (nonlinear_arith)
                requires
                    k < height * width,
                    row == k / width,
                    width >= 1,
            ;
        }
        let e = entry_shared(params, x, challenges, alpha_pows, mat, &evs, &pc, row, col);
        evals.push(e);
        k = k + 1;
    }
    proof {
        assert forall|row: int, col: int| 0 <= row < m_height(p) && 0 <= col < m_width(p) implies
            #[trigger] evals@[row * m_width(p) + col] == m_entry(p, x@, challenges@, alpha_pows@, mv, mv, mv, row, col) by {
            crate::arithmetic::poly_vec::lemma_flat(row, col, width as int, height as int);
            let t = row * width + col;
            assert(evals@[t] == m_entry(p, x@, challenges@, alpha_pows@, mv, mv, mv, t / (width as int), t % (width as int)));
        }
    }
    evals
}

/// The coefficients of the `n x width` matrix that [`PMat::rand`] expands from `seed`.
pub open spec fn seeded_mat(p: Parameters, seed: Seq<u8>, width: int) -> Seq<u64> {
    samples(seed, 0, p.q, low_mask(ceil_log2(p.q as nat)), (p.n * width * p.d) as nat)
}

/// The three commitment matrices fit in memory.
pub open spec fn mats_fit(p: Parameters) -> bool {
    &&& p.n * p.width_a * p.d <= usize::MAX
    &&& p.n * p.width_b * p.d <= usize::MAX
    &&& p.n * p.width_d * p.d <= usize::MAX
}

/// Verifier-side entry point: regenerate the commitment matrices from the seeds in `params` (one
/// matrix from the seed of `D` when they are shared) and return the table of `M_alpha`.
pub fn form_m_alpha(params: &Parameters, x: &[u64], challenges: &[PChal], alpha_pows: &[Fq4]) -> (evals: Vec<Fq4>)
    requires
        m_alpha_inputs(*params, x@, challenges@, alpha_pows@),
        mats_fit(*params),
    ensures
        is_m_alpha_table(
            evals@,
            *params,
            x@,
            challenges@,
            alpha_pows@,
            seeded_mat(*params, params.a_seed@, params.width_a as int),
            seeded_mat(*params, params.b_seed@, params.width_b as int),
            seeded_mat(*params, params.d_seed@, params.width_d as int),
        ),
{
    proof {
        vstd::arithmetic::power2::lemma2_to64();
        assert(is_pow2(params.d as nat)) by {
            assert(10 < 64 && params.d == pow2(10));
        }
    }
    if params.reuse_mats {
        let mat = PMat::rand(params.n, params.width_d, params.d, params.q, params.d_seed);
        form_m_alpha_same_matrix(params, x, challenges, alpha_pows, &mat)
    } else {
        let mat_a = PMat::rand(params.n, params.width_a, params.d, params.q, params.a_seed);
        let mat_b = PMat::rand(params.n, params.width_b, params.d, params.q, params.b_seed);
        let mat_d = PMat::rand(params.n, params.width_d, params.d, params.q, params.d_seed);
        form_m_alpha_different_matrices(params, x, challenges, alpha_pows, &mat_a, &mat_b, &mat_d)
    }
}

} // verus!
