//! The reduction of an evaluation claim to `R_q` is complete: for every witness and point, the
//! ring element `Y` the prover sends satisfies the verifier's check `y = <cf(Y), v_x> mod q` for
//! the value `y` of the committed polynomial at the point.

use vstd::prelude::*;
use vstd::arithmetic::power2::pow2;
use vstd::arithmetic::div_mod::{
    lemma_add_mod_noop, lemma_mul_mod_noop_left, lemma_mul_mod_noop_right, lemma_mod_bound, lemma_small_mod,
    lemma_hoist_over_denominator, lemma_div_denominator, lemma_mod_multiples_vanish, lemma_basic_div,
};
use crate::arithmetic::utils::{bit, spec_multi_lin_coeff, ceil_log2, is_ceil_log2, lemma_ceil_log2_unique};
use crate::hachi::commit::chunk;
use crate::hachi::evaluate::{index_point, evaluation};
use crate::hachi::prove::{ProofRound, proof_of, folded_chunks};
use crate::arithmetic::poly_vec::PVec;
use crate::hachi::commit::CommitmentWithState;
use crate::hachi::prover_utils::zq_zq::{y_acc, chunk_dot};
use crate::hachi::common::{b_coef, a_coef, gw, m_entry, m_mu};
use crate::arithmetic::field::{Fq4, fq, lift4};
use crate::hachi::setup::{Parameters, setup_ok, params_match};
use crate::hachi::verify::{log_d, vx_coef, reduction_value, reduction_ok, verify_accepts};
use crate::arithmetic::poly_chal::PChal;

verus! {

/// `sum_{k < n} g(k)`.
pub open spec fn sum_of(g: spec_fn(int) -> int, n: nat) -> int
    decreases n,
{
    if n == 0 {
        0
    } else {
        sum_of(g, (n - 1) as nat) + g(n - 1)
    }
}

/// Sums of equal terms are equal.
proof fn lemma_sum_ext(g1: spec_fn(int) -> int, g2: spec_fn(int) -> int, n: nat)
    requires
        forall|k: int| 0 <= k < n ==> #[trigger] g1(k) == g2(k),
    ensures
        sum_of(g1, n) == sum_of(g2, n),
    decreases n,
{
    if n > 0 {
        lemma_sum_ext(g1, g2, (n - 1) as nat);
    }
}

/// Sums of congruent terms are congruent.
proof fn lemma_sum_congruent(g1: spec_fn(int) -> int, g2: spec_fn(int) -> int, n: nat, q: int)
    requires
        q > 0,
        forall|k: int| 0 <= k < n ==> #[trigger] g1(k) % q == g2(k) % q,
    ensures
        sum_of(g1, n) % q == sum_of(g2, n) % q,
    decreases n,
{
    if n > 0 {
        lemma_sum_congruent(g1, g2, (n - 1) as nat, q);
        let (a1, a2) = (sum_of(g1, (n - 1) as nat), sum_of(g2, (n - 1) as nat));
        let (b1, b2) = (g1(n - 1), g2(n - 1));
        lemma_add_mod_noop(a1, b1, q);
        lemma_add_mod_noop(a2, b2, q);
    }
}

/// `k -> c g(k)`.
pub open spec fn scaled(c: int, g: spec_fn(int) -> int) -> spec_fn(int) -> int {
    |k: int| c * g(k)
}

/// `k -> g1(k) + g2(k)`.
pub open spec fn added(g1: spec_fn(int) -> int, g2: spec_fn(int) -> int) -> spec_fn(int) -> int {
    |k: int| g1(k) + g2(k)
}

/// `k -> g(n + k)`.
pub open spec fn shifted(g: spec_fn(int) -> int, n: int) -> spec_fn(int) -> int {
    |k: int| g(n + k)
}

/// `u -> sum_{v < b} g(u b + v)`.
pub open spec fn blocks(g: spec_fn(int) -> int, b: nat) -> spec_fn(int) -> int {
    |u: int| sum_of(shifted(g, u * b), b)
}

/// Row `u` of `h`: `v -> h(u, v)`.
pub open spec fn row_fn(h: spec_fn(int, int) -> int, u: int) -> spec_fn(int) -> int {
    |v: int| h(u, v)
}

/// Column `v` of `h`: `u -> h(u, v)`.
pub open spec fn col_fn(h: spec_fn(int, int) -> int, v: int) -> spec_fn(int) -> int {
    |u: int| h(u, v)
}

/// `u -> sum_{v < b} h(u, v)`.
pub open spec fn rows(h: spec_fn(int, int) -> int, b: nat) -> spec_fn(int) -> int {
    |u: int| sum_of(row_fn(h, u), b)
}

/// `v -> sum_{u < a} h(u, v)`.
pub open spec fn cols(h: spec_fn(int, int) -> int, a: nat) -> spec_fn(int) -> int {
    |v: int| sum_of(col_fn(h, v), a)
}

/// A constant factor comes out of a sum.
proof fn lemma_sum_scale(c: int, g: spec_fn(int) -> int, n: nat)
    ensures
        sum_of(scaled(c, g), n) == c * sum_of(g, n),
    decreases n,
{
    if n > 0 {
        lemma_sum_scale(c, g, (n - 1) as nat);
        assert(c * sum_of(g, (n - 1) as nat) + c * g(n - 1) == c * (sum_of(g, (n - 1) as nat) + g(n - 1))) by (nonlinear_arith);
    }
}

/// The sum of termwise sums is the sum of the sums.
proof fn lemma_sum_add(g1: spec_fn(int) -> int, g2: spec_fn(int) -> int, n: nat)
    ensures
        sum_of(added(g1, g2), n) == sum_of(g1, n) + sum_of(g2, n),
    decreases n,
{
    if n > 0 {
        lemma_sum_add(g1, g2, (n - 1) as nat);
    }
}

/// A sum splits after its first `n` terms.
proof fn lemma_sum_split(g: spec_fn(int) -> int, n: nat, m: nat)
    ensures
        sum_of(g, n + m) == sum_of(g, n) + sum_of(shifted(g, n as int), m),
    decreases m,
{
    if m > 0 {
        lemma_sum_split(g, n, (m - 1) as nat);
        assert((n + m - 1) as nat == (n + (m - 1)) as nat);
    }
}

/// A sum over `a b` indices is the sum over `a` blocks of `b` consecutive indices.
proof fn lemma_sum_blocks(g: spec_fn(int) -> int, a: nat, b: nat)
    ensures
        sum_of(g, a * b) == sum_of(blocks(g, b), a),
    decreases a,
{
    if a > 0 {
        let a1 = (a - 1) as nat;
        lemma_sum_blocks(g, a1, b);
        assert(a * b == a1 * b + b) by (nonlinear_arith)
            requires
                a > 0,
                a1 == a - 1,
        ;
        let n = (a1 * b) as nat;
        lemma_sum_split(g, n, b);
        assert(blocks(g, b)(a1 as int) == sum_of(shifted(g, n as int), b)) by {
            assert(shifted(g, (a1 as int) * (b as int)) == shifted(g, n as int));
        }
        assert(sum_of(g, a * b) == sum_of(g, n + b));
        assert(sum_of(g, n) == sum_of(blocks(g, b), a1));
        assert(sum_of(blocks(g, b), a) == sum_of(blocks(g, b), a1) + blocks(g, b)(a1 as int));
    } else {
        assert(a * b == 0) by (nonlinear_arith)
            requires
                a == 0,
        ;
    }
}

/// The order of a double sum does not matter.
proof fn lemma_sum_swap(h: spec_fn(int, int) -> int, a: nat, b: nat)
    ensures
        sum_of(rows(h, b), a) == sum_of(cols(h, a), b),
    decreases a,
{
    if a > 0 {
        let a1 = (a - 1) as nat;
        lemma_sum_swap(h, a1, b);
        let last = row_fn(h, a1 as int);
        lemma_sum_add(cols(h, a1), last, b);
        lemma_sum_ext(added(cols(h, a1), last), cols(h, a), b);
        assert(sum_of(rows(h, b), a) == sum_of(rows(h, b), a1) + rows(h, b)(a1 as int));
    } else {
        lemma_sum_scale(0, cols(h, 0), b);
        lemma_sum_ext(scaled(0, cols(h, 0)), cols(h, 0), b);
    }
}

/// Below `a`, the bits of `i + 2^a j` are those of `i`; from `a` on, those of `j`.
proof fn lemma_bit_concat(i: nat, j: nat, a: nat, t: nat)
    requires
        i < pow2(a),
    ensures
        t < a ==> bit(i + pow2(a) * j, t) == bit(i, t),
        t >= a ==> bit(i + pow2(a) * j, t) == bit(j, (t - a) as nat),
{
    let k = i + pow2(a) * j;
    vstd::arithmetic::power2::lemma_pow2_pos(t);
    vstd::arithmetic::power2::lemma_pow2_pos(a);
    if t < a {
        let e = (a - t) as nat;
        vstd::arithmetic::power2::lemma_pow2_adds(e, t);
        vstd::arithmetic::power2::lemma_pow2_unfold(e);
        let big = pow2((e - 1) as nat) * j;
        assert(pow2(a) * j == (2 * big) * pow2(t)) by (nonlinear_arith)
            requires
                pow2(a) == pow2(e) * pow2(t),
                pow2(e) == 2 * pow2((e - 1) as nat),
                big == pow2((e - 1) as nat) * j,
        ;
        lemma_hoist_over_denominator(i as int, (2 * big) as int, pow2(t));
        lemma_mod_multiples_vanish(big as int, (i as int) / (pow2(t) as int), 2);
    } else {
        let e = (t - a) as nat;
        vstd::arithmetic::power2::lemma_pow2_adds(a, e);
        vstd::arithmetic::power2::lemma_pow2_pos(e);
        lemma_div_denominator(k as int, pow2(a) as int, pow2(e) as int);
        lemma_hoist_over_denominator(i as int, j as int, pow2(a));
        lemma_basic_div(i as int, pow2(a) as int);
        assert(pow2(a) * j == j * pow2(a)) by (nonlinear_arith);
    }
}

/// The monomial of `a + b` at `i + 2^|a| j`, over its first `n <= |a|` coordinates, is that of `a`
/// at `i`.
proof fn lemma_mlc_prefix(a: Seq<u64>, b: Seq<u64>, i: nat, j: nat, n: nat, q: int)
    requires
        i < pow2(a.len()),
        n <= a.len(),
    ensures
        spec_multi_lin_coeff(a + b, i + pow2(a.len()) * j, n, q) == spec_multi_lin_coeff(a, i, n, q),
    decreases n,
{
    if n > 0 {
        lemma_mlc_prefix(a, b, i, j, (n - 1) as nat, q);
        lemma_bit_concat(i, j, a.len(), (n - 1) as nat);
        assert((a + b)[n - 1] == a[n - 1]);
    }
}

/// The monomial of `a + b` at `i + 2^|a| j` is, modulo `q`, the product of the monomials of `a` at
/// `i` and of `b` at `j`.
proof fn lemma_mlc_concat(a: Seq<u64>, b: Seq<u64>, i: nat, j: nat, n: nat, q: int)
    requires
        q > 0,
        i < pow2(a.len()),
        n <= b.len(),
    ensures
        spec_multi_lin_coeff(a + b, i + pow2(a.len()) * j, a.len() + n, q) % q
            == (spec_multi_lin_coeff(a, i, a.len(), q) * spec_multi_lin_coeff(b, j, n, q)) % q,
    decreases n,
{
    let k = i + pow2(a.len()) * j;
    let la = spec_multi_lin_coeff(a, i, a.len(), q);
    if n == 0 {
        lemma_mlc_prefix(a, b, i, j, a.len(), q);
    } else {
        lemma_mlc_concat(a, b, i, j, (n - 1) as nat, q);
        let prev = spec_multi_lin_coeff(a + b, k, (a.len() + n - 1) as nat, q);
        let lb = spec_multi_lin_coeff(b, j, (n - 1) as nat, q);
        lemma_bit_concat(i, j, a.len(), (a.len() + n - 1) as nat);
        assert((a + b)[a.len() + n - 1] == b[n - 1]);
        assert((a.len() + n - 1) as nat == (a.len() + (n - 1)) as nat);
        if bit(j, (n - 1) as nat) {
            let y = b[n - 1] as int;
            // (prev y) % q == ((la lb) y) % q == (la ((lb y) % q)) % q
            lemma_mul_mod_noop_left(prev, y, q);
            lemma_mul_mod_noop_left(la * lb, y, q);
            lemma_mul_mod_noop_right(la, lb * y, q);
            assert((la * lb) * y == la * (lb * y)) by (nonlinear_arith);
            vstd::arithmetic::div_mod::lemma_mod_twice(prev * y, q);
        }
    }
}

/// The monomial of the point at coefficient index `k` times the coefficient.
pub open spec fn eterm(p: Parameters, x: Seq<u64>, f: Seq<u64>) -> spec_fn(int) -> int {
    |k: int| spec_multi_lin_coeff(index_point(p, x), k as nat, p.l as nat, p.q as int) * f[k]
}

/// The term of `Y`'s coefficient `t` for element `jj` of chunk `i`: the monomial `b_i a_jj` of
/// `x[0..r+m]` times coefficient `t` of `f_{i,jj}`.
pub open spec fn yterm(p: Parameters, x: Seq<u64>, f: Seq<u64>, t: int, i: int) -> spec_fn(int) -> int {
    |jj: int| spec_multi_lin_coeff(x.subrange(0, (p.r + p.m) as int), (i + jj * pow2(p.r as nat)) as nat, (p.r + p.m) as nat, p.q as int)
        * chunk(p, f, i)[jj * p.d + t]
}

/// The terms of `Y`'s coefficient `t` for chunk `i`, summed.
pub open spec fn ychunks(p: Parameters, x: Seq<u64>, f: Seq<u64>, t: int) -> spec_fn(int) -> int {
    |i: int| sum_of(yterm(p, x, f, t, i), pow2(p.m as nat))
}

/// `Y`'s coefficient `t` is the sum of its terms, reduced modulo `q`.
proof fn lemma_y_acc_sum(p: Parameters, x: Seq<u64>, f: Seq<u64>, t: int, i: nat, j: nat)
    requires
        p.q > 0,
        j <= pow2(p.m as nat),
    ensures
        y_acc(p, x, f, t, i, j) == (sum_of(ychunks(p, x, f, t), i) + sum_of(yterm(p, x, f, t, i as int), j)) % (p.q as int),
    decreases i, j,
{
    let q = p.q as int;
    if j > 0 {
        lemma_y_acc_sum(p, x, f, t, i, (j - 1) as nat);
        let c = sum_of(ychunks(p, x, f, t), i);
        let s = sum_of(yterm(p, x, f, t, i as int), (j - 1) as nat);
        let term = yterm(p, x, f, t, i as int)(j - 1);
        lemma_add_mod_noop(c + s, term, q);
        vstd::arithmetic::div_mod::lemma_mod_twice(c + s, q);
        vstd::arithmetic::div_mod::lemma_mod_twice(term, q);
        lemma_add_mod_noop((c + s) % q, term, q);
        assert(c + s + term == c + (s + term));
    } else if i > 0 {
        lemma_y_acc_sum(p, x, f, t, (i - 1) as nat, pow2(p.m as nat));
    } else {
        lemma_small_mod(0, p.q as nat);
    }
}

/// `evaluation` is the sum of its terms, reduced modulo `q`.
proof fn lemma_evaluation_sum(p: Parameters, x: Seq<u64>, f: Seq<u64>, n: nat)
    requires
        p.q > 0,
    ensures
        evaluation(p, x, f, n) == sum_of(eterm(p, x, f), n) % (p.q as int),
    decreases n,
{
    if n > 0 {
        lemma_evaluation_sum(p, x, f, (n - 1) as nat);
        let q = p.q as int;
        let s = sum_of(eterm(p, x, f), (n - 1) as nat);
        let term = eterm(p, x, f)(n - 1);
        vstd::arithmetic::div_mod::lemma_mod_twice(term, q);
        lemma_add_mod_noop(s, term, q);
        lemma_add_mod_noop(s % q, term, q);
        vstd::arithmetic::div_mod::lemma_mod_twice(s, q);
    } else {
        lemma_small_mod(0, p.q as nat);
    }
}

/// The terms of the verifier's inner product.
pub open spec fn rterm(p: Parameters, x: Seq<u64>, ys: Seq<u64>) -> spec_fn(int) -> int {
    |t: int| ys[t] * vx_coef(p, x, t)
}

/// `reduction_value` is the sum of its terms, reduced modulo `q`.
proof fn lemma_reduction_sum(p: Parameters, x: Seq<u64>, ys: Seq<u64>, n: nat)
    requires
        p.q > 0,
    ensures
        reduction_value(p, x, ys, n) == sum_of(rterm(p, x, ys), n) % (p.q as int),
    decreases n,
{
    if n > 0 {
        lemma_reduction_sum(p, x, ys, (n - 1) as nat);
        let q = p.q as int;
        let s = sum_of(rterm(p, x, ys), (n - 1) as nat);
        let term = rterm(p, x, ys)(n - 1);
        vstd::arithmetic::div_mod::lemma_mod_twice(term, q);
        lemma_add_mod_noop(s, term, q);
        lemma_add_mod_noop(s % q, term, q);
        vstd::arithmetic::div_mod::lemma_mod_twice(s, q);
    } else {
        lemma_small_mod(0, p.q as nat);
    }
}

/// Multiplying congruent integers by the same integer keeps them congruent.
proof fn lemma_mod_mul_congr(a: int, b: int, c: int, q: int)
    requires
        q > 0,
        a % q == b % q,
    ensures
        (a * c) % q == (b * c) % q,
        (c * a) % q == (c * b) % q,
{
    lemma_mul_mod_noop_left(a, c, q);
    lemma_mul_mod_noop_left(b, c, q);
    assert(c * a == a * c && c * b == b * c) by (nonlinear_arith);
}

/// The parameters of a round: `d = 2^10`, `l = r + m + 10`.
pub open spec fn round_params(p: Parameters) -> bool {
    &&& setup_ok(p.l as nat)
    &&& params_match(p, p.l as nat, p.decomp_witness)
}

/// `log d = 10`.
proof fn lemma_log_d(p: Parameters)
    requires
        p.d == 1024,
    ensures
        log_d(p) == 10,
{
    vstd::arithmetic::power2::lemma2_to64();
    assert(is_ceil_log2(1024, 10));
    lemma_ceil_log2_unique(1024, 10);
}

/// Term `(i 2^m + jj) d + t` of the evaluation.
pub open spec fn inner_e(p: Parameters, x: Seq<u64>, f: Seq<u64>, t: int, i: int) -> spec_fn(int) -> int {
    |jj: int| eterm(p, x, f)((i * pow2(p.m as nat) + jj) * p.d + t)
}

/// The same term as the verifier's inner product pairs it: `v_{x,t}` times `Y`'s term.
pub open spec fn inner_r(p: Parameters, x: Seq<u64>, f: Seq<u64>, t: int, i: int) -> spec_fn(int) -> int {
    scaled(vx_coef(p, x, t), yterm(p, x, f, t, i))
}

/// Each coefficient of the witness meets the same monomial modulo `q` in the evaluation and in
/// the verifier's inner product with `Y`.
proof fn lemma_term_congruent(p: Parameters, x: Seq<u64>, f: Seq<u64>, t: int, i: int, jj: int)
    requires
        round_params(p),
        x.len() >= p.l,
        f.len() >= pow2(p.l as nat),
        0 <= t < p.d,
        0 <= i < pow2(p.r as nat),
        0 <= jj < pow2(p.m as nat),
    ensures
        inner_e(p, x, f, t, i)(jj) % (p.q as int) == inner_r(p, x, f, t, i)(jj) % (p.q as int),
{
    let q = p.q as int;
    let (r, m, l) = (p.r as int, p.m as int, p.l as int);
    let (r2, m2) = (pow2(p.r as nat), pow2(p.m as nat));
    let d = p.d as int;
    vstd::arithmetic::power2::lemma2_to64();
    lemma_log_d(p);
    let x1 = x.subrange(r + m, l);
    let x2 = x.subrange(r, r + m);
    let x3 = x.subrange(0, r);
    assert(index_point(p, x) =~= x1 + (x2 + x3));
    assert(x.subrange(0, r + m) =~= x3 + x2);
    assert(x.subrange(l - log_d(p), l) =~= x1);
    let jj_i = jj + m2 * i;
    let k = (i * m2 + jj) * d + t;
    assert(k == t + pow2(10) * jj_i) by (nonlinear_arith)
        requires
            k == (i * m2 + jj) * d + t,
            jj_i == jj + m2 * i,
            d == 1024,
            pow2(10) == 1024,
    ;
    assert(k >= 0) by (nonlinear_arith)
        requires
            k == (i * m2 + jj) * d + t,
            i >= 0,
            m2 >= 0,
            jj >= 0,
            d >= 0,
            t >= 0,
    ;
    assert(jj_i >= 0) by (nonlinear_arith)
        requires
            jj_i == jj + m2 * i,
            i >= 0,
            m2 >= 0,
            jj >= 0,
    ;
    // the evaluation's monomial splits into those of the three groups of coordinates
    lemma_mlc_concat(x1, x2 + x3, t as nat, jj_i as nat, (m + r) as nat, q);
    lemma_mlc_concat(x2, x3, jj as nat, i as nat, r as nat, q);
    lemma_mlc_concat(x3, x2, i as nat, jj as nat, m as nat, q);
    let l1 = spec_multi_lin_coeff(x1, t as nat, 10, q);
    let l2 = spec_multi_lin_coeff(x2, jj as nat, m as nat, q);
    let l3 = spec_multi_lin_coeff(x3, i as nat, r as nat, q);
    let l23 = spec_multi_lin_coeff(x2 + x3, jj_i as nat, (m + r) as nat, q);
    let lip = spec_multi_lin_coeff(index_point(p, x), k as nat, p.l as nat, q);
    let ly = spec_multi_lin_coeff(x.subrange(0, r + m), (i + jj * r2) as nat, (r + m) as nat, q);
    assert(i + jj * r2 == i + r2 * jj) by (nonlinear_arith);
    assert((10 + (m + r)) as nat == p.l as nat);
    assert((r + m) as nat == (x3.len() + m) as nat);
    assert(lip % q == (l1 * l23) % q);
    assert(l23 % q == (l2 * l3) % q);
    assert(ly % q == (l3 * l2) % q);
    assert(vx_coef(p, x, t) == l1);
    // the coefficient of the witness is the same
    let c = m2 * d;
    vstd::arithmetic::power2::lemma_pow2_adds(p.r as nat, p.m as nat);
    vstd::arithmetic::power2::lemma_pow2_adds((p.r + p.m) as nat, 10);
    assert(p.l as nat == (p.r + p.m) as nat + 10);
    assert(i * c + c <= f.len()) by (nonlinear_arith)
        requires
            c == m2 * d,
            i < r2,
            f.len() >= pow2(p.l as nat),
            pow2(p.l as nat) == r2 * m2 * 1024,
            d == 1024,
            i >= 0,
            m2 >= 0,
    ;
    assert((jj + 1) * d <= m2 * d) by (nonlinear_arith)
        requires
            jj + 1 <= m2,
            d > 0,
    ;
    assert(jj * d + t < c) by (nonlinear_arith)
        requires
            c == m2 * d,
            (jj + 1) * d <= m2 * d,
            t < d,
    ;
    assert(jj * d + t >= 0) by (nonlinear_arith)
        requires
            jj >= 0,
            t >= 0,
            d >= 0,
    ;
    assert(i * c + (jj * d + t) == k) by (nonlinear_arith)
        requires
            c == m2 * d,
            k == (i * m2 + jj) * d + t,
    ;
    assert(chunk(p, f, i)[jj * d + t] == f[k]);
    let fk = f[k] as int;
    // both sides are l1 l2 l3 f_k modulo q
    lemma_mod_mul_congr(lip, l1 * l23, fk, q);
    lemma_mod_mul_congr(l23, l2 * l3, fk, q);
    lemma_mod_mul_congr(ly, l3 * l2, fk, q);
    lemma_mul_mod_noop_right(l1, l23 * fk, q);
    lemma_mul_mod_noop_right(l1, (l2 * l3) * fk, q);
    lemma_mul_mod_noop_right(l1, ly * fk, q);
    lemma_mul_mod_noop_right(l1, (l3 * l2) * fk, q);
    assert((l1 * l23) * fk == l1 * (l23 * fk)) by (nonlinear_arith);
    assert((l3 * l2) * fk == (l2 * l3) * fk) by (nonlinear_arith);
    assert(inner_e(p, x, f, t, i)(jj) == lip * fk);
    assert(inner_r(p, x, f, t, i)(jj) == l1 * (ly * fk));
}

/// `i -> sum_{jj < 2^m}` of the evaluation's terms.
pub open spec fn mid_e(p: Parameters, x: Seq<u64>, f: Seq<u64>, t: int) -> spec_fn(int) -> int {
    |i: int| sum_of(inner_e(p, x, f, t, i), pow2(p.m as nat))
}

/// `t -> sum_i sum_jj` of the evaluation's terms.
pub open spec fn outer_e(p: Parameters, x: Seq<u64>, f: Seq<u64>) -> spec_fn(int) -> int {
    |t: int| sum_of(mid_e(p, x, f, t), pow2(p.r as nat))
}

/// `i -> sum_{jj < 2^m}` of the inner product's terms.
pub open spec fn mid_r(p: Parameters, x: Seq<u64>, f: Seq<u64>, t: int) -> spec_fn(int) -> int {
    |i: int| sum_of(inner_r(p, x, f, t, i), pow2(p.m as nat))
}

/// `t -> sum_i sum_jj` of the inner product's terms.
pub open spec fn outer_r(p: Parameters, x: Seq<u64>, f: Seq<u64>) -> spec_fn(int) -> int {
    |t: int| sum_of(mid_r(p, x, f, t), pow2(p.r as nat))
}

/// The evaluation's terms laid out by `(u, t)`, coefficient index `u d + t`.
pub open spec fn grid(p: Parameters, x: Seq<u64>, f: Seq<u64>) -> spec_fn(int, int) -> int {
    |u: int, t: int| eterm(p, x, f)(u * p.d + t)
}

/// The sum over all coefficients, regrouped by ring coefficient `t`, chunk `i` and element `jj`.
proof fn lemma_regroup(p: Parameters, x: Seq<u64>, f: Seq<u64>)
    requires
        round_params(p),
    ensures
        sum_of(eterm(p, x, f), pow2(p.l as nat)) == sum_of(outer_e(p, x, f), p.d as nat),
{
    let (r2, m2) = (pow2(p.r as nat), pow2(p.m as nat));
    let d = p.d as nat;
    let u = r2 * m2;
    let g = eterm(p, x, f);
    let hh = grid(p, x, f);
    vstd::arithmetic::power2::lemma2_to64();
    vstd::arithmetic::power2::lemma_pow2_adds(p.r as nat, p.m as nat);
    vstd::arithmetic::power2::lemma_pow2_adds((p.r + p.m) as nat, 10);
    assert(p.l as nat == (p.r + p.m) as nat + 10);
    assert(pow2(p.l as nat) == u * d);
    lemma_sum_blocks(g, u, d);
    assert forall|uu: int| 0 <= uu < u implies #[trigger] blocks(g, d)(uu) == rows(hh, d)(uu) by {
        lemma_sum_ext(shifted(g, uu * d), row_fn(hh, uu), d);
    }
    lemma_sum_ext(blocks(g, d), rows(hh, d), u);
    lemma_sum_swap(hh, u, d);
    assert forall|t: int| 0 <= t < d implies #[trigger] cols(hh, u)(t) == outer_e(p, x, f)(t) by {
        let ct = col_fn(hh, t);
        lemma_sum_blocks(ct, r2, m2);
        assert forall|i: int| 0 <= i < r2 implies #[trigger] blocks(ct, m2)(i) == mid_e(p, x, f, t)(i) by {
            lemma_sum_ext(shifted(ct, i * m2), inner_e(p, x, f, t, i), m2);
        }
        lemma_sum_ext(blocks(ct, m2), mid_e(p, x, f, t), r2);
    }
    lemma_sum_ext(cols(hh, u), outer_e(p, x, f), d);
}

/// The inner product of `Y` with `v_x` and the regrouped sum agree modulo `q`.
proof fn lemma_inner_product(p: Parameters, x: Seq<u64>, f: Seq<u64>, ys: Seq<u64>)
    requires
        round_params(p),
        ys.len() == p.d,
        forall|t: int| 0 <= t < p.d ==> #[trigger] ys[t] == y_acc(p, x, f, t, pow2(p.r as nat), 0),
    ensures
        reduction_value(p, x, ys, p.d as nat) == sum_of(outer_r(p, x, f), p.d as nat) % (p.q as int),
{
    let q = p.q as int;
    let (r2, m2) = (pow2(p.r as nat), pow2(p.m as nat));
    vstd::arithmetic::power2::lemma2_to64();
    vstd::arithmetic::power2::lemma_pow2_pos(p.m as nat);
    lemma_reduction_sum(p, x, ys, p.d as nat);
    assert forall|t: int| 0 <= t < p.d implies #[trigger] rterm(p, x, ys)(t) % q == outer_r(p, x, f)(t) % q by {
        let vx = vx_coef(p, x, t);
        let c = sum_of(ychunks(p, x, f, t), r2);
        lemma_y_acc_sum(p, x, f, t, r2, 0);
        assert(ys[t] == c % q);
        lemma_mul_mod_noop_left(c, vx, q);
        assert(c * vx == vx * c) by (nonlinear_arith);
        assert forall|i: int| 0 <= i < r2 implies #[trigger] mid_r(p, x, f, t)(i) == scaled(vx, ychunks(p, x, f, t))(i) by {
            lemma_sum_scale(vx, yterm(p, x, f, t, i), m2);
        }
        lemma_sum_ext(mid_r(p, x, f, t), scaled(vx, ychunks(p, x, f, t)), r2);
        lemma_sum_scale(vx, ychunks(p, x, f, t), r2);
    }
    lemma_sum_congruent(rterm(p, x, ys), outer_r(p, x, f), p.d as nat, q);
}

/// The regrouped sums of the evaluation and of the inner product agree modulo `q`.
proof fn lemma_regrouped_congruent(p: Parameters, x: Seq<u64>, f: Seq<u64>)
    requires
        round_params(p),
        x.len() >= p.l,
        f.len() >= pow2(p.l as nat),
    ensures
        sum_of(outer_e(p, x, f), p.d as nat) % (p.q as int) == sum_of(outer_r(p, x, f), p.d as nat) % (p.q as int),
{
    let q = p.q as int;
    let (r2, m2) = (pow2(p.r as nat), pow2(p.m as nat));
    assert forall|t: int| 0 <= t < p.d implies #[trigger] outer_e(p, x, f)(t) % q == outer_r(p, x, f)(t) % q by {
        assert forall|i: int| 0 <= i < r2 implies #[trigger] mid_e(p, x, f, t)(i) % q == mid_r(p, x, f, t)(i) % q by {
            assert forall|jj: int| 0 <= jj < m2 implies #[trigger] inner_e(p, x, f, t, i)(jj) % q == inner_r(p, x, f, t, i)(jj) % q by {
                lemma_term_congruent(p, x, f, t, i, jj);
            }
            lemma_sum_congruent(inner_e(p, x, f, t, i), inner_r(p, x, f, t, i), m2, q);
        }
        lemma_sum_congruent(mid_e(p, x, f, t), mid_r(p, x, f, t), r2, q);
    }
    lemma_sum_congruent(outer_e(p, x, f), outer_r(p, x, f), p.d as nat, q);
}

/// The coefficients of `Y` the prover forms for the witness `f` at the point `x`.
pub open spec fn reduced_coeffs(p: Parameters, x: Seq<u64>, f: Seq<u64>) -> Seq<u64> {
    Seq::new(p.d as nat, |t: int| y_acc(p, x, f, t, pow2(p.r as nat), 0) as u64)
}

/// The reduction to `R_q` is complete: for every witness `f` of at least `2^l` values and every
/// point `x`, the ring element `Y` the prover forms passes the verifier's check
/// `y = <cf(Y), v_x> mod q` for the value `y` of the polynomial at `x`.
pub proof fn lemma_reduction_complete(p: Parameters, x: Seq<u64>, f: Seq<u64>)
    requires
        round_params(p),
        x.len() >= p.l,
        f.len() >= pow2(p.l as nat),
    ensures
        reduction_ok(p, x, evaluation(p, x, f, pow2(p.l as nat)) as u64, reduced_coeffs(p, x, f)),
{
    let q = p.q as int;
    let ys = reduced_coeffs(p, x, f);
    vstd::arithmetic::power2::lemma2_to64();
    vstd::arithmetic::power2::lemma_pow2_pos(p.l as nat);
    assert forall|t: int| 0 <= t < p.d implies #[trigger] ys[t] == y_acc(p, x, f, t, pow2(p.r as nat), 0) by {
        lemma_y_acc_sum(p, x, f, t, pow2(p.r as nat), 0);
        lemma_mod_bound(sum_of(ychunks(p, x, f, t), pow2(p.r as nat)) + sum_of(yterm(p, x, f, t, pow2(p.r as nat) as int), 0), q);
    }
    lemma_evaluation_sum(p, x, f, pow2(p.l as nat));
    lemma_mod_bound(sum_of(eterm(p, x, f), pow2(p.l as nat)), q);
    lemma_regroup(p, x, f);
    lemma_regrouped_congruent(p, x, f);
    lemma_inner_product(p, x, f, ys);
}

/// For every round the prover completes, the verifier's reduction check accepts the value of the
/// committed polynomial at the point: `Y` in the proof is the prover's reduction of the witness.
pub proof fn lemma_prover_reduction_accepted(
    pr: ProofRound,
    p: Parameters,
    x: Seq<u64>,
    com: CommitmentWithState,
    f: Seq<u64>,
)
    requires
        proof_of(pr, p, x, com, f),
        round_params(p),
        x.len() >= p.l,
        f.len() >= pow2(p.l as nat),
    ensures
        reduction_ok(p, x, evaluation(p, x, f, pow2(p.l as nat)) as u64, pr.y.vec@),
{
    lemma_reduction_complete(p, x, f);
    let ys = reduced_coeffs(p, x, f);
    assert forall|t: int| 0 <= t < p.d implies #[trigger] pr.y.vec@[t] == ys[t] by {
        crate::arithmetic::poly_vec::lemma_flat(0, t, p.d as int, 1);
        assert(pr.y.coeff(0, t) == pr.y.vec@[t]);
    }
    assert(pr.y.vec@ =~= ys);
}

/// On a proof the prover formed, the verifier accepts no value but the committed polynomial's
/// value at the point: whenever its checks pass for the claimed value `y` (for the challenges it
/// derives), `y` is that value.
pub proof fn lemma_accepted_value_is_evaluation(
    pr: ProofRound,
    p: Parameters,
    x: Seq<u64>,
    com: CommitmentWithState,
    f: Seq<u64>,
    y: u64,
    chals: Seq<PChal>,
)
    requires
        proof_of(pr, p, x, com, f),
        round_params(p),
        x.len() >= p.l,
        f.len() >= pow2(p.l as nat),
        verify_accepts(p, x, y, com.u, pr, chals),
    ensures
        y as int == evaluation(p, x, f, pow2(p.l as nat)),
{
    lemma_prover_reduction_accepted(pr, p, x, com, f);
    lemma_evaluation_sum(p, x, f, pow2(p.l as nat));
    vstd::arithmetic::power2::lemma2_to64();
    lemma_mod_bound(sum_of(eterm(p, x, f), pow2(p.l as nat)), p.q as int);
}

/// `k -> b_k w_k[t]`: the weight row `b^T G` of `M_alpha` gives chunk `k`, times coefficient `t`
/// of the folded chunk `w_k = sum_j a_j f_{k,j}`.
pub open spec fn bw(p: Parameters, x: Seq<u64>, f: Seq<u64>, t: int) -> spec_fn(int) -> int {
    |k: int| b_coef(p, x, k) * chunk_dot(p, x, f, k, t, pow2(p.m as nat))
}

/// `k -> a_k f_{i,k}[t]`.
pub open spec fn aterm(p: Parameters, x: Seq<u64>, f: Seq<u64>, i: int, t: int) -> spec_fn(int) -> int {
    |k: int| a_coef(p, x, k) * chunk(p, f, i)[k * p.d + t]
}

/// The folded chunk as a sum of its terms.
proof fn lemma_chunk_dot_sum(p: Parameters, x: Seq<u64>, f: Seq<u64>, i: int, t: int, n: nat)
    ensures
        chunk_dot(p, x, f, i, t, n) == sum_of(aterm(p, x, f, i, t), n),
    decreases n,
{
    if n > 0 {
        lemma_chunk_dot_sum(p, x, f, i, t, (n - 1) as nat);
    }
}

/// `Y` is `b^T w`, with the weights that the row `b^T G` of `M_alpha` holds: coefficient `t` of
/// `Y` is `sum_i b_i w_i[t] mod q`, where `b_i` is the monomial of the chunk variables `x[0..r]`
/// selected by the bits of `i` and `w_i = sum_j a_j f_{i,j}` is chunk `i` folded with the element
/// monomials. Row `2n` of the table of `M_alpha` holds `b_i b^j` at column `i delta + j`.
pub proof fn lemma_y_is_b_row_of_w(
    p: Parameters,
    x: Seq<u64>,
    f: Seq<u64>,
    t: int,
    chals: Seq<PChal>,
    pows: Seq<Fq4>,
    ma: Seq<u64>,
    mb: Seq<u64>,
    md: Seq<u64>,
)
    requires
        setup_ok(p.l as nat),
        params_match(p, p.l as nat, true),
        x.len() >= p.r + p.m,
    ensures
        y_acc(p, x, f, t, pow2(p.r as nat), 0) == sum_of(bw(p, x, f, t), pow2(p.r as nat)) % (p.q as int),
        forall|i: int, j: int| 0 <= i < pow2(p.r as nat) && 0 <= j < p.delta ==> #[trigger] m_entry(p, x, chals, pows, ma, mb,
            md, 2 * p.n, i * p.delta + j) == lift4(fq(b_coef(p, x, i) * gw(p, j))),
{
    let q = p.q as int;
    let r = p.r as nat;
    let m = p.m as nat;
    let a = x.subrange(0, r as int);
    let bs = x.subrange(r as int, (r + m) as int);
    assert(a + bs =~= x.subrange(0, (r + m) as int));
    assert(q > 0) by {
        crate::arithmetic::field::lemma_fq(0);
    }
    lemma_y_acc_sum(p, x, f, t, pow2(r), 0);
    assert forall|i: int| 0 <= i < pow2(r) implies #[trigger] ychunks(p, x, f, t)(i) % q == bw(p, x, f, t)(i) % q by {
        let bi = b_coef(p, x, i);
        let g1 = yterm(p, x, f, t, i);
        let g2 = scaled(bi, aterm(p, x, f, i, t));
        assert forall|jj: int| 0 <= jj < pow2(m) implies #[trigger] g1(jj) % q == g2(jj) % q by {
            let c = chunk(p, f, i)[jj * p.d + t] as int;
            let aj = a_coef(p, x, jj);
            lemma_mlc_concat(a, bs, i as nat, jj as nat, m, q);
            assert((i + jj * pow2(r)) as nat == i + pow2(a.len()) * (jj as nat)) by (nonlinear_arith)
                requires
                    a.len() == r,
                    0 <= i,
                    0 <= jj,
            ;
            let mono = spec_multi_lin_coeff(x.subrange(0, (p.r + p.m) as int), (i + jj * pow2(r)) as nat, (p.r + p.m) as nat, q);
            assert(mono % q == (bi * aj) % q);
            lemma_mul_mod_noop_left(mono, c, q);
            lemma_mul_mod_noop_left(bi * aj, c, q);
            assert((bi * aj) * c == bi * (aj * c)) by (nonlinear_arith);
        }
        lemma_sum_congruent(g1, g2, pow2(m), q);
        lemma_sum_scale(bi, aterm(p, x, f, i, t), pow2(m));
        lemma_chunk_dot_sum(p, x, f, i, t, pow2(m));
    }
    lemma_sum_congruent(ychunks(p, x, f, t), bw(p, x, f, t), pow2(r), q);
    lemma_mod_twice_sum(sum_of(ychunks(p, x, f, t), pow2(r)), q);
    // the row of the table
    assert forall|i: int, j: int| 0 <= i < pow2(r) && 0 <= j < p.delta implies #[trigger] m_entry(p, x, chals, pows, ma,
        mb, md, 2 * p.n, i * p.delta + j) == lift4(fq(b_coef(p, x, i) * gw(p, j))) by {
        let delta = p.delta as int;
        let col = i * delta + j;
        vstd::arithmetic::power2::lemma_pow2_pos(p.m as nat);
        assert(col < pow2(r) * delta) by (nonlinear_arith)
            requires
                col == i * delta + j,
                0 <= i < pow2(r),
                0 <= j < delta,
        ;
        assert(0 <= col) by (nonlinear_arith)
            requires
                col == i * delta + j,
                0 <= i,
                0 <= j,
                delta > 0,
        ;
        assert(pow2(r) * delta <= m_mu(p)) by (nonlinear_arith)
            requires
                p.width_d == pow2(r) * 8,
                delta == 8,
                p.width_b >= 0,
                p.width_a >= 0,
                p.delta_z >= 0,
                m_mu(p) == p.width_d + p.width_b + p.width_a * p.delta_z,
        ;
        vstd::arithmetic::div_mod::lemma_fundamental_div_mod_converse(col, delta, i, j);
    }
}

/// A sum reduced once more is unchanged.
proof fn lemma_mod_twice_sum(s: int, q: int)
    requires
        q > 0,
    ensures
        (s % q) % q == s % q,
{
    vstd::arithmetic::div_mod::lemma_mod_twice(s, q);
}

/// `k -> b_k w[k][t]` for the folded chunks `w` the prover holds.
pub open spec fn bw_vec(p: Parameters, x: Seq<u64>, w: PVec, t: int) -> spec_fn(int) -> int {
    |k: int| b_coef(p, x, k) * w.coeff(k, t)
}

/// The row `b^T` of `M_alpha` applied to the folded chunks `w` the prover computes (and sends as
/// the digits `w_hat`) gives `Y`: coefficient `t` of `Y` is `sum_i b_i w_i[t] mod q`.
pub proof fn lemma_b_row_applied_to_w(p: Parameters, x: Seq<u64>, f: Seq<u64>, w: PVec, t: int)
    requires
        setup_ok(p.l as nat),
        params_match(p, p.l as nat, true),
        x.len() >= p.r + p.m,
        folded_chunks(w, p, x, f),
        0 <= t < p.d,
    ensures
        y_acc(p, x, f, t, pow2(p.r as nat), 0) == sum_of(bw_vec(p, x, w, t), pow2(p.r as nat)) % (p.q as int),
{
    let q = p.q as int;
    lemma_y_is_b_row_of_w(p, x, f, t, Seq::empty(), Seq::empty(), Seq::empty(), Seq::empty(), Seq::empty());
    assert(q > 0) by {
        crate::arithmetic::field::lemma_fq(0);
    }
    assert forall|i: int| 0 <= i < pow2(p.r as nat) implies #[trigger] bw(p, x, f, t)(i) % q == bw_vec(p, x, w, t)(i) % q by {
        let cd = chunk_dot(p, x, f, i, t, pow2(p.m as nat));
        assert(w.coeff(i, t) == cd % q);
        lemma_mul_mod_noop_right(b_coef(p, x, i), cd, q);
    }
    lemma_sum_congruent(bw(p, x, f, t), bw_vec(p, x, w, t), pow2(p.r as nat), q);
}

} // verus!
