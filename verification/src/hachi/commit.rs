//! The commitment: the witness of `2^l` residues is read as `2^r` chunks `f_i` of `2^m` ring
//! elements; each chunk is gadget-decomposed, `s_i = G^{-1}(f_i)` (or taken as it is when the
//! witness is not decomposed), and committed to by `t_i = A s_i`; the inner commitments are
//! decomposed in turn, `t_hat = G^{-1}(t)`, and committed to by `u = B t_hat`. The products are
//! computed through the NTT of [`Ring::mat_mul_vec`].

use vstd::prelude::*;
use vstd::arithmetic::power::pow;
use vstd::arithmetic::power2::pow2;
use crate::arithmetic::poly_vec::{PVec, digit_col, digit_pos, flat, lemma_flat};
use crate::arithmetic::poly_mat::PMat;
use crate::arithmetic::poly_mat_ntt::PMatNtt;
use crate::arithmetic::ring::{Ring, ntt_entry, ntt32_fwd, pad, row_product, ntt_size_ok, acc_row, col_fwd};
use crate::arithmetic::utils::{is_balanced_digit, digits_value, window_rep, is_pow2, exp2_of, lemma_digits_unique};
use crate::hachi::Hachi;
use crate::hachi::common::{coeffs_at, seeded_mat, mats_fit};
use crate::hachi::setup::{Parameters, setup_ok, params_match};
use crate::stream::{Stream, SliceStream};

verus! {

/// The commitment `u` together with the prover's state `t` and `t_hat`.
pub struct CommitmentWithState {
    /// The inner commitments, `t_i` at elements `[i n, (i + 1) n)`.
    pub t: PVec,
    /// The digits of `t`: digit `k` of element `e` is element `e delta + k`.
    pub t_hat: PVec,
    /// The outer commitment `u = B t_hat`.
    pub u: PVec,
}

/// `dig` holds the balanced base-`b` digits of the first `len` elements of the flat vector
/// `src`: the digits of each coefficient recompose to its representative in the window.
pub open spec fn decomposes(dig: PVec, src: Seq<u64>, len: nat, p: Parameters) -> bool {
    &&& dig.wf()
    &&& dig.len == len * p.delta
    &&& dig.d == p.d
    &&& forall|i: int, j: int|
        0 <= i < len && 0 <= j < p.d ==> {
            let s = #[trigger] digit_col(dig.vec@, i, j, p.d as int, p.delta as int);
            &&& forall|k: int| 0 <= k < p.delta ==> is_balanced_digit(#[trigger] s[k], p.b as int)
            &&& digits_value(s, p.b as int) == window_rep(src[i * p.d + j] as int, p.q as int, p.b as int, p.delta as nat)
        }
}

/// `mn` is the NTT form (transform length `nout`) of the `h x w` matrix of `din` coefficients per
/// entry held in `coeffs`.
pub open spec fn ntt_of(mn: PMatNtt, coeffs: Seq<u64>, h: nat, w: nat, din: nat, nout: nat) -> bool {
    &&& mn.wf()
    &&& mn.height == h
    &&& mn.width == w
    &&& mn.vec.d == nout
    &&& forall|k: int, i: int, j: int|
        0 <= k < 5 && 0 <= i < h && 0 <= j < w ==> #[trigger] ntt_entry(mn, k, i, j) == ntt32_fwd(
            pad(coeffs_at(coeffs, w as int, din as int, i, j), nout),
        )[k]
}

/// Chunk `i` of the witness: `2^m` ring elements of `d` coefficients.
pub open spec fn chunk(p: Parameters, f: Seq<u64>, i: int) -> Seq<u64> {
    let c = pow2(p.m as nat) * p.d;
    f.subrange(i * c, i * c + c)
}

/// `s` is what chunk `i` is committed as: its digits, or the chunk itself.
pub open spec fn chunk_committed(s: PVec, p: Parameters, f: Seq<u64>, i: int) -> bool {
    if p.decomp_witness {
        decomposes(s, chunk(p, f, i), pow2(p.m as nat), p)
    } else {
        s.wf() && s.len == pow2(p.m as nat) && s.d == p.d && s.vec@ == chunk(p, f, i)
    }
}

/// The rows `t_i` of the inner commitment hold `A s` for the committed form `s` of chunk `i`.
pub open spec fn chunk_row_ok(t: PVec, a_ntt: PMatNtt, p: Parameters, f: Seq<u64>, i: int) -> bool {
    exists|s: PVec|
        {
            &&& #[trigger] chunk_committed(s, p, f, i)
            &&& forall|row: int| 0 <= row < p.n ==> t.elem(i * p.n + row) == row_product(a_ntt, s, row, p.d as nat, p.q as int)
        }
}

/// `c` is the commitment to the witness `f`: `t_i = A s_i` for the committed form `s_i` of every
/// chunk, `t_hat` the digits of `t`, and `u = B t_hat`, the products taken through the NTT forms of
/// the matrices regenerated from the seeds.
pub open spec fn commitment_of(c: CommitmentWithState, p: Parameters, f: Seq<u64>) -> bool {
    let n = p.n as nat;
    let chunks = pow2(p.r as nat);
    &&& c.t.wf() && c.t.len == n * chunks && c.t.d == p.d
    &&& c.u.wf() && c.u.len == n && c.u.d == p.d
    &&& decomposes(c.t_hat, c.t.vec@, n * chunks, p)
    &&& exists|a_ntt: PMatNtt|
        {
            &&& ntt_of(a_ntt, seeded_mat(p, p.a_seed@, p.width_a as int), n, p.width_a as nat, p.d as nat, p.d as nat)
            &&& forall|i: int| 0 <= i < chunks ==> #[trigger] chunk_row_ok(c.t, a_ntt, p, f, i)
        }
    &&& exists|b_ntt: PMatNtt|
        {
            &&& ntt_of(b_ntt, seeded_mat(p, p.b_seed@, p.width_b as int), n, p.width_b as nat, p.d as nat, p.d as nat)
            &&& forall|row: int| 0 <= row < n ==> #[trigger] c.u.elem(row) == row_product(b_ntt, c.t_hat, row, p.d as nat, p.q as int)
        }
}

/// Vectors of one shape whose elements are all equal hold the same coefficients.
proof fn lemma_elems_equal(v1: PVec, v2: PVec)
    requires
        v1.wf(),
        v2.wf(),
        v1.len == v2.len,
        v1.d == v2.d,
        forall|e: int| 0 <= e < v1.len ==> #[trigger] v1.elem(e) == v2.elem(e),
    ensures
        v1.vec@ == v2.vec@,
{
    let d = v1.d as int;
    vstd::arithmetic::power2::lemma_pow2_pos(v1.logd as nat);
    assert forall|k: int| 0 <= k < v1.vec@.len() implies #[trigger] v1.vec@[k] == v2.vec@[k] by {
        let e = k / d;
        let j = k % d;
        vstd::arithmetic::div_mod::lemma_fundamental_div_mod(k, d);
        vstd::arithmetic::div_mod::lemma_mod_bound(k, d);
        assert(0 <= e < v1.len) by (nonlinear_arith)
            requires
                0 <= k < v1.len * d,
                d > 0,
                e == k / d,
        ;
        lemma_flat(e, j, d, v1.len as int);
        assert(flat(e, j, d) == k) by (nonlinear_arith)
            requires
                k == d * (k / d) + k % d,
                e == k / d,
                j == k % d,
        ;
        assert(v1.elem(e)[j] == v1.vec@[k]);
        assert(v2.elem(e)[j] == v2.vec@[k]);
    }
    assert(v1.vec@ =~= v2.vec@);
}

/// The gadget decomposition is unique: two decompositions of one source hold the same digits.
pub proof fn lemma_decomposes_unique(d1: PVec, d2: PVec, src: Seq<u64>, len: nat, p: Parameters)
    requires
        decomposes(d1, src, len, p),
        decomposes(d2, src, len, p),
        p.b >= 2,
        p.b % 2 == 0,
    ensures
        d1.vec@ == d2.vec@,
{
    let d = p.d as int;
    let delta = p.delta as int;
    vstd::arithmetic::power2::lemma_pow2_pos(d1.logd as nat);
    assert forall|k: int| 0 <= k < d1.vec@.len() implies #[trigger] d1.vec@[k] == d2.vec@[k] by {
        let e = k / d;
        let j = k % d;
        let i = e / delta;
        let kk = e % delta;
        vstd::arithmetic::div_mod::lemma_fundamental_div_mod(k, d);
        vstd::arithmetic::div_mod::lemma_mod_bound(k, d);
        assert(0 <= e < len * delta) by (nonlinear_arith)
            requires
                0 <= k < (len * delta) * d,
                d > 0,
                e == k / d,
        ;
        assert(delta > 0) by (nonlinear_arith)
            requires
                0 <= e < len * delta,
        ;
        vstd::arithmetic::div_mod::lemma_fundamental_div_mod(e, delta);
        vstd::arithmetic::div_mod::lemma_mod_bound(e, delta);
        assert(0 <= i < len) by (nonlinear_arith)
            requires
                0 <= e < len * delta,
                delta > 0,
                i == e / delta,
        ;
        assert(digit_pos(i, j, kk, d, delta) == k) by (nonlinear_arith)
            requires
                k == d * (k / d) + k % d,
                e == delta * (e / delta) + e % delta,
                e == k / d,
                j == k % d,
                i == e / delta,
                kk == e % delta,
        ;
        let s1 = digit_col(d1.vec@, i, j, d, delta);
        let s2 = digit_col(d2.vec@, i, j, d, delta);
        lemma_digits_unique(s1, s2, p.b as int);
        assert(s1[kk] == s2[kk]);
    }
    assert(d1.vec@ =~= d2.vec@);
}

/// Row products agree for matrices with equal NTT entries and vectors with equal coefficients.
proof fn lemma_acc_row_same(m1: PMatNtt, m2: PMatNtt, v1: PVec, v2: PVec, row: int, k: int, n: nat, c: nat)
    requires
        forall|col: int| 0 <= col < c ==> #[trigger] ntt_entry(m1, k, row, col) == ntt_entry(m2, k, row, col),
        v1.vec@ == v2.vec@,
        v1.d == v2.d,
    ensures
        acc_row(m1, v1, row, k, n, c) == acc_row(m2, v2, row, k, n, c),
    decreases c,
{
    if c > 0 {
        lemma_acc_row_same(m1, m2, v1, v2, row, k, n, (c - 1) as nat);
        assert(col_fwd(v1, c - 1, n) == col_fwd(v2, c - 1, n)) by {
            assert(v1.elem(c - 1) == v2.elem(c - 1));
        }
        assert(ntt_entry(m1, k, row, c - 1) == ntt_entry(m2, k, row, c - 1));
    }
}

/// Two NTT forms of one matrix give the same row products, for vectors with equal coefficients.
pub(crate) proof fn lemma_row_product_same(
    m1: PMatNtt,
    m2: PMatNtt,
    coeffs: Seq<u64>,
    h: nat,
    w: nat,
    din: nat,
    nout: nat,
    v1: PVec,
    v2: PVec,
    row: int,
    n: nat,
    q: int,
)
    requires
        ntt_of(m1, coeffs, h, w, din, nout),
        ntt_of(m2, coeffs, h, w, din, nout),
        0 <= row < h,
        v1.vec@ == v2.vec@,
        v1.d == v2.d,
    ensures
        row_product(m1, v1, row, n, q) == row_product(m2, v2, row, n, q),
{
    assert forall|k: int| 0 <= k < 5 implies #[trigger] acc_row(m1, v1, row, k, n, m1.width as nat)
        == acc_row(m2, v2, row, k, n, m2.width as nat) by {
        lemma_acc_row_same(m1, m2, v1, v2, row, k, n, w);
    }
    assert(acc_row(m1, v1, row, 0, n, m1.width as nat) == acc_row(m2, v2, row, 0, n, m2.width as nat));
    assert(acc_row(m1, v1, row, 1, n, m1.width as nat) == acc_row(m2, v2, row, 1, n, m2.width as nat));
    assert(acc_row(m1, v1, row, 2, n, m1.width as nat) == acc_row(m2, v2, row, 2, n, m2.width as nat));
    assert(acc_row(m1, v1, row, 3, n, m1.width as nat) == acc_row(m2, v2, row, 3, n, m2.width as nat));
    assert(acc_row(m1, v1, row, 4, n, m1.width as nat) == acc_row(m2, v2, row, 4, n, m2.width as nat));
}

/// Committing is deterministic: two commitments to one witness under one set of parameters hold
/// the same inner commitments, the same digits of them and the same outer commitment.
pub proof fn lemma_commitment_deterministic(c1: CommitmentWithState, c2: CommitmentWithState, p: Parameters, f: Seq<u64>)
    requires
        commitment_of(c1, p, f),
        commitment_of(c2, p, f),
        setup_ok(p.l as nat),
        params_match(p, p.l as nat, p.decomp_witness),
    ensures
        c1.t.vec@ == c2.t.vec@,
        c1.t_hat.vec@ == c2.t_hat.vec@,
        c1.u.vec@ == c2.u.vec@,
{
    let n = p.n as nat;
    let chunks = pow2(p.r as nat);
    let (d, q) = (p.d as nat, p.q as int);
    let ca = seeded_mat(p, p.a_seed@, p.width_a as int);
    let cb = seeded_mat(p, p.b_seed@, p.width_b as int);
    let a1 = choose|a: PMatNtt|
        {
            &&& ntt_of(a, ca, n, p.width_a as nat, d, d)
            &&& forall|i: int| 0 <= i < chunks ==> #[trigger] chunk_row_ok(c1.t, a, p, f, i)
        };
    let a2 = choose|a: PMatNtt|
        {
            &&& ntt_of(a, ca, n, p.width_a as nat, d, d)
            &&& forall|i: int| 0 <= i < chunks ==> #[trigger] chunk_row_ok(c2.t, a, p, f, i)
        };
    assert forall|e: int| 0 <= e < c1.t.len implies #[trigger] c1.t.elem(e) == c2.t.elem(e) by {
        assert(chunk_row_ok(c1.t, a1, p, f, e));
        assert(chunk_row_ok(c2.t, a2, p, f, e));
        let s1 = choose|s: PVec|
            {
                &&& #[trigger] chunk_committed(s, p, f, e)
                &&& forall|row: int| 0 <= row < p.n ==> c1.t.elem(e * p.n + row) == row_product(a1, s, row, d, q)
            };
        let s2 = choose|s: PVec|
            {
                &&& #[trigger] chunk_committed(s, p, f, e)
                &&& forall|row: int| 0 <= row < p.n ==> c2.t.elem(e * p.n + row) == row_product(a2, s, row, d, q)
            };
        if p.decomp_witness {
            lemma_decomposes_unique(s1, s2, chunk(p, f, e), pow2(p.m as nat), p);
        }
        lemma_row_product_same(a1, a2, ca, n, p.width_a as nat, d, d, s1, s2, 0, d, q);
        assert(c1.t.elem(e * 1 + 0) == row_product(a1, s1, 0, d, q));
        assert(c2.t.elem(e * 1 + 0) == row_product(a2, s2, 0, d, q));
        assert(e * 1 + 0 == e);
    }
    lemma_elems_equal(c1.t, c2.t);
    lemma_decomposes_unique(c1.t_hat, c2.t_hat, c1.t.vec@, n * chunks, p);
    let b1 = choose|b: PMatNtt|
        {
            &&& ntt_of(b, cb, n, p.width_b as nat, d, d)
            &&& forall|row: int| 0 <= row < n ==> #[trigger] c1.u.elem(row) == row_product(b, c1.t_hat, row, d, q)
        };
    let b2 = choose|b: PMatNtt|
        {
            &&& ntt_of(b, cb, n, p.width_b as nat, d, d)
            &&& forall|row: int| 0 <= row < n ==> #[trigger] c2.u.elem(row) == row_product(b, c2.t_hat, row, d, q)
        };
    assert forall|row: int| 0 <= row < c1.u.len implies #[trigger] c1.u.elem(row) == c2.u.elem(row) by {
        lemma_row_product_same(b1, b2, cb, n, p.width_b as nat, d, d, c1.t_hat, c2.t_hat, row, d, q);
    }
    lemma_elems_equal(c1.u, c2.u);
}

/// The first `2^l` values of the witness are residues.
pub open spec fn residue_witness(p: Parameters, f: Seq<u64>) -> bool {
    forall|t: int| 0 <= t < pow2(p.l as nat) ==> #[trigger] f[t] < p.q
}

/// The parameters and witness a commitment can be formed for: parameters from setup, matrices
/// that fit in memory, and at least `2^l` values, residues where they are decomposed (without
/// decomposition any value, wrapping-signed ones included, is taken as it is).
pub open spec fn commit_inputs(p: Parameters, f: Seq<u64>) -> bool {
    &&& setup_ok(p.l as nat)
    &&& params_match(p, p.l as nat, p.decomp_witness)
    &&& mats_fit(p)
    &&& f.len() >= pow2(p.l as nat)
    &&& p.decomp_witness ==> residue_witness(p, f)
}

/// The coefficients of a product row are residues.
pub(crate) proof fn lemma_row_product_bound(m: PMatNtt, v: PVec, row: int, n: nat, q: int)
    requires
        q > 0,
    ensures
        forall|t: int| 0 <= t < row_product(m, v, row, n, q).len() ==> #[trigger] row_product(m, v, row, n, q)[t] < q,
{
    assert forall|t: int| 0 <= t < row_product(m, v, row, n, q).len() implies #[trigger] row_product(m, v, row, n, q)[t] < q by {
        let x = crate::arithmetic::ring::ntt32_inv(crate::arithmetic::ring::normalized5(seq![
            crate::arithmetic::ring::acc_row(m, v, row, 0, n, m.width as nat),
            crate::arithmetic::ring::acc_row(m, v, row, 1, n, m.width as nat),
            crate::arithmetic::ring::acc_row(m, v, row, 2, n, m.width as nat),
            crate::arithmetic::ring::acc_row(m, v, row, 3, n, m.width as nat),
            crate::arithmetic::ring::acc_row(m, v, row, 4, n, m.width as nat),
        ], n as int));
        vstd::arithmetic::div_mod::lemma_mod_bound(crate::arithmetic::utils::signed(x[t]), q);
    }
}

/// A vector whose elements all hold residues holds residues throughout.
pub(crate) proof fn lemma_residues(v: PVec, q: int)
    requires
        v.wf(),
        forall|e: int, j: int| 0 <= e < v.len && 0 <= j < v.d ==> #[trigger] v.elem(e)[j] < q,
    ensures
        forall|k: int| 0 <= k < v.vec@.len() ==> #[trigger] v.vec@[k] < q,
{
    assert forall|k: int| 0 <= k < v.vec@.len() implies #[trigger] v.vec@[k] < q by {
        vstd::arithmetic::power2::lemma_pow2_pos(v.logd as nat);
        let d = v.d as int;
        let e = k / d;
        let j = k % d;
        vstd::arithmetic::div_mod::lemma_fundamental_div_mod(k, d);
        assert(0 <= e < v.len) by (nonlinear_arith)
            requires
                0 <= k < v.len * d,
                d > 0,
                e == k / d,
        ;
        assert(e * d + j == k) by (nonlinear_arith)
            requires
                k == d * (k / d) + k % d,
                e == k / d,
                j == k % d,
        ;
        vstd::arithmetic::div_mod::lemma_mod_bound(k, d);
        assert(e * d + d <= v.len * d) by (nonlinear_arith)
            requires
                e < v.len,
                d > 0,
        ;
        assert(v.elem(e)[j] == v.vec@[e * d + j]);
    }
}

proof fn lemma_pow16_8()
    ensures
        pow(16, 8) == 0x1_0000_0000,
{
    reveal_with_fuel(pow, 9);
}

/// The commitment to a witness read from a stream positioned at its start.
pub fn commit_stream<S: Stream<u64>>(witness: &mut S, params: &Parameters) -> (c: CommitmentWithState)
    requires
        commit_inputs(*params, old(witness).contents()),
        old(witness).position() == 0,
    ensures
        commitment_of(c, *params, old(witness).contents()),
        final(witness).contents() == old(witness).contents(),
{
    let ghost p = *params;
    let ghost f = witness.contents();
    proof {
        vstd::arithmetic::power2::lemma2_to64();
        vstd::bits::lemma_u64_shl_is_mul(1, params.r as u64);
        vstd::bits::lemma_u64_shl_is_mul(1, params.m as u64);
        vstd::arithmetic::power2::lemma_pow2_adds(p.r as nat, p.m as nat);
        vstd::arithmetic::power2::lemma_pow2_adds((p.r + p.m) as nat, 10);
        assert(is_pow2(p.d as nat)) by {
            assert(10 < 64 && p.d == pow2(10));
        }
        assert(ntt_size_ok(p.d as nat)) by {
            assert(5 <= 10 <= 15 && p.d == pow2(10));
        }
        if p.m < p.r {
            vstd::arithmetic::power2::lemma_pow2_strictly_increases(p.m as nat, p.r as nat);
        }
        lemma_pow16_8();
        assert(is_pow2(16)) by {
            assert(4 < 64 && 16 == pow2(4));
        }
    }
    let ring = Ring::init(params.q, params.d, true);
    let pow_r = (1u64 << (params.r as u64)) as usize;
    let pow_m = (1u64 << (params.m as u64)) as usize;
    let chunk_len = pow_m * params.d;
    proof {
        let (a, b, c) = (pow2(p.r as nat), pow2(p.m as nat), pow2(10));
        assert(a * (b * c) == (a * b) * c) by (nonlinear_arith);
    }
    let mut t = PVec::zero(params.n * pow_r, params.d);
    let mut t_hat = PVec::zero(t.length() * params.delta, params.d);
    let mut u = PVec::zero(params.n, params.d);
    let mat_a = PMat::rand(params.n, params.width_a, params.d, params.q, params.a_seed);
    let mut mat_a_ntt = PMatNtt::zero(params.n, params.width_a, params.d);
    ring.mat_fwd_ntt(&mat_a, &mut mat_a_ntt);
    proof {
        assert(ntt_of(mat_a_ntt, seeded_mat(p, p.a_seed@, p.width_a as int), p.n as nat, p.width_a as nat, p.d as nat, p.d as nat));
    }
    let mut f_i = PVec::zero(pow_m, params.d);
    let mut s_i = PVec::zero(pow_m * params.delta, params.d);
    let mut i: usize = 0;
    while i < pow_r
        invariant
            0 <= i <= pow_r,
            *params == p,
            commit_inputs(p, f),
            pow_r == pow2(p.r as nat),
            pow_m == pow2(p.m as nat),
            chunk_len == pow_m * p.d,
            pow_r * chunk_len == pow2(p.l as nat),
            is_pow2(p.b as nat),
            pow(p.b as int, p.delta as nat) == 0x1_0000_0000,
            ring.wf() && ring.q == p.q && ring.input_dim == p.d && ring.cyclotomic && ring.output_dim == p.d,
            witness.contents() == f,
            witness.position() == i * chunk_len,
            t.wf() && t.len == p.n * pow_r && t.d == p.d,
            f_i.wf() && f_i.len == pow_m && f_i.d == p.d,
            s_i.wf() && s_i.len == pow_m * p.delta && s_i.d == p.d,
            ntt_of(mat_a_ntt, seeded_mat(p, p.a_seed@, p.width_a as int), p.n as nat, p.width_a as nat, p.d as nat, p.d as nat),
            forall|i2: int| 0 <= i2 < i ==> #[trigger] chunk_row_ok(t, mat_a_ntt, p, f, i2),
            forall|e: int, j: int| 0 <= e < i * p.n && 0 <= j < p.d ==> #[trigger] t.elem(e)[j] < p.q,
        decreases pow_r - i,
    {
        assert(i * chunk_len + chunk_len <= pow_r * chunk_len) by (nonlinear_arith)
            requires
                i + 1 <= pow_r,
        ;
        witness.read(f_i.mut_slice());
        proof {
            assert((i + 1) * chunk_len == i * chunk_len + chunk_len) by (nonlinear_arith);
            assert(f_i.vec@ == chunk(p, f, i as int));
            if p.decomp_witness {
                assert forall|k: int| 0 <= k < f_i.vec@.len() implies #[trigger] f_i.vec@[k] < p.q by {
                    assert(f_i.vec@[k] == f[i * chunk_len + k]);
                }
            }
        }
        let ghost t_before = t;
        if params.decomp_witness {
            f_i.b_decomp_zq(params.q, params.b, params.delta, &mut s_i);
            ring.mat_mul_vec(&mat_a_ntt, &s_i, &mut t, i * params.n);
            proof {
                assert(chunk_committed(s_i, p, f, i as int));
            }
        } else {
            ring.mat_mul_vec(&mat_a_ntt, &f_i, &mut t, i * params.n);
            proof {
                assert(chunk_committed(f_i, p, f, i as int));
            }
        }
        proof {
            let s = if p.decomp_witness { s_i } else { f_i };
            assert(chunk_committed(s, p, f, i as int));
            lemma_row_product_bound(mat_a_ntt, s, 0, p.d as nat, p.q as int);
            assert forall|e: int, j: int| 0 <= e < (i + 1) * p.n && 0 <= j < p.d implies #[trigger] t.elem(e)[j] < p.q by {
                if e < i * p.n {
                    assert(t.elem(e) == t_before.elem(e));
                } else {
                    assert(t.elem(i * p.n + 0) == row_product(mat_a_ntt, s, 0, p.d as nat, p.q as int));
                    assert(e == i * p.n + 0);
                }
            }
            assert forall|i2: int| 0 <= i2 < i + 1 implies #[trigger] chunk_row_ok(t, mat_a_ntt, p, f, i2) by {
                if i2 < i {
                    assert(chunk_row_ok(t_before, mat_a_ntt, p, f, i2));
                    let s2 = choose|s2: PVec|
                        {
                            &&& #[trigger] chunk_committed(s2, p, f, i2)
                            &&& forall|row: int| 0 <= row < p.n ==> t_before.elem(i2 * p.n + row) == row_product(mat_a_ntt, s2, row, p.d as nat, p.q as int)
                        };
                    assert(chunk_committed(s2, p, f, i2));
                } else {
                    assert(chunk_committed(s, p, f, i2));
                }
            }
        }
        i = i + 1;
    }
    let ghost a_ntt = mat_a_ntt;
    let mat_b_ntt = if params.reuse_mats {
        mat_a_ntt
    } else {
        let mat_b = PMat::rand(params.n, params.width_b, params.d, params.q, params.b_seed);
        let mut mat_b_ntt = PMatNtt::zero(params.n, params.width_b, params.d);
        ring.mat_fwd_ntt(&mat_b, &mut mat_b_ntt);
        mat_b_ntt
    };
    proof {
        lemma_residues(t, p.q as int);
        assert(ntt_of(mat_b_ntt, seeded_mat(p, p.b_seed@, p.width_b as int), p.n as nat, p.width_b as nat, p.d as nat, p.d as nat));
    }
    t.b_decomp_zq(params.q, params.b, params.delta, &mut t_hat);
    ring.mat_mul_vec(&mat_b_ntt, &t_hat, &mut u, 0);
    let c = CommitmentWithState { t, t_hat, u };
    proof {
        assert(forall|i: int| 0 <= i < pow2(p.r as nat) ==> #[trigger] chunk_row_ok(c.t, a_ntt, p, f, i));
        assert(ntt_of(a_ntt, seeded_mat(p, p.a_seed@, p.width_a as int), p.n as nat, p.width_a as nat, p.d as nat, p.d as nat));
        assert(decomposes(c.t_hat, c.t.vec@, (p.n * pow2(p.r as nat)) as nat, p));
        assert forall|row: int| 0 <= row < p.n implies #[trigger] c.u.elem(row) == row_product(mat_b_ntt, c.t_hat, row, p.d as nat, p.q as int) by {
            assert(c.u.elem(0 + row) == row_product(mat_b_ntt, c.t_hat, row, p.d as nat, p.q as int));
        }
    }
    c
}

/// The commitment to a witness held in memory.
fn commit_slice(witness: &[u64], params: &Parameters) -> (c: CommitmentWithState)
    requires
        commit_inputs(*params, witness@),
    ensures
        commitment_of(c, *params, witness@),
{
    let mut stream = SliceStream::new(witness);
    commit_stream(&mut stream, params)
}

/// Commitment to a witness given as `T`.
pub trait Commit<T> {
    /// The witness and parameters a commitment can be formed for.
    spec fn commit_requires(witness: T, params: Parameters) -> bool;

    /// The coefficients the witness holds.
    spec fn witness_values(witness: T) -> Seq<u64>;

    /// Commit to the witness with the public parameters `params`.
    fn commit(witness: T, params: &Parameters) -> (c: CommitmentWithState)
        requires
            Self::commit_requires(witness, *params),
        ensures
            commitment_of(c, *params, Self::witness_values(witness)),
    ;
}

impl<'a, S: Stream<u64>> Commit<&'a mut S> for Hachi {
    open spec fn commit_requires(witness: &'a mut S, params: Parameters) -> bool {
        commit_inputs(params, witness.contents()) && witness.position() == 0
    }

    open spec fn witness_values(witness: &'a mut S) -> Seq<u64> {
        witness.contents()
    }

    fn commit(witness: &'a mut S, params: &Parameters) -> (c: CommitmentWithState) {
        commit_stream(witness, params)
    }
}

impl<'a> Commit<&'a [u64]> for Hachi {
    open spec fn commit_requires(witness: &'a [u64], params: Parameters) -> bool {
        commit_inputs(params, witness@)
    }

    open spec fn witness_values(witness: &'a [u64]) -> Seq<u64> {
        witness@
    }

    fn commit(witness: &'a [u64], params: &Parameters) -> (c: CommitmentWithState) {
        commit_slice(witness, params)
    }
}

impl<'a> Commit<&'a PVec> for Hachi {
    open spec fn commit_requires(witness: &'a PVec, params: Parameters) -> bool {
        commit_inputs(params, witness.vec@)
    }

    open spec fn witness_values(witness: &'a PVec) -> Seq<u64> {
        witness.vec@
    }

    fn commit(witness: &'a PVec, params: &Parameters) -> (c: CommitmentWithState) {
        commit_slice(witness.slice(), params)
    }
}

} // verus!
