//! Multiplication over `R_q = Z_q[X]/(X^d + 1)` (cyclotomic mode) and over `Z_q[X]` (full
//! mode): scalar and sparse-challenge products computed directly, and matrix-vector products
//! through the 64-bit native NTT of tfhe-ntt (five primes below `2^30`, exact product under
//! wrapping 64-bit arithmetic, reduced modulo `q` afterwards).

use vstd::prelude::*;
use vstd::arithmetic::div_mod::*;
use crate::arithmetic::poly_chal::{PChal, entry_exp, entry_sign};
use crate::arithmetic::poly_vec::{PVec, flat, lemma_flat, lemma_replace_elem};
use crate::arithmetic::utils::{two64, signed};
use crate::arithmetic::poly_vec_ntt::{PVecNtt, zeros_u32};
use crate::arithmetic::poly_mat::PMat;
use crate::arithmetic::poly_mat_ntt::PMatNtt;
use tfhe_ntt::native64::Plan32;

verus! {

/// Arithmetic over `R_q` (cyclotomic mode, inputs and outputs of length `d`) or over `Z_q[X]`
/// (full mode, inputs of length `d`, outputs of length `2d`).
pub struct Ring {
    /// The modulus `q`.
    pub q: u64,
    /// Length `d` of every input polynomial.
    pub input_dim: usize,
    /// Transform length and length of every output polynomial: `d` or `2d`.
    pub output_dim: usize,
    /// `true` for `R_q`, `false` for `Z_q[X]`.
    pub cyclotomic: bool,
}

/// The transform lengths for which the five-prime negacyclic NTT plan exists.
pub open spec fn ntt_size_ok(n: nat) -> bool {
    exists|k: nat| 5 <= k <= 15 && n == vstd::arithmetic::power2::pow2(k)
}

impl Ring {
    /// Well-formed: the output length is `d` in cyclotomic mode and `2d` in full mode, a valid
    /// NTT size, and `0 < q < 2^63`.
    pub open spec fn wf(&self) -> bool {
        &&& self.output_dim == (if self.cyclotomic { self.input_dim as int } else { 2 * self.input_dim })
        &&& ntt_size_ok(self.output_dim as nat)
        &&& 0 < self.q < 0x8000_0000_0000_0000
    }

    /// The ring of modulus `q` and dimension `d`, in cyclotomic or full mode.
    pub fn init(q: u64, d: usize, cyclotomic: bool) -> (r: Self)
        requires
            ntt_size_ok((if cyclotomic { d as int } else { 2 * d }) as nat),
            0 < q < 0x8000_0000_0000_0000,
        ensures
            r.wf(),
            r.q == q,
            r.input_dim == d,
            r.cyclotomic == cyclotomic,
    {
        proof {
            let k = choose|k: nat| 5 <= k <= 15 && (if cyclotomic { d as int } else { 2 * d }) == vstd::arithmetic::power2::pow2(k);
            vstd::arithmetic::power2::lemma_pow2_strictly_increases(k, 16);
            vstd::arithmetic::power2::lemma2_to64();
            assert(vstd::arithmetic::power2::pow2(16) == 0x10000) by {
                vstd::arithmetic::power2::lemma2_to64();
            }
        }
        let output_dim = if cyclotomic { d } else { 2 * d };
        Ring { q, input_dim: d, output_dim, cyclotomic }
    }
}

/// The contribution of the challenge coefficient `sign * X^e` times `poly` to coefficient `t`
/// of the product: `+-poly[t - e]` when `X^{e + (t - e)}` lands at `t`; in cyclotomic mode a
/// monomial that wraps past `X^d` lands at `t` with the opposite sign.
pub open spec fn sparse_term(e: int, sign: bool, poly: Seq<u64>, t: int, d: int, cyclotomic: bool) -> int {
    if e <= t < e + d {
        if sign { poly[t - e] as int } else { -(poly[t - e] as int) }
    } else if cyclotomic && t < e && e - d <= t {
        if sign { -(poly[t - e + d] as int) } else { poly[t - e + d] as int }
    } else {
        0
    }
}

/// The sum of the contributions of the first `n` entries of a challenge to coefficient `t`.
pub open spec fn sparse_sum(coeffs: Seq<u32>, poly: Seq<u64>, t: int, d: int, cyclotomic: bool, n: nat) -> int
    decreases n,
{
    if n == 0 {
        0
    } else {
        sparse_sum(coeffs, poly, t, d, cyclotomic, (n - 1) as nat)
            + sparse_term(entry_exp(coeffs[n - 1]) as int, entry_sign(coeffs[n - 1]), poly, t, d, cyclotomic)
    }
}

/// Where the product of `X^e` and `X^j` lands: `e + j`, wrapped below `d` in cyclotomic mode.
pub open spec fn land(e: int, j: int, d: int, cyclotomic: bool) -> int {
    if cyclotomic && e + j >= d {
        e + j - d
    } else {
        e + j
    }
}

/// The source coefficient landing at `t`, if any.
pub open spec fn source(e: int, t: int, d: int, cyclotomic: bool) -> int {
    if e <= t {
        t - e
    } else {
        t - e + d
    }
}

/// The valid NTT sizes lie between `2^5` and `2^15`.
pub proof fn lemma_ntt_size_bound(n: nat)
    requires
        ntt_size_ok(n),
    ensures
        32 <= n <= 0x8000,
{
    let k = choose|k: nat| 5 <= k <= 15 && n == vstd::arithmetic::power2::pow2(k);
    vstd::arithmetic::power2::lemma2_to64();
    if k < 15 {
        vstd::arithmetic::power2::lemma_pow2_strictly_increases(k, 15);
    }
    if k > 5 {
        vstd::arithmetic::power2::lemma_pow2_strictly_increases(5, k);
    }
}

/// `land` and `source` are inverse to each other on the output range.
proof fn lemma_land_source(e: int, j: int, d: int, cyclotomic: bool, n_out: int)
    requires
        0 <= e < d,
        0 <= j < d,
        n_out == (if cyclotomic { d } else { 2 * d }),
    ensures
        0 <= land(e, j, d, cyclotomic) < n_out,
        source(e, land(e, j, d, cyclotomic), d, cyclotomic) == j,
        land(e, j, d, cyclotomic) >= e ==> land(e, j, d, cyclotomic) < e + d,
        land(e, j, d, cyclotomic) < e ==> cyclotomic && e - d <= land(e, j, d, cyclotomic),
{
}

impl Ring {
    /// `out[j] <- (out[j] + a * poly[j]) mod q` for `j < d`, in 128-bit arithmetic; the other
    /// entries of `out` are untouched.
    pub fn int_mul_poly(&self, a: u64, poly: &[u64], out: &mut [u64])
        requires
            self.wf(),
            poly@.len() == self.input_dim,
            old(out)@.len() == self.output_dim,
        ensures
            final(out)@.len() == self.output_dim,
            forall|j: int| 0 <= j < self.input_dim ==> #[trigger] final(out)@[j] as int == (old(out)@[j] + a * poly@[j]) % (self.q as int),
            forall|j: int| self.input_dim <= j < self.output_dim ==> #[trigger] final(out)@[j] == old(out)@[j],
    {
        let mut i: usize = 0;
        while i < self.input_dim
            invariant
                self.wf(),
                poly@.len() == self.input_dim,
                out@.len() == self.output_dim,
                0 <= i <= self.input_dim,
                forall|j: int| 0 <= j < i ==> #[trigger] out@[j] as int == (old(out)@[j] + a * poly@[j]) % (self.q as int),
                forall|j: int| i <= j < self.output_dim ==> #[trigger] out@[j] == old(out)@[j],
            decreases self.input_dim - i,
        {
            proof {
                assert(a * poly@[i as int] <= 0xffff_ffff_ffff_ffff * 0xffff_ffff_ffff_ffff) by (nonlinear_arith)
                    requires
                        a <= 0xffff_ffff_ffff_ffff,
                        poly@[i as int] <= 0xffff_ffff_ffff_ffff,
                ;
            }
            let v = ((out[i] as u128 + (a as u128) * (poly[i] as u128)) % (self.q as u128)) as u64;
            out[i] = v;
            i = i + 1;
        }
    }
}


/// Coefficient `t` lies where the monomial `X^e` times some coefficient of `poly` lands.
pub open spec fn in_region(e: int, t: int, d: int, cyclotomic: bool) -> bool {
    (e <= t < e + d) || (cyclotomic && t < e && e - d <= t)
}

/// `((x mod q) + y) mod q == (x + y) mod q`.
proof fn lemma_mod_acc(x: int, y: int, q: int)
    requires
        q > 0,
    ensures
        ((x % q) + y) % q == (x + y) % q,
{
    lemma_add_mod_noop(x, y, q);
    lemma_mod_twice(x, q);
    lemma_add_mod_noop(x % q, y, q);
}

impl Ring {
    /// Sparse product `out <- out + c * poly` over `Z_q` for a challenge `c`: every nonzero
    /// coefficient `+-X^e` of `c` adds or subtracts the copy of `poly` shifted by `e` (wrapping
    /// past `X^d` with a sign flip in cyclotomic mode), modulo `q`.
    pub fn chal_mul_poly(&self, chal: &PChal, poly: &[u64], out: &mut [u64])
        requires
            self.wf(),
            poly@.len() == self.input_dim,
            old(out)@.len() == self.output_dim,
            forall|j: int| 0 <= j < poly@.len() ==> #[trigger] poly@[j] < self.q,
            forall|t: int| 0 <= t < old(out)@.len() ==> #[trigger] old(out)@[t] < self.q,
            forall|i: int| 0 <= i < chal.coeffs@.len() ==> entry_exp(#[trigger] chal.coeffs@[i]) < self.input_dim,
        ensures
            final(out)@.len() == self.output_dim,
            forall|t: int| 0 <= t < self.output_dim ==> #[trigger] final(out)@[t] as int == (old(out)@[t]
                + sparse_sum(chal.coeffs@, poly@, t, self.input_dim as int, self.cyclotomic, chal.coeffs@.len())) % (self.q as int),
    {
        let d = self.input_dim;
        let q = self.q;
        let n_out = self.output_dim;
        let ghost cyc = self.cyclotomic;
        let mut i: usize = 0;
        proof {
            lemma_ntt_size_bound(n_out as nat);
            assert forall|t: int| 0 <= t < n_out implies #[trigger] out@[t] as int == (old(out)@[t]
                + sparse_sum(chal.coeffs@, poly@, t, d as int, cyc, 0)) % (q as int) by {
                lemma_small_mod(out@[t] as nat, q as nat);
            }
        }
        while i < chal.k()
            invariant
                self.wf(),
                d == self.input_dim,
                q == self.q,
                n_out == self.output_dim,
                cyc == self.cyclotomic,
                poly@.len() == d,
                out@.len() == n_out,
                d <= 0x8000,
                0 <= i <= chal.coeffs@.len(),
                forall|j: int| 0 <= j < poly@.len() ==> #[trigger] poly@[j] < q,
                forall|i2: int| 0 <= i2 < chal.coeffs@.len() ==> entry_exp(#[trigger] chal.coeffs@[i2]) < d,
                forall|t: int| 0 <= t < n_out ==> #[trigger] out@[t] as int == (old(out)@[t]
                    + sparse_sum(chal.coeffs@, poly@, t, d as int, cyc, i as nat)) % (q as int),
            decreases chal.coeffs@.len() - i,
        {
            let (e, sign0) = chal.get(i);
            let ghost prev = out@;
            proof {
                assert(entry_exp(chal.coeffs@[i as int]) < d);
            }
            let mut j: usize = 0;
            while j < d
                invariant
                    self.wf(),
                    d == self.input_dim,
                    q == self.q,
                    n_out == self.output_dim,
                    cyc == self.cyclotomic,
                    poly@.len() == d,
                    out@.len() == n_out,
                    prev.len() == n_out,
                    d <= 0x8000,
                    e < d,
                    0 <= j <= d,
                    forall|jj: int| 0 <= jj < poly@.len() ==> #[trigger] poly@[jj] < q,
                    forall|t: int| 0 <= t < n_out ==> #[trigger] prev[t] < q,
                    forall|t: int| 0 <= t < n_out ==> #[trigger] out@[t] as int == (if in_region(e as int, t, d as int, cyc)
                        && source(e as int, t, d as int, cyc) < j {
                        (prev[t] + sparse_term(e as int, sign0, poly@, t, d as int, cyc)) % (q as int)
                    } else {
                        prev[t] as int
                    }),
                decreases d - j,
            {
                let mut exp = e + j;
                let mut sign = sign0;
                if self.cyclotomic && exp >= d {
                    exp = exp - d;
                    sign = !sign;
                }
                proof {
                    lemma_land_source(e as int, j as int, d as int, cyc, n_out as int);
                    assert(exp == land(e as int, j as int, d as int, cyc));
                    assert(!(in_region(e as int, exp as int, d as int, cyc) && source(e as int, exp as int, d as int, cyc) < j));
                    assert(out@[exp as int] == prev[exp as int]);
                }
                let pj = poly[j];
                let cur = out[exp];
                let nv = if sign {
                    let s = cur + pj;
                    if s >= q { s - q } else { s }
                } else {
                    if cur >= pj { cur - pj } else { (cur + q) - pj }
                };
                proof {
                    let st = sparse_term(e as int, sign0, poly@, exp as int, d as int, cyc);
                    if exp as int >= e {
                        assert(st == (if sign0 { pj as int } else { -(pj as int) }));
                    } else {
                        assert(st == (if sign0 { -(pj as int) } else { pj as int }));
                    }
                    if sign {
                        assert(st == pj);
                        if cur + pj >= q {
                            lemma_mod_add_multiples_vanish(cur + pj - q, q as int);
                            lemma_small_mod((cur + pj - q) as nat, q as nat);
                        } else {
                            lemma_small_mod((cur + pj) as nat, q as nat);
                        }
                    } else {
                        assert(st == -(pj as int));
                        if cur >= pj {
                            lemma_small_mod((cur - pj) as nat, q as nat);
                        } else {
                            lemma_mod_add_multiples_vanish(cur - pj, q as int);
                            lemma_small_mod((cur + q - pj) as nat, q as nat);
                        }
                    }
                    assert(nv as int == (prev[exp as int] + st) % (q as int));
                }
                out[exp] = nv;
                j = j + 1;
            }
            proof {
                assert forall|t: int| 0 <= t < n_out implies #[trigger] out@[t] as int == (old(out)@[t]
                    + sparse_sum(chal.coeffs@, poly@, t, d as int, cyc, (i + 1) as nat)) % (q as int) by {
                    let st = sparse_term(e as int, sign0, poly@, t, d as int, cyc);
                    assert(chal.coeffs@[i as int] >> 1u32 == e as u32);
                    assert(sparse_sum(chal.coeffs@, poly@, t, d as int, cyc, (i + 1) as nat)
                        == sparse_sum(chal.coeffs@, poly@, t, d as int, cyc, i as nat) + st);
                    lemma_mod_acc(old(out)@[t] + sparse_sum(chal.coeffs@, poly@, t, d as int, cyc, i as nat), st, q as int);
                    if !in_region(e as int, t, d as int, cyc) {
                        assert(st == 0);
                        lemma_small_mod(prev[t] as nat, q as nat);
                    }
                }
            }
            i = i + 1;
        }
    }
}

impl Ring {
    /// Sparse product `out <- out + c * s` over the integers for a short polynomial `s`: the
    /// same shifted additions and subtractions as [`Ring::chal_mul_poly`], in wrapping
    /// two's-complement arithmetic (modulo `2^64`) and without reduction modulo `q`.
    pub fn chal_mul_small_poly(&self, chal: &PChal, poly: &[u64], out: &mut [u64])
        requires
            self.wf(),
            poly@.len() == self.input_dim,
            old(out)@.len() == self.output_dim,
            forall|i: int| 0 <= i < chal.coeffs@.len() ==> entry_exp(#[trigger] chal.coeffs@[i]) < self.input_dim,
        ensures
            final(out)@.len() == self.output_dim,
            forall|t: int| 0 <= t < self.output_dim ==> #[trigger] final(out)@[t] as int == (old(out)@[t]
                + sparse_sum(chal.coeffs@, poly@, t, self.input_dim as int, self.cyclotomic, chal.coeffs@.len())) % two64(),
    {
        let d = self.input_dim;
        let n_out = self.output_dim;
        let ghost cyc = self.cyclotomic;
        let mut i: usize = 0;
        proof {
            lemma_ntt_size_bound(n_out as nat);
            assert forall|t: int| 0 <= t < n_out implies #[trigger] out@[t] as int == (old(out)@[t]
                + sparse_sum(chal.coeffs@, poly@, t, d as int, cyc, 0)) % two64() by {
                lemma_small_mod(out@[t] as nat, two64() as nat);
            }
        }
        while i < chal.k()
            invariant
                self.wf(),
                d == self.input_dim,
                n_out == self.output_dim,
                cyc == self.cyclotomic,
                poly@.len() == d,
                out@.len() == n_out,
                d <= 0x8000,
                0 <= i <= chal.coeffs@.len(),
                forall|i2: int| 0 <= i2 < chal.coeffs@.len() ==> entry_exp(#[trigger] chal.coeffs@[i2]) < d,
                forall|t: int| 0 <= t < n_out ==> #[trigger] out@[t] as int == (old(out)@[t]
                    + sparse_sum(chal.coeffs@, poly@, t, d as int, cyc, i as nat)) % two64(),
            decreases chal.coeffs@.len() - i,
        {
            let (e, sign0) = chal.get(i);
            let ghost prev = out@;
            proof {
                assert(entry_exp(chal.coeffs@[i as int]) < d);
            }
            let mut j: usize = 0;
            while j < d
                invariant
                    self.wf(),
                    d == self.input_dim,
                        n_out == self.output_dim,
                    cyc == self.cyclotomic,
                    poly@.len() == d,
                    out@.len() == n_out,
                    prev.len() == n_out,
                    d <= 0x8000,
                    e < d,
                    0 <= j <= d,
                    forall|t: int| 0 <= t < n_out ==> #[trigger] out@[t] as int == (if in_region(e as int, t, d as int, cyc)
                        && source(e as int, t, d as int, cyc) < j {
                        (prev[t] + sparse_term(e as int, sign0, poly@, t, d as int, cyc)) % two64()
                    } else {
                        prev[t] as int
                    }),
                decreases d - j,
            {
                let mut exp = e + j;
                let mut sign = sign0;
                if self.cyclotomic && exp >= d {
                    exp = exp - d;
                    sign = !sign;
                }
                proof {
                    lemma_land_source(e as int, j as int, d as int, cyc, n_out as int);
                    assert(exp == land(e as int, j as int, d as int, cyc));
                    assert(!(in_region(e as int, exp as int, d as int, cyc) && source(e as int, exp as int, d as int, cyc) < j));
                    assert(out@[exp as int] == prev[exp as int]);
                }
                let pj = poly[j];
                let cur = out[exp];
                let nv = if sign { cur.wrapping_add(pj) } else { cur.wrapping_sub(pj) };
                proof {
                    let st = sparse_term(e as int, sign0, poly@, exp as int, d as int, cyc);
                    if exp as int >= e {
                        assert(st == (if sign0 { pj as int } else { -(pj as int) }));
                    } else {
                        assert(st == (if sign0 { -(pj as int) } else { pj as int }));
                    }
                    if sign {
                        assert(st == pj);
                        if cur + pj > u64::MAX {
                            lemma_mod_add_multiples_vanish(cur + pj - two64(), two64());
                            lemma_small_mod((cur + pj - two64()) as nat, two64() as nat);
                        } else {
                            lemma_small_mod((cur + pj) as nat, two64() as nat);
                        }
                    } else {
                        assert(st == -(pj as int));
                        if cur >= pj {
                            lemma_small_mod((cur - pj) as nat, two64() as nat);
                        } else {
                            lemma_mod_add_multiples_vanish(cur - pj, two64());
                            lemma_small_mod((cur + two64() - pj) as nat, two64() as nat);
                        }
                    }
                    assert(nv as int == (prev[exp as int] + st) % two64());
                }
                out[exp] = nv;
                j = j + 1;
            }
            proof {
                assert forall|t: int| 0 <= t < n_out implies #[trigger] out@[t] as int == (old(out)@[t]
                    + sparse_sum(chal.coeffs@, poly@, t, d as int, cyc, (i + 1) as nat)) % two64() by {
                    let st = sparse_term(e as int, sign0, poly@, t, d as int, cyc);
                    assert(chal.coeffs@[i as int] >> 1u32 == e as u32);
                    assert(sparse_sum(chal.coeffs@, poly@, t, d as int, cyc, (i + 1) as nat)
                        == sparse_sum(chal.coeffs@, poly@, t, d as int, cyc, i as nat) + st);
                    lemma_mod_acc(old(out)@[t] + sparse_sum(chal.coeffs@, poly@, t, d as int, cyc, i as nat), st, two64());
                    if !in_region(e as int, t, d as int, cyc) {
                        assert(st == 0);
                        lemma_small_mod(prev[t] as nat, two64() as nat);
                    }
                }
            }
            i = i + 1;
        }
    }
}


/// `sum_{i < n} a[i] * coefficient t of element i of pv`.
pub open spec fn int_dot(a: Seq<u64>, pv: PVec, t: int, n: nat) -> int
    decreases n,
{
    if n == 0 {
        0
    } else {
        int_dot(a, pv, t, (n - 1) as nat) + a[n - 1] * pv.coeff(n - 1, t)
    }
}

/// `sum_{i < n} c_i * element i of pv` at coefficient `t`, for sparse challenges `c_i`.
pub open spec fn chal_dot(chals: Seq<PChal>, pv: PVec, t: int, d: int, cyclotomic: bool, n: nat) -> int
    decreases n,
{
    if n == 0 {
        0
    } else {
        chal_dot(chals, pv, t, d, cyclotomic, (n - 1) as nat)
            + sparse_sum(chals[n - 1].coeffs@, pv.elem(n - 1), t, d, cyclotomic, chals[n - 1].coeffs@.len())
    }
}

impl Ring {
    /// `out[index] <- out[index] + sum_i a_i * p_i` over `Z_q`, accumulated with
    /// [`Ring::int_mul_poly`] into the single element `index` of `out`.
    pub fn int_vec_mul_poly_vec(&self, int_vec: &Vec<u64>, p_vec: &PVec, out: &mut PVec, index: usize)
        requires
            self.wf(),
            int_vec@.len() == p_vec.len,
            p_vec.wf(),
            p_vec.d == self.input_dim,
            old(out).wf(),
            old(out).d == self.output_dim,
            index < old(out).len,
        ensures
            final(out).wf(),
            final(out).len == old(out).len,
            final(out).d == old(out).d,
            final(out).logd == old(out).logd,
            forall|t: int| 0 <= t < self.input_dim ==> #[trigger] final(out).coeff(index as int, t) as int
                == (if p_vec.len == 0 { old(out).coeff(index as int, t) as int }
                    else { (old(out).coeff(index as int, t) + int_dot(int_vec@, *p_vec, t, p_vec.len as nat)) % (self.q as int) }),
            forall|t: int| self.input_dim <= t < self.output_dim ==> #[trigger] final(out).coeff(index as int, t)
                == old(out).coeff(index as int, t),
            forall|i: int, t: int| 0 <= i < old(out).len && i != index && 0 <= t < old(out).d ==> #[trigger] final(out).coeff(i, t)
                == old(out).coeff(i, t),
    {
        let ghost q = self.q as int;
        let mut i: usize = 0;
        proof {
            vstd::arithmetic::power2::lemma_pow2_pos(out.logd as nat);
            lemma_ntt_size_bound(self.output_dim as nat);
        }
        while i < p_vec.length()
            invariant
                self.wf(),
                q == self.q,
                int_vec@.len() == p_vec.len,
                p_vec.wf(),
                p_vec.d == self.input_dim,
                out.wf(),
                out.d == self.output_dim,
                old(out).d == self.output_dim,
                out.len == old(out).len,
                out.logd == old(out).logd,
                index < out.len,
                0 <= i <= p_vec.len,
                forall|t: int| 0 <= t < self.input_dim ==> #[trigger] out.coeff(index as int, t) as int
                    == (if i == 0 { old(out).coeff(index as int, t) as int }
                        else { (old(out).coeff(index as int, t) + int_dot(int_vec@, *p_vec, t, i as nat)) % q }),
                forall|t: int| self.input_dim <= t < self.output_dim ==> #[trigger] out.coeff(index as int, t)
                    == old(out).coeff(index as int, t),
                forall|i2: int, t: int| 0 <= i2 < old(out).len && i2 != index && 0 <= t < old(out).d ==> #[trigger] out.coeff(i2, t)
                    == old(out).coeff(i2, t),
            decreases p_vec.len - i,
        {
            let ghost prev = out.vec@;
            let ghost out_old = *out;
            let pe = p_vec.element(i);
            let oe = out.mut_element(index);
            self.int_mul_poly(int_vec[i], pe, oe);
            let ghost oe_val = oe@;
            proof {
                vstd::arithmetic::power2::lemma_pow2_pos(out.logd as nat);
                lemma_flat(index as int, 0, out.d as int, out.len as int);
                lemma_replace_elem(prev, out.vec@, oe_val, index as int, out.d as int, out.len as int);
                assert forall|t: int| 0 <= t < self.input_dim implies #[trigger] out.coeff(index as int, t) as int
                    == (old(out).coeff(index as int, t) + int_dot(int_vec@, *p_vec, t, (i + 1) as nat)) % q by {
                    assert(out.vec@[flat(index as int, t, out.d as int)] == oe_val[t]);
                    assert(out_old.coeff(index as int, t) == prev[flat(index as int, t, out.d as int)]);
                    lemma_flat(i as int, t, p_vec.d as int, p_vec.len as int);
                    assert(pe@[t] == p_vec.coeff(i as int, t));
                    if i == 0 {
                    } else {
                        lemma_mod_acc(old(out).coeff(index as int, t) + int_dot(int_vec@, *p_vec, t, i as nat),
                            int_vec@[i as int] * p_vec.coeff(i as int, t), q);
                    }
                }
                assert forall|t: int| self.input_dim <= t < self.output_dim implies #[trigger] out.coeff(index as int, t)
                    == old(out).coeff(index as int, t) by {
                    assert(out.vec@[flat(index as int, t, out.d as int)] == oe_val[t]);
                    assert(out_old.coeff(index as int, t) == prev[flat(index as int, t, out.d as int)]);
                }
                assert forall|i2: int, t: int| 0 <= i2 < old(out).len && i2 != index && 0 <= t < old(out).d implies #[trigger] out.coeff(i2, t)
                    == old(out).coeff(i2, t) by {
                    assert(out.d == out_old.d && out_old.d == old(out).d);
                    lemma_flat(i2, t, out.d as int, out.len as int);
                    assert(out.vec@[flat(i2, t, out.d as int)] == prev[flat(i2, t, out.d as int)]);
                    assert(out_old.coeff(i2, t) == prev[flat(i2, t, out.d as int)]);
                }
            }
            i = i + 1;
        }
    }
}


impl Ring {
    /// `out[index] <- out[index] + sum_i c_i * p_i` over `Z_q`, accumulated with
    /// [`Ring::chal_mul_poly`] into the single element `index` of `out`.
    pub fn chal_vec_mul_poly_vec(&self, chals: &Vec<PChal>, poly: &PVec, out: &mut PVec, index: usize)
        requires
            self.wf(),
            chals@.len() == poly.len,
            poly.wf(),
            poly.d == self.input_dim,
            forall|t: int| 0 <= t < poly.vec@.len() ==> #[trigger] poly.vec@[t] < self.q,
            forall|i: int, j: int| 0 <= i < chals@.len() && 0 <= j < chals@[i].coeffs@.len()
                ==> entry_exp(#[trigger] chals@[i].coeffs@[j]) < self.input_dim,
            old(out).wf(),
            old(out).d == self.output_dim,
            index < old(out).len,
            forall|t: int| 0 <= t < self.output_dim ==> #[trigger] old(out).coeff(index as int, t) < self.q,
        ensures
            final(out).wf(),
            final(out).len == old(out).len,
            final(out).d == old(out).d,
            final(out).logd == old(out).logd,
            forall|t: int| 0 <= t < self.output_dim ==> #[trigger] final(out).coeff(index as int, t) as int
                == (old(out).coeff(index as int, t) + chal_dot(chals@, *poly, t, self.input_dim as int, self.cyclotomic,
                    poly.len as nat)) % (self.q as int),
            forall|i: int, t: int| 0 <= i < old(out).len && i != index && 0 <= t < old(out).d ==> #[trigger] final(out).coeff(i, t)
                == old(out).coeff(i, t),
    {
        let ghost q = self.q as int;
        let mut i: usize = 0;
        proof {
            vstd::arithmetic::power2::lemma_pow2_pos(out.logd as nat);
            assert forall|t: int| 0 <= t < self.output_dim implies #[trigger] out.coeff(index as int, t) as int
                == (old(out).coeff(index as int, t) + chal_dot(chals@, *poly, t, self.input_dim as int, self.cyclotomic, 0)) % q by {
                lemma_small_mod(out.coeff(index as int, t) as nat, q as nat);
            }
        }
        while i < poly.length()
            invariant
                self.wf(),
                q == self.q,
                chals@.len() == poly.len,
                poly.wf(),
                poly.d == self.input_dim,
                forall|t: int| 0 <= t < poly.vec@.len() ==> #[trigger] poly.vec@[t] < self.q,
                forall|i2: int, j: int| 0 <= i2 < chals@.len() && 0 <= j < chals@[i2].coeffs@.len()
                    ==> entry_exp(#[trigger] chals@[i2].coeffs@[j]) < self.input_dim,
                out.wf(),
                out.d == self.output_dim,
                old(out).d == self.output_dim,
                out.len == old(out).len,
                out.logd == old(out).logd,
                index < out.len,
                0 <= i <= poly.len,
                forall|t: int| 0 <= t < self.output_dim ==> #[trigger] out.coeff(index as int, t) as int
                    == (old(out).coeff(index as int, t) + chal_dot(chals@, *poly, t, self.input_dim as int, self.cyclotomic, i as nat)) % q,
                forall|i2: int, t: int| 0 <= i2 < old(out).len && i2 != index && 0 <= t < old(out).d ==> #[trigger] out.coeff(i2, t)
                    == old(out).coeff(i2, t),
            decreases poly.len - i,
        {
            let ghost prev = out.vec@;
            let ghost out_old = *out;
            let pe = poly.element(i);
            proof {
                vstd::arithmetic::power2::lemma_pow2_pos(out.logd as nat);
                lemma_flat(index as int, 0, out.d as int, out.len as int);
                assert forall|j: int| 0 <= j < pe@.len() implies #[trigger] pe@[j] < self.q by {
                    lemma_flat(i as int, j, poly.d as int, poly.len as int);
                }
                assert forall|j: int| 0 <= j < chals@[i as int].coeffs@.len() implies entry_exp(#[trigger] chals@[i as int].coeffs@[j]) < self.input_dim by {
                }
            }
            let oe = out.mut_element(index);
            proof {
                assert forall|t: int| 0 <= t < oe@.len() implies #[trigger] oe@[t] < self.q by {
                    assert(oe@[t] == out_old.coeff(index as int, t));
                }
            }
            self.chal_mul_poly(&chals[i], pe, oe);
            let ghost oe_val = oe@;
            proof {
                lemma_replace_elem(prev, out.vec@, oe_val, index as int, out.d as int, out.len as int);
                assert forall|t: int| 0 <= t < self.output_dim implies #[trigger] out.coeff(index as int, t) as int
                    == (old(out).coeff(index as int, t) + chal_dot(chals@, *poly, t, self.input_dim as int, self.cyclotomic, (i + 1) as nat)) % q by {
                    assert(out.vec@[flat(index as int, t, out.d as int)] == oe_val[t]);
                    assert(out_old.coeff(index as int, t) == prev[flat(index as int, t, out.d as int)]);
                    assert(pe@ == poly.elem(i as int));
                    lemma_mod_acc(old(out).coeff(index as int, t) + chal_dot(chals@, *poly, t, self.input_dim as int, self.cyclotomic, i as nat),
                        sparse_sum(chals@[i as int].coeffs@, poly.elem(i as int), t, self.input_dim as int, self.cyclotomic,
                            chals@[i as int].coeffs@.len()), q);
                }
                assert forall|i2: int, t: int| 0 <= i2 < old(out).len && i2 != index && 0 <= t < old(out).d implies #[trigger] out.coeff(i2, t)
                    == old(out).coeff(i2, t) by {
                    assert(out.d == out_old.d && out_old.d == old(out).d);
                    lemma_flat(i2, t, out.d as int, out.len as int);
                    assert(out.vec@[flat(i2, t, out.d as int)] == prev[flat(i2, t, out.d as int)]);
                    assert(out_old.coeff(i2, t) == prev[flat(i2, t, out.d as int)]);
                }
            }
            i = i + 1;
        }
    }

    /// `out[index + i] <- out[index + i] + c * s_i` for every element `s_i` of `poly_vec`, in
    /// wrapping two's-complement arithmetic ([`Ring::chal_mul_small_poly`]).
    pub fn chal_mul_poly_vec(&self, chal: &PChal, poly_vec: &PVec, out: &mut PVec, index: usize)
        requires
            self.wf(),
            poly_vec.wf(),
            poly_vec.d == self.input_dim,
            poly_vec.len == old(out).len,
            index + poly_vec.len <= old(out).len,
            forall|j: int| 0 <= j < chal.coeffs@.len() ==> entry_exp(#[trigger] chal.coeffs@[j]) < self.input_dim,
            old(out).wf(),
            old(out).d == self.output_dim,
        ensures
            final(out).wf(),
            final(out).len == old(out).len,
            final(out).d == old(out).d,
            final(out).logd == old(out).logd,
            forall|i: int, t: int| 0 <= i < poly_vec.len && 0 <= t < self.output_dim ==> #[trigger] final(out).coeff(index + i, t) as int
                == (old(out).coeff(index + i, t) + sparse_sum(chal.coeffs@, poly_vec.elem(i), t, self.input_dim as int,
                    self.cyclotomic, chal.coeffs@.len())) % two64(),
            forall|i: int, t: int| 0 <= i < old(out).len && !(index <= i < index + poly_vec.len) && 0 <= t < old(out).d
                ==> #[trigger] final(out).coeff(i, t) == old(out).coeff(i, t),
    {
        let mut i: usize = 0;
        while i < poly_vec.length()
            invariant
                self.wf(),
                poly_vec.wf(),
                poly_vec.d == self.input_dim,
                index + poly_vec.len <= out.len,
                forall|j: int| 0 <= j < chal.coeffs@.len() ==> entry_exp(#[trigger] chal.coeffs@[j]) < self.input_dim,
                out.wf(),
                out.d == self.output_dim,
                old(out).d == self.output_dim,
                out.len == old(out).len,
                out.logd == old(out).logd,
                0 <= i <= poly_vec.len,
                forall|i2: int, t: int| 0 <= i2 < i && 0 <= t < self.output_dim ==> #[trigger] out.coeff(index + i2, t) as int
                    == (old(out).coeff(index + i2, t) + sparse_sum(chal.coeffs@, poly_vec.elem(i2), t, self.input_dim as int,
                        self.cyclotomic, chal.coeffs@.len())) % two64(),
                forall|i2: int, t: int| 0 <= i2 < old(out).len && !(index <= i2 < index + i) && 0 <= t < old(out).d
                    ==> #[trigger] out.coeff(i2, t) == old(out).coeff(i2, t),
            decreases poly_vec.len - i,
        {
            let ghost prev = out.vec@;
            let ghost out_old = *out;
            let pe = poly_vec.element(i);
            let oe = out.mut_element(index + i);
            self.chal_mul_small_poly(chal, pe, oe);
            let ghost oe_val = oe@;
            proof {
                vstd::arithmetic::power2::lemma_pow2_pos(out.logd as nat);
                lemma_flat((index + i) as int, 0, out.d as int, out.len as int);
                lemma_replace_elem(prev, out.vec@, oe_val, (index + i) as int, out.d as int, out.len as int);
                assert forall|i2: int, t: int| 0 <= i2 < i + 1 && 0 <= t < self.output_dim implies #[trigger] out.coeff(index + i2, t) as int
                    == (old(out).coeff(index + i2, t) + sparse_sum(chal.coeffs@, poly_vec.elem(i2), t, self.input_dim as int,
                        self.cyclotomic, chal.coeffs@.len())) % two64() by {
                    if i2 < i {
                        lemma_flat(index + i2, t, out.d as int, out.len as int);
                        assert(out.vec@[flat(index + i2, t, out.d as int)] == prev[flat(index + i2, t, out.d as int)]);
                        assert(out_old.coeff(index + i2, t) == prev[flat(index + i2, t, out.d as int)]);
                    } else {
                        assert(out.vec@[flat(index + i2, t, out.d as int)] == oe_val[t]);
                        assert(out_old.coeff(index + i2, t) == prev[flat(index + i2, t, out.d as int)]);
                        assert(out_old.coeff(index + i2, t) == old(out).coeff(index + i2, t));
                    }
                }
                assert forall|i2: int, t: int| 0 <= i2 < old(out).len && !(index <= i2 < index + i + 1) && 0 <= t < old(out).d
                    implies #[trigger] out.coeff(i2, t) == old(out).coeff(i2, t) by {
                    assert(out.d == out_old.d && out_old.d == old(out).d);
                    lemma_flat(i2, t, out.d as int, out.len as int);
                    assert(out.vec@[flat(i2, t, out.d as int)] == prev[flat(i2, t, out.d as int)]);
                    assert(out_old.coeff(i2, t) == prev[flat(i2, t, out.d as int)]);
                }
            }
            i = i + 1;
        }
    }
}


/// The five-prime forward negacyclic NTT of length `p.len()` (tfhe-ntt `native64::Plan32`):
/// `p` reduced modulo each prime and transformed, one residue vector per prime.
pub uninterp spec fn ntt32_fwd(p: Seq<u64>) -> Seq<Seq<u32>>;

/// The five-prime inverse negacyclic NTT followed by the CRT reconstruction modulo `2^64`
/// (tfhe-ntt `native64::Plan32::inv`), of five residue vectors.
pub uninterp spec fn ntt32_inv(r: Seq<Seq<u32>>) -> Seq<u64>;

/// `Plan32::try_new(n)` followed by `Plan32::fwd` (tfhe-ntt): the forward transform of `p`,
/// written to the five residue vectors. The plan exists for every size that `ntt_size_ok`
/// admits, so the `unwrap` does not fail.
#[verifier::external_body]
fn plan32_fwd(p: &[u64], p0: &mut [u32], p1: &mut [u32], p2: &mut [u32], p3: &mut [u32], p4: &mut [u32])
    requires
        ntt_size_ok(p@.len()),
        old(p0)@.len() == p@.len(),
        old(p1)@.len() == p@.len(),
        old(p2)@.len() == p@.len(),
        old(p3)@.len() == p@.len(),
        old(p4)@.len() == p@.len(),
    ensures
        final(p0)@ == ntt32_fwd(p@)[0],
        final(p1)@ == ntt32_fwd(p@)[1],
        final(p2)@ == ntt32_fwd(p@)[2],
        final(p3)@ == ntt32_fwd(p@)[3],
        final(p4)@ == ntt32_fwd(p@)[4],
        final(p0)@.len() == p@.len(),
        final(p1)@.len() == p@.len(),
        final(p2)@.len() == p@.len(),
        final(p3)@.len() == p@.len(),
        final(p4)@.len() == p@.len(),
{
    Plan32::try_new(p.len()).unwrap().fwd(p, p0, p1, p2, p3, p4)
}

/// `Plan32::try_new(n)` followed by `Plan32::inv` (tfhe-ntt): the inverse transform and CRT
/// reconstruction of the five residue vectors, written to `p`. The residue vectors are used as
/// scratch space; what they hold afterwards is not stated.
#[verifier::external_body]
fn plan32_inv(p: &mut [u64], p0: &mut [u32], p1: &mut [u32], p2: &mut [u32], p3: &mut [u32], p4: &mut [u32])
    requires
        ntt_size_ok(old(p)@.len()),
        old(p0)@.len() == old(p)@.len(),
        old(p1)@.len() == old(p)@.len(),
        old(p2)@.len() == old(p)@.len(),
        old(p3)@.len() == old(p)@.len(),
        old(p4)@.len() == old(p)@.len(),
    ensures
        final(p)@ == ntt32_inv(seq![old(p0)@, old(p1)@, old(p2)@, old(p3)@, old(p4)@]),
        final(p)@.len() == old(p)@.len(),
        final(p0)@.len() == old(p0)@.len(),
        final(p1)@.len() == old(p1)@.len(),
        final(p2)@.len() == old(p2)@.len(),
        final(p3)@.len() == old(p3)@.len(),
        final(p4)@.len() == old(p4)@.len(),
{
    let n = p.len();
    Plan32::try_new(n).unwrap().inv(p, p0, p1, p2, p3, p4)
}

/// The five NTT primes.
pub open spec fn ntt_prime(k: int) -> u64 {
    if k == 0 {
        0x3F5A0001
    } else if k == 1 {
        0x3F5D0001
    } else if k == 2 {
        0x3F760001
    } else if k == 3 {
        0x3F820001
    } else {
        0x3FAC0001
    }
}

/// `p` zero-padded (or cut) to length `n`.
pub open spec fn pad(p: Seq<u64>, n: nat) -> Seq<u64> {
    Seq::new(n, |t: int| if t < p.len() { p[t] } else { 0u64 })
}

/// `n^{-1} mod p` for `n` dividing `p - 1`: `p - (p - 1) / n`.
pub open spec fn ninv(p: int, n: int) -> int {
    p - (p - 1) / n
}

/// Multiplication of every residue by `n^{-1}` modulo `p`.
pub open spec fn normalized(v: Seq<u32>, p: int, n: int) -> Seq<u32> {
    Seq::new(v.len(), |t: int| ((v[t] * ninv(p, n)) % p) as u32)
}

/// Every residue of `v` multiplied by `n^{-1} = p - (p - 1)/n` modulo `p` (the normalisation
/// that the unnormalised inverse transform expects).
fn normalize_one(v: &mut [u32], p: u32, n: usize)
    requires
        1 <= n,
        0x3000_0000 <= p < 0x4000_0000,
    ensures
        final(v)@ == normalized(old(v)@, p as int, n as int),
{
    let ni: u64 = (p as u64) - ((p as u64) - 1) / (n as u64);
    let mut t: usize = 0;
    while t < v.len()
        invariant
            0 <= t <= v@.len(),
            v@.len() == old(v)@.len(),
            ni as int == ninv(p as int, n as int),
            ni <= p,
            0x3000_0000 <= p < 0x4000_0000,
            forall|j: int| 0 <= j < t ==> #[trigger] v@[j] == ((old(v)@[j] * ninv(p as int, n as int)) % (p as int)) as u32,
            forall|j: int| t <= j < v@.len() ==> #[trigger] v@[j] == old(v)@[j],
        decreases v@.len() - t,
    {
        proof {
            assert(v@[t as int] * ni <= 0xffff_ffff * 0x4000_0000) by (nonlinear_arith)
                requires
                    v@[t as int] <= 0xffff_ffff,
                    ni <= 0x4000_0000,
            ;
        }
        let x = ((v[t] as u64) * ni) % (p as u64);
        v[t] = x as u32;
        t = t + 1;
    }
    proof {
        assert(v@ =~= normalized(old(v)@, p as int, n as int));
    }
}

/// Pointwise multiply-accumulate modulo `p`: `acc[t] <- (acc[t] + lhs[t] * rhs[t]) mod p`.
fn mul_acc_one(acc: &mut [u32], lhs: &[u32], rhs: &[u32], p: u32)
    requires
        1 <= p,
        lhs@.len() == old(acc)@.len(),
        rhs@.len() == old(acc)@.len(),
    ensures
        final(acc)@.len() == old(acc)@.len(),
        forall|t: int| 0 <= t < old(acc)@.len() ==> #[trigger] final(acc)@[t] as int
            == (old(acc)@[t] + lhs@[t] * rhs@[t]) % (p as int),
{
    let mut t: usize = 0;
    while t < acc.len()
        invariant
            0 <= t <= acc@.len(),
            1 <= p,
            acc@.len() == old(acc)@.len(),
            lhs@.len() == old(acc)@.len(),
            rhs@.len() == old(acc)@.len(),
            forall|j: int| 0 <= j < t ==> #[trigger] acc@[j] as int == (old(acc)@[j] + lhs@[j] * rhs@[j]) % (p as int),
            forall|j: int| t <= j < acc@.len() ==> #[trigger] acc@[j] == old(acc)@[j],
        decreases acc@.len() - t,
    {
        proof {
            assert(lhs@[t as int] * rhs@[t as int] <= 0xffff_ffff * 0xffff_ffff) by (nonlinear_arith)
                requires
                    lhs@[t as int] <= 0xffff_ffff,
                    rhs@[t as int] <= 0xffff_ffff,
            ;
        }
        let x = ((acc[t] as u64) + (lhs[t] as u64) * (rhs[t] as u64)) % (p as u64);
        acc[t] = x as u32;
        t = t + 1;
    }
}

/// `signed(x) mod q` for every coefficient.
pub open spec fn reduce_signed(v: Seq<u64>, q: int) -> Seq<u64> {
    Seq::new(v.len(), |t: int| (signed(v[t]) % q) as u64)
}

impl Ring {
    /// Forward transform of one polynomial of length `d` (zero-padded to `2d` in full mode)
    /// into its five residue vectors.
    pub fn _fwd(&self, p: &[u64], p0: &mut [u32], p1: &mut [u32], p2: &mut [u32], p3: &mut [u32], p4: &mut [u32])
        requires
            self.wf(),
            p@.len() == self.input_dim,
            old(p0)@.len() == self.output_dim,
            old(p1)@.len() == self.output_dim,
            old(p2)@.len() == self.output_dim,
            old(p3)@.len() == self.output_dim,
            old(p4)@.len() == self.output_dim,
        ensures
            final(p0)@ == ntt32_fwd(pad(p@, self.output_dim as nat))[0],
            final(p1)@ == ntt32_fwd(pad(p@, self.output_dim as nat))[1],
            final(p2)@ == ntt32_fwd(pad(p@, self.output_dim as nat))[2],
            final(p3)@ == ntt32_fwd(pad(p@, self.output_dim as nat))[3],
            final(p4)@ == ntt32_fwd(pad(p@, self.output_dim as nat))[4],
            final(p0)@.len() == self.output_dim,
            final(p1)@.len() == self.output_dim,
            final(p2)@.len() == self.output_dim,
            final(p3)@.len() == self.output_dim,
            final(p4)@.len() == self.output_dim,
    {
        if self.cyclotomic {
            proof {
                assert(pad(p@, self.output_dim as nat) =~= p@);
            }
            plan32_fwd(p, p0, p1, p2, p3, p4);
        } else {
            let mut p_pad: Vec<u64> = Vec::with_capacity(self.output_dim);
            let mut i: usize = 0;
            while i < self.output_dim
                invariant
                    self.wf(),
                    p@.len() == self.input_dim,
                    0 <= i <= self.output_dim,
                    p_pad@ == pad(p@, self.output_dim as nat).take(i as int),
                decreases self.output_dim - i,
            {
                if i < self.input_dim {
                    p_pad.push(p[i]);
                } else {
                    p_pad.push(0);
                }
                i = i + 1;
            }
            proof {
                assert(p_pad@ =~= pad(p@, self.output_dim as nat));
            }
            plan32_fwd(p_pad.as_slice(), p0, p1, p2, p3, p4);
        }
    }
}


/// The five normalized residue vectors handed to the inverse transform.
pub open spec fn normalized5(r: Seq<Seq<u32>>, n: int) -> Seq<Seq<u32>> {
    seq![normalized(r[0], ntt_prime(0) as int, n), normalized(r[1], ntt_prime(1) as int, n),
        normalized(r[2], ntt_prime(2) as int, n), normalized(r[3], ntt_prime(3) as int, n),
        normalized(r[4], ntt_prime(4) as int, n)]
}

impl Ring {
    /// Inverse transform of five residue vectors of length `N` into `p`: every vector is
    /// multiplied by `N^{-1}` modulo its prime, the inverse transform and CRT reconstruction
    /// give the integer result modulo `2^64`, and every coefficient, read as a signed `i64`, is
    /// reduced into `[0, q)`. The residue vectors are used as scratch space.
    pub fn _inv(&self, p: &mut [u64], p0: &mut [u32], p1: &mut [u32], p2: &mut [u32], p3: &mut [u32], p4: &mut [u32])
        requires
            self.wf(),
            old(p)@.len() == self.output_dim,
            old(p0)@.len() == self.output_dim,
            old(p1)@.len() == self.output_dim,
            old(p2)@.len() == self.output_dim,
            old(p3)@.len() == self.output_dim,
            old(p4)@.len() == self.output_dim,
        ensures
            final(p)@ == reduce_signed(ntt32_inv(normalized5(seq![old(p0)@, old(p1)@, old(p2)@, old(p3)@, old(p4)@],
                self.output_dim as int)), self.q as int),
            final(p)@.len() == self.output_dim,
            final(p0)@.len() == self.output_dim,
            final(p1)@.len() == self.output_dim,
            final(p2)@.len() == self.output_dim,
            final(p3)@.len() == self.output_dim,
            final(p4)@.len() == self.output_dim,
    {
        let n = self.output_dim;
        let ghost r = seq![p0@, p1@, p2@, p3@, p4@];
        proof {
            lemma_ntt_size_bound(n as nat);
        }
        normalize_one(p0, 0x3F5A0001, n);
        normalize_one(p1, 0x3F5D0001, n);
        normalize_one(p2, 0x3F760001, n);
        normalize_one(p3, 0x3F820001, n);
        normalize_one(p4, 0x3FAC0001, n);
        proof {
            assert(seq![p0@, p1@, p2@, p3@, p4@] =~= normalized5(r, n as int));
        }
        plan32_inv(p, p0, p1, p2, p3, p4);
        let ghost big = p@;
        let q = self.q;
        let mut j: usize = 0;
        while j < n
            invariant
                self.wf(),
                q == self.q,
                n == self.output_dim,
                p@.len() == n,
                big.len() == n,
                0 <= j <= n,
                forall|t: int| 0 <= t < j ==> #[trigger] p@[t] == (signed(big[t]) % (q as int)) as u64,
                forall|t: int| j <= t < n ==> #[trigger] p@[t] == big[t],
            decreases n - j,
        {
            let pj = p[j];
            let v: u64 = if pj < 0x8000_0000_0000_0000u64 {
                pj % q
            } else {
                let neg = 0u64.wrapping_sub(pj);
                let r = neg % q;
                if r == 0 { 0 } else { q - r }
            };
            proof {
                if pj >= 0x8000_0000_0000_0000u64 {
                    let neg = 0u64.wrapping_sub(pj);
                    assert(neg as int == two64() - pj);
                    assert(signed(pj) == -(neg as int));
                    let r = neg % q;
                    lemma_fundamental_div_mod(neg as int, q as int);
                    let k = (neg as int) / (q as int);
                    if r == 0 {
                        assert(-(neg as int) == (q as int) * (-k)) by (nonlinear_arith)
                            requires
                                neg as int == (q as int) * k + r,
                                r == 0,
                        ;
                        lemma_mod_multiples_basic(-k, q as int);
                        assert((q as int) * (-k) == (-k) * (q as int)) by (nonlinear_arith);
                    } else {
                        assert(-(neg as int) == (q as int) * (-k - 1) + (q - r)) by (nonlinear_arith)
                            requires
                                neg as int == (q as int) * k + r,
                        ;
                        lemma_mod_multiples_vanish(-k - 1, (q - r) as int, q as int);
                        lemma_small_mod((q - r) as nat, q as nat);
                    }
                }
                assert(v as int == signed(big[j as int]) % (q as int));
            }
            p[j] = v;
            j = j + 1;
        }
        proof {
            assert(p@ =~= reduce_signed(big, q as int));
        }
    }

    /// Pointwise multiply-accumulate for each prime: `s_i <- s_i + l_i * r_i mod p_i`.
    pub fn _mul_acc(&self,
        l0: &[u32], l1: &[u32], l2: &[u32], l3: &[u32], l4: &[u32],
        r0: &[u32], r1: &[u32], r2: &[u32], r3: &[u32], r4: &[u32],
        s0: &mut [u32], s1: &mut [u32], s2: &mut [u32], s3: &mut [u32], s4: &mut [u32],
    )
        requires
            l0@.len() == old(s0)@.len() && r0@.len() == old(s0)@.len(),
            l1@.len() == old(s1)@.len() && r1@.len() == old(s1)@.len(),
            l2@.len() == old(s2)@.len() && r2@.len() == old(s2)@.len(),
            l3@.len() == old(s3)@.len() && r3@.len() == old(s3)@.len(),
            l4@.len() == old(s4)@.len() && r4@.len() == old(s4)@.len(),
        ensures
            final(s0)@.len() == old(s0)@.len(),
            final(s1)@.len() == old(s1)@.len(),
            final(s2)@.len() == old(s2)@.len(),
            final(s3)@.len() == old(s3)@.len(),
            final(s4)@.len() == old(s4)@.len(),
            forall|t: int| 0 <= t < old(s0)@.len() ==> #[trigger] final(s0)@[t] as int == (old(s0)@[t] + l0@[t] * r0@[t]) % (ntt_prime(0) as int),
            forall|t: int| 0 <= t < old(s1)@.len() ==> #[trigger] final(s1)@[t] as int == (old(s1)@[t] + l1@[t] * r1@[t]) % (ntt_prime(1) as int),
            forall|t: int| 0 <= t < old(s2)@.len() ==> #[trigger] final(s2)@[t] as int == (old(s2)@[t] + l2@[t] * r2@[t]) % (ntt_prime(2) as int),
            forall|t: int| 0 <= t < old(s3)@.len() ==> #[trigger] final(s3)@[t] as int == (old(s3)@[t] + l3@[t] * r3@[t]) % (ntt_prime(3) as int),
            forall|t: int| 0 <= t < old(s4)@.len() ==> #[trigger] final(s4)@[t] as int == (old(s4)@[t] + l4@[t] * r4@[t]) % (ntt_prime(4) as int),
    {
        mul_acc_one(s0, l0, r0, 0x3F5A0001);
        mul_acc_one(s1, l1, r1, 0x3F5D0001);
        mul_acc_one(s2, l2, r2, 0x3F760001);
        mul_acc_one(s3, l3, r3, 0x3F820001);
        mul_acc_one(s4, l4, r4, 0x3FAC0001);
    }
}


/// The residue vector of prime `k` of a vector in NTT form.
pub open spec fn nv(v: PVecNtt, k: int) -> Seq<u32> {
    if k == 0 {
        v.vec0@
    } else if k == 1 {
        v.vec1@
    } else if k == 2 {
        v.vec2@
    } else if k == 3 {
        v.vec3@
    } else {
        v.vec4@
    }
}

/// Entry `(row, col)` of a matrix in NTT form, residues modulo prime `k`.
pub open spec fn ntt_entry(m: PMatNtt, k: int, row: int, col: int) -> Seq<u32> {
    nv(m.vec, k).subrange((row * m.width + col) * m.vec.d, (row * m.width + col) * m.vec.d + m.vec.d)
}

impl Ring {
    /// Transform every entry of `mat` into NTT form: entry `(i, j)` of `mat_ntt` becomes the
    /// five-prime transform of entry `(i, j)` of `mat` (zero-padded in full mode).
    pub fn mat_fwd_ntt(&self, mat: &PMat, mat_ntt: &mut PMatNtt)
        requires
            self.wf(),
            mat.wf(),
            old(mat_ntt).wf(),
            mat.height == old(mat_ntt).height,
            mat.width == old(mat_ntt).width,
            mat.vec.d == self.input_dim,
            old(mat_ntt).vec.d == self.output_dim,
        ensures
            final(mat_ntt).wf(),
            final(mat_ntt).height == old(mat_ntt).height,
            final(mat_ntt).width == old(mat_ntt).width,
            final(mat_ntt).vec.d == old(mat_ntt).vec.d,
            forall|k: int, i: int, j: int| 0 <= k < 5 && 0 <= i < mat.height && 0 <= j < mat.width ==>
                #[trigger] ntt_entry(*final(mat_ntt), k, i, j) == ntt32_fwd(pad(mat.entry(i, j), self.output_dim as nat))[k],
    {
        let h = mat.height();
        let w = mat.width();
        let n = self.output_dim;
        let mut i: usize = 0;
        while i < h
            invariant
                self.wf(),
                mat.wf(),
                mat_ntt.wf(),
                mat.height == mat_ntt.height,
                mat.width == mat_ntt.width,
                h == mat.height,
                w == mat.width,
                n == self.output_dim,
                mat_ntt.height == old(mat_ntt).height,
                mat_ntt.width == old(mat_ntt).width,
                mat.vec.d == self.input_dim,
                mat_ntt.vec.d == n,
                0 <= i <= h,
                forall|k: int, i2: int, j2: int| 0 <= k < 5 && 0 <= i2 < i && 0 <= j2 < w ==>
                    #[trigger] ntt_entry(*mat_ntt, k, i2, j2) == ntt32_fwd(pad(mat.entry(i2, j2), n as nat))[k],
            decreases h - i,
        {
            let mut j: usize = 0;
            while j < w
                invariant
                    self.wf(),
                    mat.wf(),
                    mat_ntt.wf(),
                    mat.height == mat_ntt.height,
                    mat.width == mat_ntt.width,
                    h == mat.height,
                    w == mat.width,
                    n == self.output_dim,
                    mat_ntt.height == old(mat_ntt).height,
                    mat_ntt.width == old(mat_ntt).width,
                    mat.vec.d == self.input_dim,
                    mat_ntt.vec.d == n,
                    0 <= i < h,
                    0 <= j <= w,
                    forall|k: int, i2: int, j2: int| 0 <= k < 5 && ((0 <= i2 < i && 0 <= j2 < w) || (i2 == i && 0 <= j2 < j)) ==>
                        #[trigger] ntt_entry(*mat_ntt, k, i2, j2) == ntt32_fwd(pad(mat.entry(i2, j2), n as nat))[k],
                decreases w - j,
            {
                let ghost before = *mat_ntt;
                proof {
                    vstd::arithmetic::power2::lemma_pow2_pos(mat_ntt.vec.logd as nat);
                    lemma_flat(i as int, j as int, w as int, h as int);
                    lemma_flat((i * w + j) as int, 0, n as int, (h * w) as int);
                }
                let src = mat.element(i, j);
                let (p0, p1, p2, p3, p4) = mat_ntt.mut_element(i, j);
                self._fwd(src, p0, p1, p2, p3, p4);
                let ghost (v0, v1, v2, v3, v4) = (p0@, p1@, p2@, p3@, p4@);
                proof {
                    vstd::arithmetic::power2::lemma_pow2_pos(mat_ntt.vec.logd as nat);
                    lemma_flat(i as int, j as int, w as int, h as int);
                    let e = i * w + j;
                    let len = (h * w) as int;
                    lemma_replace_elem(before.vec.vec0@, mat_ntt.vec.vec0@, v0, e, n as int, len);
                    lemma_replace_elem(before.vec.vec1@, mat_ntt.vec.vec1@, v1, e, n as int, len);
                    lemma_replace_elem(before.vec.vec2@, mat_ntt.vec.vec2@, v2, e, n as int, len);
                    lemma_replace_elem(before.vec.vec3@, mat_ntt.vec.vec3@, v3, e, n as int, len);
                    lemma_replace_elem(before.vec.vec4@, mat_ntt.vec.vec4@, v4, e, n as int, len);
                    assert forall|k: int, i2: int, j2: int| 0 <= k < 5 && ((0 <= i2 < i && 0 <= j2 < w) || (i2 == i && 0 <= j2 < j + 1)) implies
                        #[trigger] ntt_entry(*mat_ntt, k, i2, j2) == ntt32_fwd(pad(mat.entry(i2, j2), n as nat))[k] by {
                        lemma_flat(i2, j2, w as int, h as int);
                        if i2 == i && j2 == j {
                        } else {
                            assert(ntt_entry(before, k, i2, j2) == ntt32_fwd(pad(mat.entry(i2, j2), n as nat))[k]);
                            assert(i2 * w + j2 != e);
                        }
                    }
                }
                j = j + 1;
            }
            i = i + 1;
        }
    }
}


/// The five-prime transform of element `col` of `vec`, zero-padded to length `n`.
pub open spec fn col_fwd(vec: PVec, col: int, n: nat) -> Seq<Seq<u32>> {
    ntt32_fwd(pad(vec.elem(col), n))
}

/// Row `row` of the product `M v` in the NTT domain modulo prime `k`, accumulated over the
/// first `c` columns: `sum_{col < c} M[row, col] * fwd(v[col])`, reduced after every term.
pub open spec fn acc_row(m: PMatNtt, vec: PVec, row: int, k: int, n: nat, c: nat) -> Seq<u32>
    decreases c,
{
    if c == 0 {
        Seq::new(n, |t: int| 0u32)
    } else {
        let prev = acc_row(m, vec, row, k, n, (c - 1) as nat);
        let l = ntt_entry(m, k, row, c - 1);
        let r = col_fwd(vec, c - 1, n)[k];
        Seq::new(n, |t: int| ((prev[t] + l[t] * r[t]) % (ntt_prime(k) as int)) as u32)
    }
}

/// Row `row` of `M v`: the accumulated NTT-domain row, normalized, inverse-transformed and
/// reduced modulo `q` as signed integers.
pub open spec fn row_product(m: PMatNtt, vec: PVec, row: int, n: nat, q: int) -> Seq<u64> {
    reduce_signed(ntt32_inv(normalized5(seq![acc_row(m, vec, row, 0, n, m.width as nat), acc_row(m, vec, row, 1, n, m.width as nat),
        acc_row(m, vec, row, 2, n, m.width as nat), acc_row(m, vec, row, 3, n, m.width as nat),
        acc_row(m, vec, row, 4, n, m.width as nat)], n as int)), q)
}

/// The residue vector of prime `k` of row `row` of a vector in NTT form.
pub open spec fn nrow(v: PVecNtt, k: int, row: int) -> Seq<u32> {
    nv(v, k).subrange(row * v.d, row * v.d + v.d)
}

impl Ring {
    /// Matrix-vector product `M v` with `M` in NTT form: for every row, element `index + row` of
    /// `out` is overwritten with the row of the product (reduced modulo `X^d + 1` in cyclotomic
    /// mode, of length `2d` in full mode), as residues in `[0, q)`.
    pub fn mat_mul_vec(&self, mat: &PMatNtt, vec: &PVec, out: &mut PVec, index: usize)
        requires
            self.wf(),
            mat.wf(),
            mat.vec.d == self.output_dim,
            mat.width == vec.len,
            vec.wf(),
            vec.d == self.input_dim,
            old(out).wf(),
            old(out).d == self.output_dim,
            index + mat.height <= old(out).len,
            mat.height * self.output_dim <= usize::MAX,
        ensures
            final(out).wf(),
            final(out).len == old(out).len,
            final(out).d == old(out).d,
            final(out).logd == old(out).logd,
            forall|row: int| 0 <= row < mat.height ==> #[trigger] final(out).elem(index + row)
                == row_product(*mat, *vec, row, self.output_dim as nat, self.q as int),
            forall|i: int| 0 <= i < old(out).len && !(index <= i < index + mat.height) ==> #[trigger] final(out).elem(i)
                == old(out).elem(i),
    {
        let n = self.output_dim;
        let h = mat.height();
        let w = mat.width();
        proof {
            lemma_ntt_size_bound(n as nat);
            vstd::arithmetic::power2::lemma_pow2_pos(out.logd as nat);
            let kk = choose|kk: nat| 5 <= kk <= 15 && n == vstd::arithmetic::power2::pow2(kk);
            assert(crate::arithmetic::utils::is_pow2(n as nat));
        }
        let mut r0 = zeros_u32(n);
        let mut r1 = zeros_u32(n);
        let mut r2 = zeros_u32(n);
        let mut r3 = zeros_u32(n);
        let mut r4 = zeros_u32(n);
        let mut out_ntt = PVecNtt::zero(h, n);
        proof {
            assert forall|k: int, row: int| 0 <= k < 5 && 0 <= row < h implies #[trigger] nrow(out_ntt, k, row)
                == acc_row(*mat, *vec, row, k, n as nat, 0) by {
                lemma_flat(row, 0, n as int, h as int);
                assert(nrow(out_ntt, k, row) =~= acc_row(*mat, *vec, row, k, n as nat, 0));
            }
        }
        let mut col: usize = 0;
        while col < w
            invariant
                self.wf(),
                mat.wf(),
                mat.vec.d == n,
                n == self.output_dim,
                h == mat.height,
                w == mat.width,
                mat.width == vec.len,
                vec.wf(),
                vec.d == self.input_dim,
                32 <= n <= 0x8000,
                out_ntt.wf(),
                out_ntt.len == h,
                out_ntt.d == n,
                r0@.len() == n && r1@.len() == n && r2@.len() == n && r3@.len() == n && r4@.len() == n,
                0 <= col <= w,
                forall|k: int, row: int| 0 <= k < 5 && 0 <= row < h ==> #[trigger] nrow(out_ntt, k, row)
                    == acc_row(*mat, *vec, row, k, n as nat, col as nat),
            decreases w - col,
        {
            self._fwd(vec.element(col), r0.as_mut_slice(), r1.as_mut_slice(), r2.as_mut_slice(), r3.as_mut_slice(), r4.as_mut_slice());
            let mut row: usize = 0;
            while row < h
                invariant
                    self.wf(),
                    mat.wf(),
                    mat.vec.d == n,
                    n == self.output_dim,
                    h == mat.height,
                    w == mat.width,
                    mat.width == vec.len,
                    vec.wf(),
                    vec.d == self.input_dim,
                    32 <= n <= 0x8000,
                    out_ntt.wf(),
                    out_ntt.len == h,
                    out_ntt.d == n,
                    0 <= col < w,
                    0 <= row <= h,
                    r0@ == col_fwd(*vec, col as int, n as nat)[0],
                    r1@ == col_fwd(*vec, col as int, n as nat)[1],
                    r2@ == col_fwd(*vec, col as int, n as nat)[2],
                    r3@ == col_fwd(*vec, col as int, n as nat)[3],
                    r4@ == col_fwd(*vec, col as int, n as nat)[4],
                    r0@.len() == n && r1@.len() == n && r2@.len() == n && r3@.len() == n && r4@.len() == n,
                    forall|k: int, row2: int| 0 <= k < 5 && 0 <= row2 < h ==> #[trigger] nrow(out_ntt, k, row2)
                        == acc_row(*mat, *vec, row2, k, n as nat, if row2 < row { (col + 1) as nat } else { col as nat }),
                decreases h - row,
            {
                let ghost before = out_ntt;
                proof {
                    vstd::arithmetic::power2::lemma_pow2_pos(out_ntt.logd as nat);
                    lemma_flat(row as int, col as int, w as int, h as int);
                    lemma_flat((row * w + col) as int, 0, n as int, (h * w) as int);
                    lemma_flat(row as int, 0, n as int, h as int);
                }
                let (l0, l1, l2, l3, l4) = mat.element(row, col);
                let (s0, s1, s2, s3, s4) = out_ntt.mut_element(row);
                self._mul_acc(l0, l1, l2, l3, l4, r0.as_slice(), r1.as_slice(), r2.as_slice(), r3.as_slice(), r4.as_slice(),
                    s0, s1, s2, s3, s4);
                let ghost (v0, v1, v2, v3, v4) = (s0@, s1@, s2@, s3@, s4@);
                proof {
                    let len = h as int;
                    lemma_replace_elem(before.vec0@, out_ntt.vec0@, v0, row as int, n as int, len);
                    lemma_replace_elem(before.vec1@, out_ntt.vec1@, v1, row as int, n as int, len);
                    lemma_replace_elem(before.vec2@, out_ntt.vec2@, v2, row as int, n as int, len);
                    lemma_replace_elem(before.vec3@, out_ntt.vec3@, v3, row as int, n as int, len);
                    lemma_replace_elem(before.vec4@, out_ntt.vec4@, v4, row as int, n as int, len);
                    assert forall|k: int| 0 <= k < 5 implies #[trigger] nrow(out_ntt, k, row as int)
                        == acc_row(*mat, *vec, row as int, k, n as nat, (col + 1) as nat) by {
                        let prev = acc_row(*mat, *vec, row as int, k, n as nat, col as nat);
                        assert(nrow(before, k, row as int) == prev);
                        assert(nrow(out_ntt, k, row as int) =~= acc_row(*mat, *vec, row as int, k, n as nat, (col + 1) as nat));
                    }
                    assert forall|k: int, row2: int| 0 <= k < 5 && 0 <= row2 < h implies #[trigger] nrow(out_ntt, k, row2)
                        == acc_row(*mat, *vec, row2, k, n as nat, if row2 < row + 1 { (col + 1) as nat } else { col as nat }) by {
                        if row2 != row {
                            assert(nrow(before, k, row2) == acc_row(*mat, *vec, row2, k, n as nat,
                                if row2 < row { (col + 1) as nat } else { col as nat }));
                        }
                    }
                }
                row = row + 1;
            }
            col = col + 1;
        }
        let mut i: usize = 0;
        while i < h
            invariant
                self.wf(),
                mat.wf(),
                n == self.output_dim,
                h == mat.height,
                w == mat.width,
                32 <= n <= 0x8000,
                out_ntt.wf(),
                out_ntt.len == h,
                out_ntt.d == n,
                out.wf(),
                out.len == old(out).len,
                out.d == old(out).d,
                out.logd == old(out).logd,
                old(out).d == n,
                index + h <= out.len,
                0 <= i <= h,
                forall|k: int, row: int| 0 <= k < 5 && i <= row < h ==> #[trigger] nrow(out_ntt, k, row)
                    == acc_row(*mat, *vec, row, k, n as nat, w as nat),
                forall|row: int| 0 <= row < i ==> #[trigger] out.elem(index + row)
                    == row_product(*mat, *vec, row, n as nat, self.q as int),
                forall|i2: int| 0 <= i2 < old(out).len && !(index <= i2 < index + i) ==> #[trigger] out.elem(i2)
                    == old(out).elem(i2),
            decreases h - i,
        {
            let ghost before = out_ntt;
            let ghost out_before = out.vec@;
            let ghost out_snap = *out;
            proof {
                vstd::arithmetic::power2::lemma_pow2_pos(out_ntt.logd as nat);
                vstd::arithmetic::power2::lemma_pow2_pos(out.logd as nat);
                lemma_flat(i as int, 0, n as int, h as int);
                lemma_flat((index + i) as int, 0, n as int, out.len as int);
            }
            let (p0, p1, p2, p3, p4) = out_ntt.mut_element(i);
            let ghost (a0, a1, a2, a3, a4) = (p0@, p1@, p2@, p3@, p4@);
            let oe = out.mut_element(index + i);
            self._inv(oe, p0, p1, p2, p3, p4);
            let ghost oe_val = oe@;
            let ghost (v0, v1, v2, v3, v4) = (p0@, p1@, p2@, p3@, p4@);
            proof {
                let len = h as int;
                lemma_replace_elem(before.vec0@, out_ntt.vec0@, v0, i as int, n as int, len);
                lemma_replace_elem(before.vec1@, out_ntt.vec1@, v1, i as int, n as int, len);
                lemma_replace_elem(before.vec2@, out_ntt.vec2@, v2, i as int, n as int, len);
                lemma_replace_elem(before.vec3@, out_ntt.vec3@, v3, i as int, n as int, len);
                lemma_replace_elem(before.vec4@, out_ntt.vec4@, v4, i as int, n as int, len);
                lemma_replace_elem(out_before, out.vec@, oe_val, (index + i) as int, n as int, out.len as int);
                assert(nrow(before, 0, i as int) == acc_row(*mat, *vec, i as int, 0, n as nat, w as nat));
                assert(nrow(before, 1, i as int) == acc_row(*mat, *vec, i as int, 1, n as nat, w as nat));
                assert(nrow(before, 2, i as int) == acc_row(*mat, *vec, i as int, 2, n as nat, w as nat));
                assert(nrow(before, 3, i as int) == acc_row(*mat, *vec, i as int, 3, n as nat, w as nat));
                assert(nrow(before, 4, i as int) == acc_row(*mat, *vec, i as int, 4, n as nat, w as nat));
                assert(a0 == acc_row(*mat, *vec, i as int, 0, n as nat, w as nat));
                assert(a1 == acc_row(*mat, *vec, i as int, 1, n as nat, w as nat));
                assert(a2 == acc_row(*mat, *vec, i as int, 2, n as nat, w as nat));
                assert(a3 == acc_row(*mat, *vec, i as int, 3, n as nat, w as nat));
                assert(a4 == acc_row(*mat, *vec, i as int, 4, n as nat, w as nat));
                assert(out.elem((index + i) as int) == row_product(*mat, *vec, i as int, n as nat, self.q as int));
                assert forall|k: int, row: int| 0 <= k < 5 && i + 1 <= row < h implies #[trigger] nrow(out_ntt, k, row)
                    == acc_row(*mat, *vec, row, k, n as nat, w as nat) by {
                    assert(nrow(before, k, row) == acc_row(*mat, *vec, row, k, n as nat, w as nat));
                }
                assert forall|row: int| 0 <= row < i + 1 implies #[trigger] out.elem(index + row)
                    == row_product(*mat, *vec, row, n as nat, self.q as int) by {
                    if row < i {
                        lemma_flat(index + row, 0, n as int, out.len as int);
                        assert(out_snap.elem(index + row) == row_product(*mat, *vec, row, n as nat, self.q as int));
                        assert(out.vec@.subrange((index + row) * n, (index + row) * n + n)
                            == out_before.subrange((index + row) * n, (index + row) * n + n));
                    }
                }
                assert forall|i2: int| 0 <= i2 < old(out).len && !(index <= i2 < index + i + 1) implies #[trigger] out.elem(i2)
                    == old(out).elem(i2) by {
                    lemma_flat(i2, 0, n as int, out.len as int);
                    assert(out_snap.elem(i2) == old(out).elem(i2));
                    assert(out.vec@.subrange(i2 * n, i2 * n + n) == out_before.subrange(i2 * n, i2 * n + n));
                }
            }
            i = i + 1;
        }
    }
}

} // verus!
