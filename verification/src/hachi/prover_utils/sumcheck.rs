//! The two sumcheck polynomials of the prover and the prover half of the protocol. Both run over
//! the variables of the next witness `w`, least significant bit of the table index first:
//!
//! * `F_0(x) = eq(tau_0, x) w(x) (w(x) + b/2) prod_{r=1}^{b/2-1} (w(x)^2 - r^2)`, of degree `b + 1`
//!   in each variable, which vanishes on the hypercube exactly when every entry of `w` is a
//!   balanced digit;
//! * `F_alpha(x, y) = w(x, y) alpha(y) mbar(x)`, of degree 2, where `alpha(y)` is the multilinear
//!   extension of `(1, alpha, ..., alpha^{d-1})` over the `log d` coefficient variables `y` and
//!   `mbar(x) = sum_i eq(tau_1, i) M_alpha(i, x)` folds the rows of `M_alpha` into one.

use vstd::prelude::*;
use vstd::arithmetic::power2::pow2;
use crate::arithmetic::field::{Fq, Fq4, MODULUS, fq, fadd, fmul, lift4, add4, sub4, mul4, scale4, lemma_fq, lemma_fq_addv, lemma_fq_mulv};
use crate::arithmetic::sumcheck::{fq4_canonical, lemma_lift4_ops, lemma_mul4_zero_one};
use crate::arithmetic::sumcheck::{Univariate, SumCheckPoly, fix_first_variable, fold_table};
use crate::arithmetic::utils::{Logarithm, lift_int, mul_int_field, eq, spec_eq, signed, is_balanced_digit, lemma_ceil_log2_unique, ceil_log2, is_ceil_log2, is_pow2, exp2_of};
use crate::hachi::verify::{eq_bits, range_poly, range_acc, range_value, eq_bits_value, eq_prod, sc_chal, sc_transcript, mle, field_draw};
use crate::arithmetic::fs::{FS, Serialise, seed_fits, len_fits, lemma_len_fits_shorter, transcript_seed};
use crate::arithmetic::rng::Prg;
use crate::arithmetic::utils::rand_field;
use crate::hachi::setup::Q;

verus! {

/// The table of a vector of wrapping-signed integers lifted into `F_{q^4}`.
pub open spec fn lift_table(w: Seq<u64>) -> Seq<Fq4> {
    Seq::new(w.len(), |i: int| lift4(fq(signed(w[i]))))
}

/// The value at `X = k` of the linear function through `(0, w0)` and `(1, w1)`.
pub open spec fn interp(w0: Fq4, w1: Fq4, k: int) -> Fq4 {
    add4(w0, scale4(fq(k), sub4(w1, w0)))
}

/// The term of suffix `s` of the round message of `F_0` at `X = k`.
pub open spec fn f0_term(table: Seq<Fq4>, tau: Seq<Fq4>, scalar: Fq4, b: int, k: int, s: int) -> Fq4 {
    let wx = interp(table[2 * s], table[2 * s + 1], k);
    let eqx = mul4(
        mul4(scalar, spec_eq(tau[0], lift4(fq(k)))),
        eq_bits(tau.drop_first(), s as usize, (tau.len() - 1) as nat),
    );
    mul4(eqx, range_poly(wx, b))
}

/// The sum of the first `n` terms of the round message of `F_0` at `X = k`.
pub open spec fn f0_sum(table: Seq<Fq4>, tau: Seq<Fq4>, scalar: Fq4, b: int, k: int, n: nat) -> Fq4
    decreases n,
{
    if n == 0 {
        lift4(fq(0))
    } else {
        add4(f0_sum(table, tau, scalar, b, k, (n - 1) as nat), f0_term(table, tau, scalar, b, k, n - 1))
    }
}

/// The integer `d (d + b/2) prod_{r = 1}^{k} (d^2 - r^2)`.
pub open spec fn range_int(d: int, b: int, k: nat) -> int
    decreases k,
{
    if k == 0 {
        d * (d + b / 2)
    } else {
        range_int(d, b, (k - 1) as nat) * (d * d - k * k)
    }
}

/// Every reduction `fq(x)` is a residue.
proof fn lemma_fq_all()
    ensures
        forall|x: int| 0 <= #[trigger] fq(x).val() < MODULUS,
{
    assert forall|x: int| 0 <= #[trigger] fq(x).val() < MODULUS by {
        lemma_fq(x);
    }
}

/// Sums of base-field elements stay in the base field.
proof fn lemma_lift4_add(a: Fq, c: Fq)
    ensures
        add4(lift4(a), lift4(c)) == lift4(fadd(a, c)),
{
    lemma_fq_addv(fq(0), fq(0), 0, 0);
}

/// The line through two base-field values, at `X = k`, is the base-field value of the line.
proof fn lemma_interp_lift(a: int, c: int, k: int)
    ensures
        interp(lift4(fq(a)), lift4(fq(c)), k) == lift4(fq(a + k * (c - a))),
{
    lemma_lift4_ops(fq(k), fq(c - a), c, a);
    lemma_fq_mulv(fq(k), fq(c - a), k, c - a);
    lemma_lift4_add(fq(a), fmul(fq(k), fq(c - a)));
    lemma_fq_addv(fq(a), fq(k * (c - a)), a, k * (c - a));
}

/// The range polynomial at a base-field value is the base-field value of [`range_int`].
proof fn lemma_range_acc_lift(d: int, b: int, k: nat)
    ensures
        range_acc(lift4(fq(d)), b, k) == lift4(fq(range_int(d, b, k))),
    decreases k,
{
    if k == 0 {
        lemma_lift4_add(fq(d), fq(b / 2));
        lemma_fq_addv(fq(d), fq(b / 2), d, b / 2);
        lemma_lift4_ops(fq(d), fq(d + b / 2), 0, 0);
        lemma_fq_mulv(fq(d), fq(d + b / 2), d, d + b / 2);
    } else {
        let pk = range_int(d, b, (k - 1) as nat);
        lemma_range_acc_lift(d, b, (k - 1) as nat);
        lemma_lift4_ops(fq(d), fq(d), 0, 0);
        lemma_fq_mulv(fq(d), fq(d), d, d);
        lemma_lift4_ops(fq(pk), fq(d * d - k * k), d * d, (k * k) as int);
        lemma_fq_mulv(fq(pk), fq(d * d - k * k), pk, d * d - k * k);
    }
}

/// [`range_int`] vanishes at `0`, at `-b/2`, and at `d` with `0 < |d| <= k`.
proof fn lemma_range_int_zero(d: int, b: int, k: nat)
    requires
        d == 0 || d == -(b / 2) || (1 <= d <= k) || (-(k as int) <= d <= -1),
    ensures
        range_int(d, b, k) == 0,
    decreases k,
{
    if k == 0 {
        if d == 0 {
            assert(d * (d + b / 2) == 0);
        } else {
            assert(d + b / 2 == 0);
            assert(d * (d + b / 2) == 0) by (nonlinear_arith)
                requires
                    d + b / 2 == 0,
            ;
        }
    } else {
        let pk = range_int(d, b, (k - 1) as nat);
        if d == k || d == -(k as int) {
            assert(d * d - k * k == 0) by (nonlinear_arith)
                requires
                    d == k || d == -(k as int),
            ;
        } else {
            lemma_range_int_zero(d, b, (k - 1) as nat);
        }
        assert(pk * (d * d - k * k) == 0) by (nonlinear_arith)
            requires
                pk == 0 || d * d - k * k == 0,
        ;
    }
}

/// A term of the message of `F_0` at a node `k` of the hypercube (`0` or `1`) vanishes when both
/// entries of its pair are balanced digits.
proof fn lemma_f0_term_zero(z: Seq<u64>, tau: Seq<Fq4>, scalar: Fq4, b: int, k: int, s: int)
    requires
        2 <= b,
        k == 0 || k == 1,
        0 <= s,
        2 * s + 1 < z.len(),
        is_balanced_digit(z[2 * s], b),
        is_balanced_digit(z[2 * s + 1], b),
    ensures
        f0_term(lift_table(z), tau, scalar, b, k, s) == lift4(fq(0)),
{
    let t = lift_table(z);
    let a = signed(z[2 * s]);
    let c = signed(z[2 * s + 1]);
    lemma_interp_lift(a, c, k);
    let d = if k == 0 { a } else { c };
    assert(a + k * (c - a) == d);
    lemma_range_acc_lift(d, b, (b / 2 - 1) as nat);
    lemma_range_int_zero(d, b, (b / 2 - 1) as nat);
    let eqx = mul4(
        mul4(scalar, spec_eq(tau[0], lift4(fq(k)))),
        eq_bits(tau.drop_first(), s as usize, (tau.len() - 1) as nat),
    );
    lemma_fq_all();
    assert(fq4_canonical(eqx));
    lemma_mul4_zero_one(eqx);
}

/// The sum of the first `n` terms of the message of `F_0` at `0` or `1` vanishes on balanced
/// digits.
proof fn lemma_f0_sum_zero(z: Seq<u64>, tau: Seq<Fq4>, scalar: Fq4, b: int, k: int, n: nat)
    requires
        2 <= b,
        k == 0 || k == 1,
        2 * n <= z.len(),
        forall|i: int| 0 <= i < z.len() ==> is_balanced_digit(#[trigger] z[i], b),
    ensures
        f0_sum(lift_table(z), tau, scalar, b, k, n) == lift4(fq(0)),
    decreases n,
{
    if n > 0 {
        lemma_f0_sum_zero(z, tau, scalar, b, k, (n - 1) as nat);
        lemma_f0_term_zero(z, tau, scalar, b, k, n - 1);
        lemma_fq_all();
        lemma_mul4_zero_one(lift4(fq(0)));
    }
}

/// `F_0` vanishes on the hypercube when every entry of the witness is a balanced digit: for a
/// witness `z` of such digits, the first message of `F_0` (the terms of its first `n` suffixes,
/// whatever the point `tau` and the scalar) sums to zero over `{0, 1}`.
pub proof fn lemma_f0_balanced_sum_zero(z: Seq<u64>, tau: Seq<Fq4>, scalar: Fq4, b: int, n: nat)
    requires
        2 <= b,
        2 * n <= z.len(),
        forall|i: int| 0 <= i < z.len() ==> is_balanced_digit(#[trigger] z[i], b),
    ensures
        add4(f0_sum(lift_table(z), tau, scalar, b, 0, n), f0_sum(lift_table(z), tau, scalar, b, 1, n)) == lift4(fq(0)),
{
    lemma_f0_sum_zero(z, tau, scalar, b, 0, n);
    lemma_f0_sum_zero(z, tau, scalar, b, 1, n);
    lemma_fq_all();
    lemma_mul4_zero_one(lift4(fq(0)));
}

/// The residue modulo `q` of the wrapping-signed integer `x`.
fn signed_residue(x: u64) -> (r: u64)
    ensures
        r as int == signed(x) % (MODULUS as int),
        r < MODULUS,
{
    let q = MODULUS;
    if x < 0x8000_0000_0000_0000 {
        x % q
    } else {
        let n = (0xffff_ffff_ffff_ffffu64 - x) + 1;
        let m = n % q;
        proof {
            assert(signed(x) == -(n as int));
            let t = (n as int) / (q as int);
            vstd::arithmetic::div_mod::lemma_fundamental_div_mod(n as int, q as int);
            if m > 0 {
                vstd::arithmetic::div_mod::lemma_fundamental_div_mod_converse(
                    signed(x), q as int, -t - 1, (q - m) as int);
            } else {
                vstd::arithmetic::div_mod::lemma_fundamental_div_mod_converse(signed(x), q as int, -t, 0);
            }
        }
        if m == 0 { 0 } else { q - m }
    }
}

/// The range polynomial at `X = k` on the line through the lifted witness entries `w0` and `w1`,
/// computed over the integers modulo `q` (the first round, where the table is the witness).
fn range_value_int(w0: u64, w1: u64, k: u64, b: u64) -> (v: Fq4)
    requires
        2 <= b <= 0x8000_0000,
        k <= b + 1,
    ensures
        v == range_poly(interp(lift4(fq(signed(w0))), lift4(fq(signed(w1))), k as int), b as int),
{
    let q = MODULUS;
    let ghost qi = q as int;
    let ghost sa = signed(w0);
    let ghost sc = signed(w1);
    let ghost dd: int = sa + k * (sc - sa);
    let a = signed_residue(w0);
    let c = signed_residue(w1);
    let diff = (c + q - a) % q;
    proof {
        vstd::arithmetic::div_mod::lemma_mod_add_multiples_vanish(c - a, qi);
        assert(c + q - a == qi + (c - a));
        vstd::arithmetic::div_mod::lemma_sub_mod_noop(sc, sa, qi);
        assert(diff as int == (sc - sa) % qi);
    }
    proof {
        assert((k as int) * (diff as int) <= 0x8000_0001 * 0x1_0000_0000) by (nonlinear_arith)
            requires
                k <= 0x8000_0001,
                diff < 0x1_0000_0000,
        ;
    }
    let d = ((a as u128 + (k as u128) * (diff as u128)) % (q as u128)) as u64;
    proof {
        let y = k * diff;
        vstd::arithmetic::div_mod::lemma_mul_mod_noop_right(k as int, sc - sa, qi);
        assert(y % qi == (k * (sc - sa)) % qi);
        vstd::arithmetic::div_mod::lemma_add_mod_noop(sa, y, qi);
        vstd::arithmetic::div_mod::lemma_add_mod_noop_right(a as int, y, qi);
        vstd::arithmetic::div_mod::lemma_add_mod_noop_right(sa, y, qi);
        vstd::arithmetic::div_mod::lemma_add_mod_noop_right(sa, k * (sc - sa), qi);
        assert(d as int == dd % qi);
    }
    let half = b / 2;
    let e = (d + half) % q;
    proof {
        assert((d as int) * (e as int) < 0x1_0000_0000 * 0x1_0000_0000) by (nonlinear_arith)
            requires
                d < 0x1_0000_0000,
                e < 0x1_0000_0000,
        ;
        assert((d as int) * (d as int) < 0x1_0000_0000 * 0x1_0000_0000) by (nonlinear_arith)
            requires
                d < 0x1_0000_0000,
        ;
    }
    let mut v = ((d as u128) * (e as u128) % (q as u128)) as u64;
    let sq = ((d as u128) * (d as u128) % (q as u128)) as u64;
    proof {
        vstd::arithmetic::div_mod::lemma_add_mod_noop(dd, half as int, qi);
        vstd::arithmetic::div_mod::lemma_add_mod_noop_right(d as int, half as int, qi);
        assert(e as int == (dd + half) % qi);
        vstd::arithmetic::div_mod::lemma_mul_mod_noop(dd, dd + half, qi);
        vstd::arithmetic::div_mod::lemma_mul_mod_noop(dd, dd, qi);
        assert(v as int == range_int(dd, b as int, 0) % qi);
    }
    let mut r: u64 = 1;
    while r < half
        invariant
            1 <= r <= half,
            half == b / 2,
            2 <= b <= 0x8000_0000,
            q == MODULUS,
            qi == q as int,
            v < q,
            sq < q,
            sq as int == (dd * dd) % qi,
            v as int == range_int(dd, b as int, (r - 1) as nat) % qi,
        decreases half - r,
    {
        proof {
            assert((r as int) * (r as int) < 0x4000_0000 * 0x4000_0000) by (nonlinear_arith)
                requires
                    r < 0x4000_0000,
            ;
            assert((v as int) * (sq as int) < 0x1_0000_0000 * 0x1_0000_0000) by (nonlinear_arith)
                requires
                    v < 0x1_0000_0000,
                    sq < 0x1_0000_0000,
            ;
        }
        let rr = (r * r) % q;
        let t = (sq + q - rr) % q;
        proof {
            vstd::arithmetic::div_mod::lemma_mod_add_multiples_vanish(sq - rr, qi);
            assert(sq + q - rr == qi + (sq - rr));
            vstd::arithmetic::div_mod::lemma_sub_mod_noop(dd * dd, (r * r) as int, qi);
            assert(t as int == (dd * dd - r * r) % qi);
            vstd::arithmetic::div_mod::lemma_mul_mod_noop(range_int(dd, b as int, (r - 1) as nat), dd * dd - r * r, qi);
            assert(range_int(dd, b as int, r as nat) == range_int(dd, b as int, (r - 1) as nat) * (dd * dd - r * r));
        }
        proof {
            assert((v as int) * (t as int) < 0x1_0000_0000 * 0x1_0000_0000) by (nonlinear_arith)
                requires
                    v < 0x1_0000_0000,
                    t < 0x1_0000_0000,
            ;
        }
        v = ((v as u128) * (t as u128) % (q as u128)) as u64;
        r = r + 1;
    }
    let res = lift_int(v);
    proof {
        let ri = range_int(dd, b as int, (half - 1) as nat);
        lemma_fq(v as int);
        lemma_fq(ri);
        vstd::arithmetic::div_mod::lemma_small_mod(v as nat, q as nat);
        crate::arithmetic::field::lemma_fq_ext(fq(v as int), fq(ri));
        lemma_range_acc_lift(dd, b as int, (half - 1) as nat);
        lemma_interp_lift(sa, sc, k as int);
    }
    res
}

/// The polynomial `F_0` with some variables fixed: `scalar * eq(tau, x) * range(w(x))` over the
/// remaining variables, `w` held as its table on the hypercube.
pub struct F0 {
    w: Vec<u64>,
    w_eval_table: Vec<Fq4>,
    base: u64,
    tau_0: Vec<Fq4>,
    eq_scalar: Fq4,
    len: usize,
}

impl F0 {
    /// The table of `w` over the remaining variables.
    pub closed spec fn table(&self) -> Seq<Fq4> {
        self.w_eval_table@
    }

    /// The coordinates of `tau_0` for the remaining variables.
    pub closed spec fn tau(&self) -> Seq<Fq4> {
        self.tau_0@
    }

    /// The product of `eq(tau_0, r)` over the variables fixed so far.
    pub closed spec fn scalar(&self) -> Fq4 {
        self.eq_scalar
    }

    /// The decomposition base `b`.
    pub closed spec fn base(&self) -> u64 {
        self.base
    }

    /// No variable is fixed yet.
    pub closed spec fn first_round(&self) -> bool {
        self.w_eval_table@.len() == self.w@.len()
    }

    /// The table is no longer than the witness it started from.
    pub closed spec fn table_within(&self) -> bool {
        self.w_eval_table@.len() <= self.w@.len()
    }

    /// Before the first variable is fixed, the table is the witness lifted into `F_{q^4}`.
    pub closed spec fn raw_ok(&self) -> bool {
        self.first_round() ==> self.w_eval_table@ == lift_table(self.w@)
    }

    /// Length of the unpadded part of the witness: in the first round, suffixes past it are
    /// skipped.
    pub closed spec fn unpadded(&self) -> nat {
        self.len as nat
    }

    /// The number of suffixes summed in the round message.
    pub open spec fn terms(&self) -> nat {
        let half = self.table().len() / 2;
        if self.first_round() && (self.unpadded() + 1) / 2 < half {
            (self.unpadded() + 1) / 2
        } else {
            half
        }
    }

    /// Form `F_0` for the witness `z_r` (wrapping-signed digits), the base `b`, the point `tau_0`
    /// and the length `len` of the unpadded part of the witness.
    pub fn init(z_r: &Vec<u64>, base: u64, tau_0: Vec<Fq4>, q: u64, len: usize) -> (f: Self)
        requires
            q == MODULUS,
        ensures
            f.table() == lift_table(z_r@),
            f.tau() == tau_0@,
            f.scalar() == lift4(fq(1)),
            f.base() == base,
            f.first_round(),
            f.table_within(),
            f.raw_ok(),
            f.unpadded() == len,
    {
        let mut w: Vec<u64> = Vec::with_capacity(z_r.len());
        let mut table: Vec<Fq4> = Vec::with_capacity(z_r.len());
        let mut i: usize = 0;
        while i < z_r.len()
            invariant
                0 <= i <= z_r@.len(),
                w@ == z_r@.take(i as int),
                table@ == lift_table(z_r@).take(i as int),
            decreases z_r@.len() - i,
        {
            w.push(z_r[i]);
            table.push(lift_int(z_r[i]));
            proof {
                assert(w@ =~= z_r@.take(i + 1));
                assert(table@ =~= lift_table(z_r@).take(i + 1));
            }
            i = i + 1;
        }
        proof {
            assert(w@ =~= z_r@);
            assert(table@ =~= lift_table(z_r@));
        }
        F0 { w, w_eval_table: table, base, tau_0, eq_scalar: Fq4::one(), len }
    }
}

impl F0 {
    /// The single entry left once every variable is fixed.
    pub fn first_entry(&self) -> (v: Fq4)
        requires
            self.table().len() >= 1,
        ensures
            v == self.table()[0],
    {
        self.w_eval_table[0]
    }
}

impl SumCheckPoly for F0 {
    open spec fn wf(&self) -> bool {
        &&& self.table().len() == pow2(self.tau().len())
        &&& 1 <= self.tau().len() < 64
        &&& 2 <= self.base() <= 0x8000_0000
        &&& self.table_within()
        &&& self.raw_ok()
    }

    fn num_vars(&self) -> (n: usize)
        ensures
            n == self.tau().len(),
    {
        let n = self.w_eval_table.len().log();
        proof {
            crate::hachi::common::lemma_ceil_pow2(pow2(self.tau_0@.len()));
            vstd::arithmetic::power2::lemma_pow2_pos((self.tau_0@.len() - 1) as nat);
            vstd::arithmetic::power2::lemma_pow2_unfold(self.tau_0@.len());
            assert(is_ceil_log2(pow2(self.tau_0@.len()), self.tau_0@.len()));
            lemma_ceil_log2_unique(pow2(self.tau_0@.len()), n as nat);
            lemma_ceil_log2_unique(pow2(self.tau_0@.len()), self.tau_0@.len());
        }
        n
    }

    /// `b + 1`.
    fn degree(&self) -> (deg: usize)
        ensures
            deg == self.base() + 1,
    {
        self.base as usize + 1
    }

    fn get_univariate(&self) -> (u: Univariate)
        ensures
            u@.len() == self.base() + 2,
            forall|k: int| 0 <= k < u@.len() ==> #[trigger] u@[k]
                == f0_sum(self.table(), self.tau(), self.scalar(), self.base() as int, k, self.terms()),
    {
        let nv = self.num_vars();
        proof {
            vstd::arithmetic::power2::lemma_pow2_unfold(nv as nat);
            vstd::arithmetic::power2::lemma_pow2_pos((nv - 1) as nat);
        }
        let tlen = self.w_eval_table.len();
        let half = tlen / 2;
        let first = tlen == self.w.len();
        let tau_rest = vstd::slice::slice_subrange(self.tau_0.as_slice(), 1, nv);
        proof {
            assert(tau_rest@ =~= self.tau_0@.drop_first());
        }
        let mut eq_suffix: Vec<Fq4> = Vec::with_capacity(half);
        let mut s: usize = 0;
        while s < half
            invariant
                0 <= s <= half,
                nv == self.tau_0@.len(),
                1 <= nv < 64,
                tau_rest@ == self.tau_0@.drop_first(),
                eq_suffix@.len() == s,
                forall|t: int| 0 <= t < s ==> #[trigger] eq_suffix@[t] == eq_bits(tau_rest@, t as usize, (nv - 1) as nat),
            decreases half - s,
        {
            eq_suffix.push(eq_bits_value(tau_rest, s, nv - 1));
            s = s + 1;
        }
        let count = if first && (self.len / 2 + self.len % 2) < half { self.len / 2 + self.len % 2 } else { half };
        let deg = self.base as usize + 1;
        let mut ys: Vec<Fq4> = Vec::with_capacity(deg + 1);
        let mut k: usize = 0;
        while k <= deg
            invariant
                0 <= k <= deg + 1,
                deg == self.base + 1,
                2 <= self.base <= 0x8000_0000,
                tlen == self.w_eval_table@.len(),
                half == self.w_eval_table@.len() / 2,
                self.w_eval_table@.len() == 2 * half,
                count <= half,
                count == self.terms(),
                first == self.first_round(),
                first ==> self.table() == lift_table(self.w@),
                nv == self.tau_0@.len(),
                1 <= nv < 64,
                tau_rest@ == self.tau_0@.drop_first(),
                eq_suffix@.len() == half,
                forall|t: int| 0 <= t < half ==> #[trigger] eq_suffix@[t] == eq_bits(tau_rest@, t as usize, (nv - 1) as nat),
                ys@.len() == k,
                forall|t: int| 0 <= t < k ==> #[trigger] ys@[t]
                    == f0_sum(self.table(), self.tau(), self.scalar(), self.base() as int, t, count as nat),
            decreases deg + 1 - k,
        {
            let eq_k = self.eq_scalar.times(eq(self.tau_0[0], lift_int(k as u64)));
            let mut y = Fq4::zero();
            let mut s: usize = 0;
            while s < count
                invariant
                    0 <= s <= count,
                    count <= half,
                    first == self.first_round(),
                    first ==> self.table() == lift_table(self.w@),
                    k <= deg,
                    deg == self.base + 1,
                    2 <= self.base <= 0x8000_0000,
                    tlen == self.w_eval_table@.len(),
                    self.w_eval_table@.len() == 2 * half,
                    nv == self.tau_0@.len(),
                    1 <= nv < 64,
                    tau_rest@ == self.tau_0@.drop_first(),
                    eq_suffix@.len() == half,
                    forall|t: int| 0 <= t < half ==> #[trigger] eq_suffix@[t] == eq_bits(tau_rest@, t as usize, (nv - 1) as nat),
                    eq_k == mul4(self.eq_scalar, spec_eq(self.tau_0@[0], lift4(fq(k as int)))),
                    y == f0_sum(self.table(), self.tau(), self.scalar(), self.base() as int, k as int, s as nat),
                decreases count - s,
            {
                let v_x = if first {
                    // the first round: the witness entries over the integers modulo q
                    proof {
                        assert(self.table()[2 * s] == lift4(fq(signed(self.w@[2 * s]))));
                        assert(self.table()[2 * s + 1] == lift4(fq(signed(self.w@[2 * s + 1]))));
                    }
                    range_value_int(self.w[2 * s], self.w[2 * s + 1], k as u64, self.base)
                } else {
                    let w_0 = self.w_eval_table[2 * s];
                    let w_1 = self.w_eval_table[2 * s + 1];
                    let w_x = w_0.plus(mul_int_field(k as u64, w_1.minus(w_0)));
                    range_value(w_x, self.base)
                };
                y = y.plus(eq_k.times(eq_suffix[s]).times(v_x));
                s = s + 1;
            }
            ys.push(y);
            k = k + 1;
        }
        Univariate::init(ys)
    }

    fn fix_first_variable(&mut self, r: Fq4)
        ensures
            final(self).table() == fold_table(old(self).table(), r),
            final(self).tau() == old(self).tau().drop_first(),
            final(self).scalar() == mul4(old(self).scalar(), spec_eq(old(self).tau()[0], r)),
            final(self).base() == old(self).base(),
            final(self).unpadded() == old(self).unpadded(),
            !final(self).first_round(),
            final(self).table_within(),
            final(self).raw_ok(),
    {
        let nv = self.tau_0.len();
        proof {
            vstd::arithmetic::power2::lemma_pow2_unfold(nv as nat);
            vstd::arithmetic::power2::lemma_pow2_pos((nv - 1) as nat);
        }
        self.w_eval_table = fix_first_variable(&self.w_eval_table, r);
        self.eq_scalar = self.eq_scalar.times(eq(self.tau_0[0], r));
        let rest = vstd::slice::slice_subrange(self.tau_0.as_slice(), 1, nv);
        let mut tau: Vec<Fq4> = Vec::with_capacity(nv - 1);
        let mut i: usize = 0;
        while i < rest.len()
            invariant
                0 <= i <= rest@.len(),
                tau@ == rest@.take(i as int),
            decreases rest@.len() - i,
        {
            tau.push(rest[i]);
            i = i + 1;
        }
        proof {
            assert(tau@ =~= old(self).tau_0@.drop_first());
        }
        self.tau_0 = tau;
    }
}

/// `mbar(x)` accumulated over the first `n` rows: `sum_{i < n} eq(tau_1, i) M(i, x)`.
pub open spec fn mbar_acc(m: Seq<Fq4>, tau: Seq<Fq4>, width: int, x: int, n: nat) -> Fq4
    decreases n,
{
    if n == 0 {
        lift4(fq(0))
    } else {
        add4(mbar_acc(m, tau, width, x, (n - 1) as nat), mul4(eq_bits(tau, (n - 1) as usize, tau.len()), m[(n - 1) * width + x]))
    }
}

/// The table of `mbar(x) = sum_i eq(tau, i) M(i, x)` over the columns `x` of the row-major table
/// `m` of `2^|tau|` rows.
pub open spec fn mbar_table(m: Seq<Fq4>, tau: Seq<Fq4>) -> Seq<Fq4> {
    let h = pow2(tau.len());
    let w = m.len() / h;
    Seq::new(w, |x: int| mbar_acc(m, tau, w as int, x, h))
}

/// While coefficient variables remain: `sum_{s < n} w_k(x, s) alpha_k(s)` for entry `x`, where
/// `_k` is the interpolation at `X = k` in the first variable.
pub open spec fn fa_acc(w: Seq<Fq4>, al: Seq<Fq4>, x: int, k: int, n: nat) -> Fq4
    decreases n,
{
    if n == 0 {
        lift4(fq(0))
    } else {
        let half_y = al.len() / 2;
        let s = n - 1;
        let idx = x * half_y + s;
        add4(
            fa_acc(w, al, x, k, (n - 1) as nat),
            mul4(interp(w[2 * idx], w[2 * idx + 1], k), interp(al[2 * s], al[2 * s + 1], k)),
        )
    }
}

/// While coefficient variables remain: `sum_{x < n} mbar(x) fa_acc(x)`.
pub open spec fn fa_sum_y(w: Seq<Fq4>, al: Seq<Fq4>, mb: Seq<Fq4>, k: int, n: nat) -> Fq4
    decreases n,
{
    if n == 0 {
        lift4(fq(0))
    } else {
        add4(fa_sum_y(w, al, mb, k, (n - 1) as nat), mul4(mb[n - 1], fa_acc(w, al, n - 1, k, (al.len() / 2) as nat)))
    }
}

/// Once the coefficient variables are fixed: `sum_{s < n} w_k(s) mbar_k(s) alpha`.
pub open spec fn fa_sum_x(w: Seq<Fq4>, alpha: Fq4, mb: Seq<Fq4>, k: int, n: nat) -> Fq4
    decreases n,
{
    if n == 0 {
        lift4(fq(0))
    } else {
        let s = n - 1;
        add4(
            fa_sum_x(w, alpha, mb, k, (n - 1) as nat),
            mul4(mul4(interp(w[2 * s], w[2 * s + 1], k), interp(mb[2 * s], mb[2 * s + 1], k)), alpha),
        )
    }
}

/// The round message of `F_alpha` at `X = k`.
pub open spec fn fa_msg(w: Seq<Fq4>, al: Seq<Fq4>, mb: Seq<Fq4>, k: int) -> Fq4 {
    if al.len() > 1 {
        fa_sum_y(w, al, mb, k, mb.len())
    } else {
        fa_sum_x(w, al[0], mb, k, mb.len() / 2)
    }
}

/// The polynomial `F_alpha(x, y) = w(x, y) alpha(y) mbar(x)` with some variables fixed, each
/// factor held as its table over the remaining variables.
pub struct FAlpha {
    w_eval_table: Vec<Fq4>,
    alpha_pows_eval_table: Vec<Fq4>,
    m_bar_eval_table: Vec<Fq4>,
}

impl FAlpha {
    /// The table of `w`, entry index high, coefficient index low.
    pub closed spec fn w_table(&self) -> Seq<Fq4> {
        self.w_eval_table@
    }

    /// The table of `alpha(y)`.
    pub closed spec fn alpha_table(&self) -> Seq<Fq4> {
        self.alpha_pows_eval_table@
    }

    /// The table of `mbar(x)`.
    pub closed spec fn mbar_table(&self) -> Seq<Fq4> {
        self.m_bar_eval_table@
    }

    /// Form `F_alpha` from the witness `z_r`, the powers of `alpha`, `tau_1` and the row-major
    /// table of `M_alpha` (`2^{|tau_1|}` rows).
    pub fn init(z_r: &Vec<u64>, alpha_pows_eval_table: Vec<Fq4>, tau_1: Vec<Fq4>, m_alpha_eval_table: Vec<Fq4>) -> (f: Self)
        requires
            tau_1@.len() < 64,
            pow2(tau_1@.len()) <= usize::MAX,
            m_alpha_eval_table@.len() % pow2(tau_1@.len()) == 0,
            (m_alpha_eval_table@.len() / pow2(tau_1@.len())) * alpha_pows_eval_table@.len() == z_r@.len(),
        ensures
            f.w_table() == lift_table(z_r@),
            f.alpha_table() == alpha_pows_eval_table@,
            f.mbar_table() == mbar_table(m_alpha_eval_table@, tau_1@),
    {
        let mut table: Vec<Fq4> = Vec::with_capacity(z_r.len());
        let mut i: usize = 0;
        while i < z_r.len()
            invariant
                0 <= i <= z_r@.len(),
                table@ == lift_table(z_r@).take(i as int),
            decreases z_r@.len() - i,
        {
            table.push(lift_int(z_r[i]));
            proof {
                assert(table@ =~= lift_table(z_r@).take(i + 1));
            }
            i = i + 1;
        }
        proof {
            assert(table@ =~= lift_table(z_r@));
        }
        let log_n = tau_1.len();
        let height = crate::arithmetic::utils::pow2_usize(log_n);
        proof {
            vstd::arithmetic::power2::lemma_pow2_pos(log_n as nat);
        }
        let mlen = m_alpha_eval_table.len();
        let width = mlen / height;
        proof {
            vstd::arithmetic::div_mod::lemma_fundamental_div_mod(m_alpha_eval_table@.len() as int, height as int);
        }
        let mut m_bar: Vec<Fq4> = Vec::with_capacity(width);
        let mut x: usize = 0;
        while x < width
            invariant
                0 <= x <= width,
                m_bar@.len() == x,
                forall|t: int| 0 <= t < x ==> #[trigger] m_bar@[t] == lift4(fq(0)),
            decreases width - x,
        {
            m_bar.push(Fq4::zero());
            x = x + 1;
        }
        let mut i: usize = 0;
        while i < height
            invariant
                0 <= i <= height,
                height == pow2(log_n as nat),
                height >= 1,
                log_n == tau_1@.len(),
                log_n < 64,
                width == m_alpha_eval_table@.len() / (height as nat),
                m_alpha_eval_table@.len() == height * width,
                mlen == m_alpha_eval_table@.len(),
                m_bar@.len() == width,
                forall|t: int| 0 <= t < width ==> #[trigger] m_bar@[t] == mbar_acc(m_alpha_eval_table@, tau_1@, width as int, t, i as nat),
            decreases height - i,
        {
            let eq_i = eq_bits_value(tau_1.as_slice(), i, log_n);
            let mut x: usize = 0;
            while x < width
                invariant
                    0 <= x <= width,
                    0 <= i < height,
                    width == m_alpha_eval_table@.len() / (height as nat),
                    m_alpha_eval_table@.len() == height * width,
                    mlen == m_alpha_eval_table@.len(),
                    eq_i == eq_bits(tau_1@, i, log_n as nat),
                    log_n == tau_1@.len(),
                    m_bar@.len() == width,
                    forall|t: int| 0 <= t < x ==> #[trigger] m_bar@[t] == mbar_acc(m_alpha_eval_table@, tau_1@, width as int, t, (i + 1) as nat),
                    forall|t: int| x <= t < width ==> #[trigger] m_bar@[t] == mbar_acc(m_alpha_eval_table@, tau_1@, width as int, t, i as nat),
                decreases width - x,
            {
                assert(i * width + x < height * width && i * width <= height * width) by (nonlinear_arith)
                    requires
                        i < height,
                        x < width,
                ;
                let cur = m_bar[x];
                m_bar.set(x, cur.plus(eq_i.times(m_alpha_eval_table[i * width + x])));
                x = x + 1;
            }
            i = i + 1;
        }
        proof {
            assert(m_bar@ =~= Seq::new(
                m_alpha_eval_table@.len() / pow2(tau_1@.len()),
                |x: int| mbar_acc(m_alpha_eval_table@, tau_1@, (m_alpha_eval_table@.len() / pow2(tau_1@.len())) as int, x, pow2(tau_1@.len())),
            ));
        }
        FAlpha { w_eval_table: table, alpha_pows_eval_table, m_bar_eval_table: m_bar }
    }
}

/// Half of a power of two above 1 is a power of two.
proof fn lemma_pow2_half(n: nat)
    requires
        is_pow2(n),
        n > 1,
    ensures
        n % 2 == 0,
        is_pow2(n / 2),
        n / 2 >= 1,
{
    let k = choose|k: nat| k < 64 && n == pow2(k);
    if k == 0 {
        vstd::arithmetic::power2::lemma2_to64();
    } else {
        vstd::arithmetic::power2::lemma_pow2_unfold(k);
        vstd::arithmetic::power2::lemma_pow2_pos((k - 1) as nat);
        assert(((k - 1) as nat) < 64 && n / 2 == pow2((k - 1) as nat));
    }
}

impl FAlpha {
    /// The first entry of the table of `w`: its value once every variable is fixed.
    pub fn first_entry(&self) -> (v: Fq4)
        requires
            self.w_table().len() >= 1,
        ensures
            v == self.w_table()[0],
    {
        self.w_eval_table[0]
    }
}

impl SumCheckPoly for FAlpha {
    open spec fn wf(&self) -> bool {
        &&& is_pow2(self.alpha_table().len())
        &&& is_pow2(self.mbar_table().len())
        &&& self.w_table().len() == self.alpha_table().len() * self.mbar_table().len()
        &&& self.w_table().len() >= 2
    }

    fn num_vars(&self) -> (n: usize)
        ensures
            n == ceil_log2(self.w_table().len()),
    {
        let n = self.w_eval_table.len().log();
        proof {
            lemma_ceil_log2_unique(self.w_eval_table@.len(), n as nat);
        }
        n
    }

    /// `2`.
    fn degree(&self) -> (deg: usize)
        ensures
            deg == 2,
    {
        2
    }

    fn get_univariate(&self) -> (u: Univariate)
        ensures
            u@.len() == 3,
            forall|k: int| 0 <= k < 3 ==> #[trigger] u@[k] == fa_msg(self.w_table(), self.alpha_table(), self.mbar_table(), k),
    {
        let len_y = self.alpha_pows_eval_table.len();
        let len_x = self.m_bar_eval_table.len();
        let len_w = self.w_eval_table.len();
        proof {
            crate::arithmetic::utils::lemma_pow2_ge1(len_y as nat);
            crate::arithmetic::utils::lemma_pow2_ge1(len_x as nat);
        }
        let mut ys: Vec<Fq4> = Vec::with_capacity(3);
        let mut k: usize = 0;
        while k <= 2
            invariant
                0 <= k <= 3,
                len_y == self.alpha_pows_eval_table@.len(),
                len_x == self.m_bar_eval_table@.len(),
                len_w == self.w_eval_table@.len(),
                self.wf(),
                len_y >= 1,
                len_x >= 1,
                ys@.len() == k,
                forall|t: int| 0 <= t < k ==> #[trigger] ys@[t] == fa_msg(self.w_table(), self.alpha_table(), self.mbar_table(), t),
            decreases 3 - k,
        {
            let mut y = Fq4::zero();
            if len_y > 1 {
                let half_y = len_y / 2;
                proof {
                    lemma_pow2_half(len_y as nat);
                }
                let mut x: usize = 0;
                while x < len_x
                    invariant
                        0 <= x <= len_x,
                        k <= 2,
                        len_y == self.alpha_pows_eval_table@.len(),
                        len_x == self.m_bar_eval_table@.len(),
                        len_w == self.w_eval_table@.len(),
                        len_w == len_y * len_x,
                        len_y == 2 * half_y,
                        half_y >= 1,
                        y == fa_sum_y(self.w_table(), self.alpha_table(), self.mbar_table(), k as int, x as nat),
                    decreases len_x - x,
                {
                    let mut acc = Fq4::zero();
                    let mut t: usize = 0;
                    while t < half_y
                        invariant
                            0 <= t <= half_y,
                            0 <= x < len_x,
                            k <= 2,
                            len_y == self.alpha_pows_eval_table@.len(),
                            len_w == self.w_eval_table@.len(),
                            len_w == len_y * len_x,
                            len_y == 2 * half_y,
                            acc == fa_acc(self.w_table(), self.alpha_table(), x as int, k as int, t as nat),
                        decreases half_y - t,
                    {
                        assert(2 * (x * half_y + t) + 1 < len_w) by (nonlinear_arith)
                            requires
                                x < len_x,
                                t < half_y,
                                len_w == len_y * len_x,
                                len_y == 2 * half_y,
                        ;
                        let idx = x * half_y + t;
                        let w_0 = self.w_eval_table[2 * idx];
                        let w_1 = self.w_eval_table[2 * idx + 1];
                        let w_x = w_0.plus(mul_int_field(k as u64, w_1.minus(w_0)));
                        let alpha_0 = self.alpha_pows_eval_table[2 * t];
                        let alpha_1 = self.alpha_pows_eval_table[2 * t + 1];
                        let alpha_x = alpha_0.plus(mul_int_field(k as u64, alpha_1.minus(alpha_0)));
                        acc = acc.plus(w_x.times(alpha_x));
                        t = t + 1;
                    }
                    y = y.plus(self.m_bar_eval_table[x].times(acc));
                    x = x + 1;
                }
            } else {
                let alpha = self.alpha_pows_eval_table[0];
                proof {
                    assert(len_y * len_x == len_x) by (nonlinear_arith)
                        requires
                            len_y == 1,
                    ;
                    lemma_pow2_half(len_x as nat);
                }
                let mut t: usize = 0;
                while t < len_x / 2
                    invariant
                        0 <= t <= len_x / 2,
                        k <= 2,
                        len_y == 1,
                        len_x == self.m_bar_eval_table@.len(),
                        len_w == self.w_eval_table@.len(),
                        len_w == len_x,
                        len_x % 2 == 0,
                        alpha == self.alpha_table()[0],
                        y == fa_sum_x(self.w_table(), alpha, self.mbar_table(), k as int, t as nat),
                    decreases len_x / 2 - t,
                {
                    let w_0 = self.w_eval_table[2 * t];
                    let w_1 = self.w_eval_table[2 * t + 1];
                    let w_x = w_0.plus(mul_int_field(k as u64, w_1.minus(w_0)));
                    let m_0 = self.m_bar_eval_table[2 * t];
                    let m_1 = self.m_bar_eval_table[2 * t + 1];
                    let m_x = m_0.plus(mul_int_field(k as u64, m_1.minus(m_0)));
                    y = y.plus(w_x.times(m_x).times(alpha));
                    t = t + 1;
                }
            }
            ys.push(y);
            k = k + 1;
        }
        Univariate::init(ys)
    }

    fn fix_first_variable(&mut self, r: Fq4)
        ensures
            final(self).w_table() == fold_table(old(self).w_table(), r),
            old(self).alpha_table().len() > 1 ==> final(self).alpha_table() == fold_table(old(self).alpha_table(), r)
                && final(self).mbar_table() == old(self).mbar_table(),
            old(self).alpha_table().len() <= 1 ==> final(self).alpha_table() == old(self).alpha_table()
                && final(self).mbar_table() == fold_table(old(self).mbar_table(), r),
            old(self).w_table().len() >= 4 ==> final(self).wf(),
    {
        proof {
            crate::arithmetic::utils::lemma_pow2_ge1(self.alpha_pows_eval_table@.len());
            crate::arithmetic::utils::lemma_pow2_ge1(self.m_bar_eval_table@.len());
        }
        self.w_eval_table = fix_first_variable(&self.w_eval_table, r);
        if self.alpha_pows_eval_table.len() > 1 {
            proof {
                lemma_pow2_half(self.alpha_pows_eval_table@.len());
                let (a, m) = (old(self).alpha_pows_eval_table@.len() as int, old(self).m_bar_eval_table@.len() as int);
                assert((a * m) / 2 == (a / 2) * m) by (nonlinear_arith)
                    requires
                        a % 2 == 0,
                ;
            }
            self.alpha_pows_eval_table = fix_first_variable(&self.alpha_pows_eval_table, r);
        } else {
            proof {
                let (a, m) = (old(self).alpha_pows_eval_table@.len() as int, old(self).m_bar_eval_table@.len() as int);
                assert(a * m == m) by (nonlinear_arith)
                    requires
                        a == 1,
                ;
                assert(a * (m / 2) == m / 2) by (nonlinear_arith)
                    requires
                        a == 1,
                ;
                if m > 1 {
                    lemma_pow2_half(m as nat);
                }
            }
            self.m_bar_eval_table = fix_first_variable(&self.m_bar_eval_table, r);
        }
    }
}

/// The table `t` with its first `j` variables fixed to `rs[0], ..., rs[j - 1]`, in this order.
pub open spec fn fold_all(t: Seq<Fq4>, rs: Seq<Fq4>, j: nat) -> Seq<Fq4>
    decreases j,
{
    if j == 0 {
        t
    } else {
        fold_table(fold_all(t, rs, (j - 1) as nat), rs[j - 1])
    }
}

/// Folding depends on the first `j` challenges only.
pub proof fn lemma_fold_all_prefix(t: Seq<Fq4>, rs: Seq<Fq4>, r: Fq4, j: nat)
    requires
        j <= rs.len(),
    ensures
        fold_all(t, rs.push(r), j) == fold_all(t, rs, j),
    decreases j,
{
    if j > 0 {
        lemma_fold_all_prefix(t, rs, r, (j - 1) as nat);
        assert(rs.push(r)[j - 1] == rs[j - 1]);
    }
}

/// Each fold halves the table.
pub proof fn lemma_fold_all_len(t: Seq<Fq4>, rs: Seq<Fq4>, j: nat, k: nat)
    requires
        t.len() == pow2(k),
        j <= k,
    ensures
        fold_all(t, rs, j).len() == pow2((k - j) as nat),
    decreases j,
{
    if j > 0 {
        lemma_fold_all_len(t, rs, (j - 1) as nat, k);
        vstd::arithmetic::power2::lemma_pow2_unfold((k - j + 1) as nat);
    }
}

/// Folding all variables and reading the single entry is the multilinear extension.
pub proof fn lemma_fold_all_mle(t: Seq<Fq4>, rs: Seq<Fq4>, j: nat)
    requires
        j <= rs.len(),
    ensures
        crate::hachi::verify::mle(fold_all(t, rs, j), rs.skip(j as int)) == crate::hachi::verify::mle(t, rs),
    decreases j,
{
    if j > 0 {
        lemma_fold_all_mle(t, rs, (j - 1) as nat);
        assert(rs.skip((j - 1) as int).drop_first() =~= rs.skip(j as int));
        assert(rs.skip((j - 1) as int)[0] == rs[j - 1]);
    } else {
        assert(rs.skip(0) =~= rs);
    }
}

/// The message of `F_0` in round `j`, for the challenges `rs` of the earlier rounds.
#[verifier::opaque]
pub open spec fn f0_msg_at(t0: Seq<Fq4>, tau0: Seq<Fq4>, b: int, first_terms: nat, rs: Seq<Fq4>, j: nat, k: int) -> Fq4 {
    let tab = fold_all(t0, rs, j);
    f0_sum(tab, tau0.skip(j as int), eq_prod(tau0, rs, j), b, k, if j == 0 { first_terms } else { tab.len() / 2 })
}

/// The table of `alpha(y)` of `F_alpha` in round `j` (`ya` coefficient variables).
pub open spec fn fa_alpha_at(al0: Seq<Fq4>, rs: Seq<Fq4>, ya: nat, j: nat) -> Seq<Fq4> {
    if j <= ya {
        fold_all(al0, rs, j)
    } else {
        fold_all(al0, rs, ya)
    }
}

/// The table of `mbar(x)` of `F_alpha` in round `j`.
pub open spec fn fa_mbar_at(mb0: Seq<Fq4>, rs: Seq<Fq4>, ya: nat, j: nat) -> Seq<Fq4> {
    if j <= ya {
        mb0
    } else {
        fold_all(mb0, rs.skip(ya as int), (j - ya) as nat)
    }
}

/// The message of `F_alpha` in round `j` at `X = k`.
#[verifier::opaque]
pub open spec fn fa_msg_at(w0: Seq<Fq4>, al0: Seq<Fq4>, mb0: Seq<Fq4>, ya: nat, rs: Seq<Fq4>, j: nat, k: int) -> Fq4 {
    fa_msg(fold_all(w0, rs, j), fa_alpha_at(al0, rs, ya, j), fa_mbar_at(mb0, rs, ya, j), k)
}

/// The round messages are those of both polynomials at every round, with the challenges drawn
/// from the transcript.
pub open spec fn sumcheck_messages_ok(
    t: Seq<u8>,
    ga: Seq<Univariate>,
    g0: Seq<Univariate>,
    n: nat,
    t0: Seq<Fq4>,
    tau0: Seq<Fq4>,
    b: int,
    first_terms: nat,
    al0: Seq<Fq4>,
    mb0: Seq<Fq4>,
    ya: nat,
) -> bool {
    let rs = Seq::new(n, |j: int| sc_chal(t, ga, g0, j as nat));
    &&& ga.len() == n
    &&& g0.len() == n
    &&& forall|j: int| 0 <= j < n ==> (#[trigger] ga[j])@.len() == 3
    &&& forall|j: int, k: int| 0 <= j < n && 0 <= k < 3 ==> #[trigger] ga[j]@[k] == fa_msg_at(t0, al0, mb0, ya, rs, j as nat, k)
    &&& forall|j: int| 0 <= j < n ==> (#[trigger] g0[j])@.len() == b + 2
    &&& forall|j: int, k: int| 0 <= j < n && 0 <= k < b + 2 ==> #[trigger] g0[j]@[k] == f0_msg_at(t0, tau0, b, first_terms, rs, j as nat, k)
}

/// The transcript and challenges of the first `j` rounds depend on those rounds' messages only.
pub proof fn lemma_sc_prefix(t: Seq<u8>, ga: Seq<Univariate>, g0: Seq<Univariate>, x: Univariate, y: Univariate, j: nat)
    requires
        j <= ga.len(),
        j <= g0.len(),
    ensures
        sc_transcript(t, ga.push(x), g0.push(y), j) == sc_transcript(t, ga, g0, j),
    decreases j,
{
    if j > 0 {
        lemma_sc_prefix(t, ga, g0, x, y, (j - 1) as nat);
        assert(ga.push(x)[j - 1] == ga[j - 1]);
        assert(g0.push(y)[j - 1] == g0[j - 1]);
    }
}

proof fn lemma_eq_prod_prefix(a: Seq<Fq4>, rs: Seq<Fq4>, r: Fq4, j: nat)
    requires
        j <= rs.len(),
    ensures
        eq_prod(a, rs.push(r), j) == eq_prod(a, rs, j),
    decreases j,
{
    if j > 0 {
        lemma_eq_prod_prefix(a, rs, r, (j - 1) as nat);
        assert(rs.push(r)[j - 1] == rs[j - 1]);
    }
}

/// The messages of earlier rounds do not depend on later challenges.
proof fn lemma_msg_prefix(
    t0: Seq<Fq4>,
    tau0: Seq<Fq4>,
    b: int,
    first_terms: nat,
    al0: Seq<Fq4>,
    mb0: Seq<Fq4>,
    ya: nat,
    rs: Seq<Fq4>,
    r: Fq4,
    i: nat,
)
    requires
        i <= rs.len(),
    ensures
        forall|k: int| #[trigger] fa_msg_at(t0, al0, mb0, ya, rs.push(r), i, k) == fa_msg_at(t0, al0, mb0, ya, rs, i, k),
        forall|k: int| #[trigger] f0_msg_at(t0, tau0, b, first_terms, rs.push(r), i, k) == f0_msg_at(t0, tau0, b, first_terms, rs, i, k),
{
    reveal(fa_msg_at);
    reveal(f0_msg_at);
    lemma_fold_all_prefix(t0, rs, r, i);
    lemma_eq_prod_prefix(tau0, rs, r, i);
    lemma_fold_all_prefix(al0, rs, r, if i <= ya { i } else { ya });
    if i > ya {
        assert(rs.push(r).skip(ya as int) =~= rs.skip(ya as int).push(r));
        lemma_fold_all_prefix(mb0, rs.skip(ya as int), r, (i - ya) as nat);
    }
}

/// The tables of `F_alpha` after round `j` with challenge `r`.
proof fn lemma_fa_step(al0: Seq<Fq4>, mb0: Seq<Fq4>, ya: nat, rs: Seq<Fq4>, r: Fq4, j: nat)
    requires
        rs.len() == j,
        al0.len() == pow2(ya),
    ensures
        fa_alpha_at(al0, rs, ya, j).len() > 1 <==> j < ya,
        j < ya ==> fold_table(fa_alpha_at(al0, rs, ya, j), r) == fa_alpha_at(al0, rs.push(r), ya, j + 1)
            && fa_mbar_at(mb0, rs, ya, j) == fa_mbar_at(mb0, rs.push(r), ya, j + 1),
        j >= ya ==> fa_alpha_at(al0, rs, ya, j) == fa_alpha_at(al0, rs.push(r), ya, j + 1)
            && fold_table(fa_mbar_at(mb0, rs, ya, j), r) == fa_mbar_at(mb0, rs.push(r), ya, j + 1),
{
    let rs2 = rs.push(r);
    vstd::arithmetic::power2::lemma2_to64();
    if j <= ya {
        lemma_fold_all_len(al0, rs, j, ya);
        if j < ya {
            vstd::arithmetic::power2::lemma_pow2_strictly_increases(0, (ya - j) as nat);
        }
    } else {
        lemma_fold_all_len(al0, rs, ya, ya);
    }
    if j < ya {
        lemma_fold_all_prefix(al0, rs, r, j);
        assert(rs2[j as int] == r);
    } else {
        lemma_fold_all_prefix(al0, rs, r, ya);
        let s1 = rs.skip(ya as int);
        let s2 = rs2.skip(ya as int);
        assert(s2 =~= s1.push(r));
        let m = (j - ya) as nat;
        if m > 0 {
            lemma_fold_all_prefix(mb0, s1, r, m);
        }
        assert(s2[m as int] == r);
        assert(fold_all(mb0, s2, m) == fold_all(mb0, s1, m));
        assert(fold_all(mb0, s2, m + 1) == fold_table(fold_all(mb0, s2, m), r));
        assert(fa_mbar_at(mb0, rs2, ya, j + 1) == fold_all(mb0, s2, m + 1));
    }
}

/// The bytes one round appends to the transcript: the three evaluations of the message of
/// `F_alpha` and the `b + 2` of that of `F_0`, 32 bytes each.
pub open spec fn round_bytes(b: int) -> int {
    32 * (b + 5)
}

/// One round of the prover half: both messages, then the challenge, then the folds.
fn sumcheck_round(f_0: &mut F0, f_alpha: &mut FAlpha, fs: &mut FS) -> (res: Option<(Univariate, Univariate, Fq4)>)
    requires
        old(f_0).wf(),
        old(f_alpha).wf(),
    ensures
        final(fs)@.len() == old(fs)@.len() + round_bytes(old(f_0).base() as int),
        res is Some <==> seed_fits(final(fs)@),
        res is None ==> *final(f_0) == *old(f_0) && *final(f_alpha) == *old(f_alpha),
        res matches Some(m) ==> {
            &&& m.0@.len() == 3
            &&& forall|k: int| 0 <= k < 3 ==> #[trigger] m.0@[k] == fa_msg(old(f_alpha).w_table(), old(f_alpha).alpha_table(), old(f_alpha).mbar_table(), k)
            &&& m.1@.len() == old(f_0).base() + 2
            &&& forall|k: int| 0 <= k < m.1@.len() ==> #[trigger] m.1@[k]
                == f0_sum(old(f_0).table(), old(f_0).tau(), old(f_0).scalar(), old(f_0).base() as int, k, old(f_0).terms())
            &&& final(fs)@ == old(fs)@ + m.0.serialised() + m.1.serialised()
            &&& m.2 == field_draw(transcript_seed(final(fs)@), 0)
            &&& final(f_0).table() == fold_table(old(f_0).table(), m.2)
            &&& final(f_0).tau() == old(f_0).tau().drop_first()
            &&& final(f_0).scalar() == mul4(old(f_0).scalar(), spec_eq(old(f_0).tau()[0], m.2))
            &&& final(f_0).base() == old(f_0).base()
            &&& !final(f_0).first_round()
            &&& final(f_0).raw_ok()
            &&& final(f_0).table_within()
            &&& final(f_alpha).w_table() == fold_table(old(f_alpha).w_table(), m.2)
            &&& old(f_alpha).alpha_table().len() > 1 ==> final(f_alpha).alpha_table() == fold_table(old(f_alpha).alpha_table(), m.2)
                && final(f_alpha).mbar_table() == old(f_alpha).mbar_table()
            &&& old(f_alpha).alpha_table().len() <= 1 ==> final(f_alpha).alpha_table() == old(f_alpha).alpha_table()
                && final(f_alpha).mbar_table() == fold_table(old(f_alpha).mbar_table(), m.2)
            &&& old(f_alpha).w_table().len() >= 4 ==> final(f_alpha).wf()
        },
{
    let ua = f_alpha.get_univariate();
    let u0 = f_0.get_univariate();
    fs.push(&ua);
    fs.push(&u0);
    proof {
        crate::arithmetic::sumcheck::lemma_fq4s_le_len(ua@, ua@.len());
        crate::arithmetic::sumcheck::lemma_fq4s_le_len(u0@, u0@.len());
    }
    if !fs.seed_fits() {
        return None;
    }
    let seed = fs.get_seed();
    let mut rng = Prg::from_seed(seed);
    let r = rand_field(Q, &mut rng);
    f_alpha.fix_first_variable(r);
    f_0.fix_first_variable(r);
    Some((ua, u0, r))
}

/// The tables of both polynomials after `j` rounds with the challenges `rs`.
#[verifier::opaque]
pub open spec fn tables_at(
    f_0: F0,
    f_alpha: FAlpha,
    t0: Seq<Fq4>,
    tau0: Seq<Fq4>,
    b: int,
    first_terms: nat,
    al0: Seq<Fq4>,
    mb0: Seq<Fq4>,
    ya: nat,
    rs: Seq<Fq4>,
    j: nat,
) -> bool {
    &&& f_0.table() == fold_all(t0, rs, j)
    &&& f_0.tau() == tau0.skip(j as int)
    &&& f_0.scalar() == eq_prod(tau0, rs, j)
    &&& f_0.base() == b
    &&& f_0.table_within()
    &&& (j == 0 ==> f_0.first_round() && f_0.terms() == first_terms)
    &&& (j > 0 ==> !f_0.first_round())
    &&& f_0.raw_ok()
    &&& f_alpha.w_table() == fold_all(t0, rs, j)
    &&& f_alpha.alpha_table() == fa_alpha_at(al0, rs, ya, j)
    &&& f_alpha.mbar_table() == fa_mbar_at(mb0, rs, ya, j)
    &&& (j < tau0.len() ==> f_alpha.wf())
}

/// The messages of the first `j` rounds.
#[verifier::opaque]
pub open spec fn messages_at(
    ga: Seq<Univariate>,
    g0: Seq<Univariate>,
    t0: Seq<Fq4>,
    tau0: Seq<Fq4>,
    b: int,
    first_terms: nat,
    al0: Seq<Fq4>,
    mb0: Seq<Fq4>,
    ya: nat,
    rs: Seq<Fq4>,
    j: nat,
) -> bool {
    &&& ga.len() == j
    &&& g0.len() == j
    &&& forall|i: int| 0 <= i < j ==> (#[trigger] ga[i])@.len() == 3
    &&& forall|i: int, k: int| 0 <= i < j && 0 <= k < 3 ==> #[trigger] ga[i]@[k] == fa_msg_at(t0, al0, mb0, ya, rs, i as nat, k)
    &&& forall|i: int| 0 <= i < j ==> (#[trigger] g0[i])@.len() == b + 2
    &&& forall|i: int, k: int| 0 <= i < j && 0 <= k < b + 2 ==> #[trigger] g0[i]@[k] == f0_msg_at(t0, tau0, b, first_terms, rs, i as nat, k)
}

/// The challenges of the first `j` rounds are drawn from the transcript.
#[verifier::opaque]
pub open spec fn chals_at(t: Seq<u8>, ga: Seq<Univariate>, g0: Seq<Univariate>, rs: Seq<Fq4>, j: nat) -> bool {
    &&& rs.len() == j
    &&& forall|i: int| 0 <= i < j ==> #[trigger] rs[i] == sc_chal(t, ga, g0, i as nat)
}

/// Before round `j < nu`, both polynomials are well formed.
proof fn lemma_tables_wf(
    f_0: F0,
    f_alpha: FAlpha,
    t0: Seq<Fq4>,
    tau0: Seq<Fq4>,
    b: int,
    first_terms: nat,
    al0: Seq<Fq4>,
    mb0: Seq<Fq4>,
    ya: nat,
    rs: Seq<Fq4>,
    j: nat,
)
    requires
        tables_at(f_0, f_alpha, t0, tau0, b, first_terms, al0, mb0, ya, rs, j),
        j < tau0.len(),
        tau0.len() < 64,
        t0.len() == pow2(tau0.len()),
        2 <= b <= 0x8000_0000,
    ensures
        f_0.wf(),
        f_alpha.wf(),
{
    reveal(tables_at);
    let n = tau0.len();
    lemma_fold_all_len(t0, rs, j, n);
}

/// One round moves the tables from round `j` to round `j + 1`.
proof fn lemma_tables_step(
    f_0: F0,
    f_alpha: FAlpha,
    f_0n: F0,
    f_alphan: FAlpha,
    r: Fq4,
    t0: Seq<Fq4>,
    tau0: Seq<Fq4>,
    b: int,
    first_terms: nat,
    al0: Seq<Fq4>,
    mb0: Seq<Fq4>,
    ya: nat,
    rs: Seq<Fq4>,
    j: nat,
)
    requires
        tables_at(f_0, f_alpha, t0, tau0, b, first_terms, al0, mb0, ya, rs, j),
        rs.len() == j,
        j < tau0.len(),
        tau0.len() < 64,
        t0.len() == pow2(tau0.len()),
        al0.len() == pow2(ya),
        ya <= tau0.len(),
        f_0n.table() == fold_table(f_0.table(), r),
        f_0n.tau() == f_0.tau().drop_first(),
        f_0n.scalar() == mul4(f_0.scalar(), spec_eq(f_0.tau()[0], r)),
        f_0n.base() == f_0.base(),
        !f_0n.first_round(),
        f_0n.raw_ok(),
        f_0n.table_within(),
        f_alphan.w_table() == fold_table(f_alpha.w_table(), r),
        f_alpha.alpha_table().len() > 1 ==> f_alphan.alpha_table() == fold_table(f_alpha.alpha_table(), r)
            && f_alphan.mbar_table() == f_alpha.mbar_table(),
        f_alpha.alpha_table().len() <= 1 ==> f_alphan.alpha_table() == f_alpha.alpha_table()
            && f_alphan.mbar_table() == fold_table(f_alpha.mbar_table(), r),
        f_alpha.w_table().len() >= 4 ==> f_alphan.wf(),
    ensures
        tables_at(f_0n, f_alphan, t0, tau0, b, first_terms, al0, mb0, ya, rs.push(r), j + 1),
{
    reveal(tables_at);
    let rs2 = rs.push(r);
    let n = tau0.len();
    lemma_fa_step(al0, mb0, ya, rs, r, j);
    lemma_fold_all_prefix(t0, rs, r, j);
    lemma_eq_prod_prefix(tau0, rs, r, j);
    assert(tau0.skip(j as int).drop_first() =~= tau0.skip((j + 1) as int));
    assert(tau0.skip(j as int)[0] == tau0[j as int]);
    assert(rs2[j as int] == r);
    lemma_fold_all_len(t0, rs, j, n);
    vstd::arithmetic::power2::lemma_pow2_unfold((n - j) as nat);
    if j + 1 < n {
        vstd::arithmetic::power2::lemma_pow2_unfold((n - j - 1) as nat);
        vstd::arithmetic::power2::lemma_pow2_pos((n - j - 2) as nat);
    }
}

/// The challenges of one more round are drawn from the transcript of one more round.
proof fn lemma_chals_step(t: Seq<u8>, ga: Seq<Univariate>, g0: Seq<Univariate>, ua: Univariate, u0: Univariate, r: Fq4, rs: Seq<Fq4>, j: nat)
    requires
        chals_at(t, ga, g0, rs, j),
        ga.len() == j,
        g0.len() == j,
        r == sc_chal(t, ga.push(ua), g0.push(u0), j),
    ensures
        chals_at(t, ga.push(ua), g0.push(u0), rs.push(r), j + 1),
{
    reveal(chals_at);
    let rs2 = rs.push(r);
    assert forall|i: int| 0 <= i < j + 1 implies #[trigger] rs2[i] == sc_chal(t, ga.push(ua), g0.push(u0), i as nat) by {
        if i < j {
            lemma_sc_prefix(t, ga, g0, ua, u0, (i + 1) as nat);
        }
    }
}

/// The messages of one more round are those of both polynomials at that round.
proof fn lemma_messages_step(
    f_0: F0,
    f_alpha: FAlpha,
    ga: Seq<Univariate>,
    g0: Seq<Univariate>,
    ua: Univariate,
    u0: Univariate,
    r: Fq4,
    t0: Seq<Fq4>,
    tau0: Seq<Fq4>,
    b: int,
    first_terms: nat,
    al0: Seq<Fq4>,
    mb0: Seq<Fq4>,
    ya: nat,
    rs: Seq<Fq4>,
    j: nat,
)
    requires
        tables_at(f_0, f_alpha, t0, tau0, b, first_terms, al0, mb0, ya, rs, j),
        messages_at(ga, g0, t0, tau0, b, first_terms, al0, mb0, ya, rs, j),
        rs.len() == j,
        ua@.len() == 3,
        forall|k: int| 0 <= k < 3 ==> #[trigger] ua@[k] == fa_msg(f_alpha.w_table(), f_alpha.alpha_table(), f_alpha.mbar_table(), k),
        u0@.len() == f_0.base() + 2,
        forall|k: int| 0 <= k < u0@.len() ==> #[trigger] u0@[k] == f0_sum(f_0.table(), f_0.tau(), f_0.scalar(), f_0.base() as int, k, f_0.terms()),
    ensures
        messages_at(ga.push(ua), g0.push(u0), t0, tau0, b, first_terms, al0, mb0, ya, rs.push(r), j + 1),
{
    reveal(tables_at);
    reveal(messages_at);
    reveal(fa_msg_at);
    reveal(f0_msg_at);
    let rs2 = rs.push(r);
    assert forall|i: int, k: int| 0 <= i < j + 1 && 0 <= k < 3 implies #[trigger] ga.push(ua)[i]@[k]
        == fa_msg_at(t0, al0, mb0, ya, rs2, i as nat, k) by {
        lemma_msg_prefix(t0, tau0, b, first_terms, al0, mb0, ya, rs, r, i as nat);
        if i == j {
            assert(fa_msg_at(t0, al0, mb0, ya, rs, j, k) == ua@[k]);
        }
    }
    assert forall|i: int, k: int| 0 <= i < j + 1 && 0 <= k < b + 2 implies #[trigger] g0.push(u0)[i]@[k]
        == f0_msg_at(t0, tau0, b, first_terms, rs2, i as nat, k) by {
        lemma_msg_prefix(t0, tau0, b, first_terms, al0, mb0, ya, rs, r, i as nat);
        if i == j {
            assert(f0_msg_at(t0, tau0, b, first_terms, rs, j, k) == u0@[k]);
        }
    }
}

/// The prover half of both sumchecks, which share every round's challenge: in each round the
/// message of `F_alpha` and then that of `F_0` are appended to the transcript, whose seed yields
/// the challenge, and both polynomials fix their first variable to it. Returns the messages and
/// `y'`, the value of the next witness's multilinear extension at the challenges; `None` exactly
/// when a transcript grows past what a seed can be derived from.
pub fn sumcheck_proof(f_0: &mut F0, f_alpha: &mut FAlpha, fs: &mut FS) -> (res: Option<(Vec<Univariate>, Vec<Univariate>, Fq4)>)
    requires
        old(f_0).wf(),
        old(f_alpha).wf(),
        old(f_0).first_round(),
        old(f_0).scalar() == lift4(fq(1)),
        old(f_0).table() == old(f_alpha).w_table(),
    ensures
        res matches Some(r) ==> {
            let t = old(fs)@;
            let n = old(f_0).tau().len();
            let rs = Seq::new(n, |j: int| sc_chal(t, r.0@, r.1@, j as nat));
            &&& sumcheck_messages_ok(
                t,
                r.0@,
                r.1@,
                n,
                old(f_0).table(),
                old(f_0).tau(),
                old(f_0).base() as int,
                old(f_0).terms(),
                old(f_alpha).alpha_table(),
                old(f_alpha).mbar_table(),
                exp2_of(old(f_alpha).alpha_table().len()),
            )
            &&& final(fs)@ == sc_transcript(t, r.0@, r.1@, n)
            &&& r.2 == mle(old(f_0).table(), rs)
        },
        res is Some <==> (old(f_0).tau().len() == 0 || len_fits(
            old(fs)@.len() + old(f_0).tau().len() * round_bytes(old(f_0).base() as int),
        )),
{
    let ghost t = fs@;
    let ghost t0 = f_0.table();
    let ghost tau0 = f_0.tau();
    let ghost b = f_0.base() as int;
    let ghost first_terms = f_0.terms();
    let ghost al0 = f_alpha.alpha_table();
    let ghost mb0 = f_alpha.mbar_table();
    let ghost ya = exp2_of(al0.len());
    let ghost n = tau0.len();
    proof {
        lemma_sizes(t0, al0, mb0, n);
        reveal(tables_at);
        reveal(messages_at);
        reveal(chals_at);
        assert(tau0.skip(0) =~= tau0);
    }
    let rounds = f_0.num_vars();
    let mut univariates_f_alpha: Vec<Univariate> = Vec::with_capacity(rounds);
    let mut univariates_f_0: Vec<Univariate> = Vec::with_capacity(rounds);
    let ghost mut rs: Seq<Fq4> = Seq::empty();
    let mut j: usize = 0;
    while j < rounds
        invariant
            0 <= j <= rounds,
            rounds == n,
            n == tau0.len(),
            n < 64,
            t0.len() == pow2(n),
            al0.len() == pow2(ya),
            ya <= n,
            2 <= b <= 0x8000_0000,
            univariates_f_alpha@.len() == j,
            univariates_f_0@.len() == j,
            rs.len() == j,
            fs@ == sc_transcript(t, univariates_f_alpha@, univariates_f_0@, j as nat),
            tables_at(*f_0, *f_alpha, t0, tau0, b, first_terms, al0, mb0, ya, rs, j as nat),
            messages_at(univariates_f_alpha@, univariates_f_0@, t0, tau0, b, first_terms, al0, mb0, ya, rs, j as nat),
            chals_at(t, univariates_f_alpha@, univariates_f_0@, rs, j as nat),
            t == old(fs)@,
            tau0 == old(f_0).tau(),
            b == old(f_0).base() as int,
            fs@.len() == t.len() + j * round_bytes(b),
            j > 0 ==> seed_fits(fs@),
        decreases rounds - j,
    {
        proof {
            assert(j < n);
            lemma_tables_wf(*f_0, *f_alpha, t0, tau0, b, first_terms, al0, mb0, ya, rs, j as nat);
        }
        let ghost ga_old = univariates_f_alpha@;
        let ghost g0_old = univariates_f_0@;
        let ghost f_0_old = *f_0;
        let ghost f_alpha_old = *f_alpha;
        let round = sumcheck_round(f_0, f_alpha, fs);
        let (ua, u0, r) = match round {
            None => {
                proof {
                    reveal(tables_at);
                    let rb = round_bytes(b);
                    assert(t.len() + (j + 1) * rb <= t.len() + n * rb) by (nonlinear_arith)
                        requires
                            j + 1 <= n,
                            rb >= 0,
                    ;
                    assert(fs@.len() == t.len() + (j + 1) * rb) by (nonlinear_arith)
                        requires
                            fs@.len() == t.len() + j * rb + rb,
                    ;
                    assert(!len_fits(fs@.len() as int));
                    if len_fits(t.len() + n * rb) {
                        lemma_len_fits_shorter(t.len() + (j + 1) * rb, t.len() + n * rb);
                    }
                    assert(!len_fits(t.len() + n * rb));
                }
                return None;
            },
            Some(m) => m,
        };
        proof {
            reveal(tables_at);
            assert(fs@.len() == t.len() + (j + 1) * round_bytes(b)) by (nonlinear_arith)
                requires
                    fs@.len() == t.len() + j * round_bytes(b) + round_bytes(b),
            ;
            lemma_sc_prefix(t, ga_old, g0_old, ua, u0, j as nat);
            lemma_tables_step(f_0_old, f_alpha_old, *f_0, *f_alpha, r,
                t0, tau0, b, first_terms, al0, mb0, ya, rs, j as nat);
            lemma_messages_step(f_0_old, f_alpha_old, ga_old, g0_old, ua, u0, r,
                t0, tau0, b, first_terms, al0, mb0, ya, rs, j as nat);
            lemma_chals_step(t, ga_old, g0_old, ua, u0, r, rs, j as nat);
            rs = rs.push(r);
        }
        univariates_f_alpha.push(ua);
        univariates_f_0.push(u0);
        j = j + 1;
    }
    proof {
        reveal(tables_at);
        reveal(messages_at);
        reveal(chals_at);
        vstd::arithmetic::power2::lemma2_to64();
        lemma_fold_all_len(t0, rs, n, n);
        lemma_fold_all_mle(t0, rs, n);
        assert(rs.skip(n as int) =~= Seq::<Fq4>::empty());
        assert(rs =~= Seq::new(n, |j: int| sc_chal(t, univariates_f_alpha@, univariates_f_0@, j as nat)));
        assert(n > 0 ==> len_fits(t.len() + n * round_bytes(b)));
    }
    let y_dash = f_0.first_entry();
    Some((univariates_f_alpha, univariates_f_0, y_dash))
}

/// The sizes of the tables of both polynomials at the start.
proof fn lemma_sizes(t0: Seq<Fq4>, al0: Seq<Fq4>, mb0: Seq<Fq4>, n: nat)
    requires
        t0.len() == pow2(n),
        is_pow2(al0.len()),
        is_pow2(mb0.len()),
        t0.len() == al0.len() * mb0.len(),
    ensures
        exp2_of(al0.len()) <= n,
        al0.len() == pow2(exp2_of(al0.len())),
{
    let ya = exp2_of(al0.len());
    assert(ya < 64 && al0.len() == pow2(ya));
    let km = choose|k: nat| k < 64 && mb0.len() == pow2(k);
    vstd::arithmetic::power2::lemma_pow2_adds(ya, km);
    if ya + km != n {
        if ya + km < n {
            vstd::arithmetic::power2::lemma_pow2_strictly_increases(ya + km, n);
        } else {
            vstd::arithmetic::power2::lemma_pow2_strictly_increases(n, ya + km);
        }
    }
}

} // verus!
