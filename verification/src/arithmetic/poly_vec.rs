//! Vectors of polynomials over `Z_q` in coefficient form, stored flat: the coefficient of `X^j`
//! of element `i` is at index `i * d + j`. Also the gadget decomposition of such vectors.

use vstd::prelude::*;
use vstd::arithmetic::power2::*;
use vstd::arithmetic::power::*;
use vstd::arithmetic::div_mod::*;
use vstd::arithmetic::mul::*;
use crate::arithmetic::utils::{Logarithm, is_ceil_log2, is_pow2, lemma_log_of_pow2, b_decomp, to_window, signed,
    digits_value, is_balanced_digit, in_window, window_rep, spec_window_top, two64, lemma_window_size,
    lemma_geom, lemma_geom_nonneg, geom, spec_window_bottom, exp2_of};
use crate::arithmetic::poly::{cdiv_rem, Poly};
use crate::arithmetic::utils::{rand_int, ceil_log2, lemma_ceil_log2_unique};
use crate::arithmetic::rng::{Prg, low_mask, samples, samples_end};
use crate::arithmetic::fs::Serialise;

verus! {

/// A vector of `len` polynomials with `d` coefficients each, stored flat.
#[derive(Clone)]
pub struct PVec {
    /// Number of elements (polynomials).
    pub len: usize,
    /// Number of coefficients of each element, a power of two.
    pub d: usize,
    /// `log2(d)`.
    pub logd: usize,
    /// The `len * d` coefficients, element after element.
    pub vec: Vec<u64>,
}

/// Index of coefficient `j` of element `i` in a flat vector of elements of dimension `d`.
pub open spec fn flat(i: int, j: int, d: int) -> int {
    i * d + j
}

/// Flat indices of distinct (element, coefficient) pairs are distinct and in range.
pub proof fn lemma_flat(i: int, j: int, d: int, len: int)
    requires
        0 <= i < len,
        0 <= j < d,
    ensures
        0 <= flat(i, j, d) < len * d,
        flat(i, j, d) / d == i,
        flat(i, j, d) % d == j,
        i * d + d <= len * d,
{
    assert(0 <= i * d) by (nonlinear_arith)
        requires
            0 <= i,
            0 <= j < d,
    ;
    assert(i * d + d <= len * d) by (nonlinear_arith)
        requires
            i < len,
            0 <= j < d,
    ;
    lemma_fundamental_div_mod_converse(i * d + j, d, i, j);
}

impl PVec {
    /// Well-formed: `d = 2^logd` and the flat vector holds `len * d` coefficients.
    pub open spec fn wf(&self) -> bool {
        &&& self.d as nat == pow2(self.logd as nat)
        &&& self.logd < 64
        &&& self.vec@.len() == self.len * self.d
    }

    /// Coefficient `j` of element `i`.
    pub open spec fn coeff(&self, i: int, j: int) -> u64 {
        self.vec@[flat(i, j, self.d as int)]
    }

    /// Element `i` as a sequence of `d` coefficients.
    pub open spec fn elem(&self, i: int) -> Seq<u64> {
        self.vec@.subrange(i * self.d, i * self.d + self.d)
    }

    /// The zero vector of `len` elements of dimension `d` (a power of two).
    pub fn zero(len: usize, d: usize) -> (v: Self)
        requires
            is_pow2(d as nat),
            len * d <= usize::MAX,
        ensures
            v.wf(),
            v.len == len,
            v.d == d,
            v.vec@ == Seq::new((len * d) as nat, |k: int| 0u64),
    {
        let logd = d.log();
        proof {
            lemma_log_of_pow2(d as nat, logd as nat);
            lemma2_to64();
        }
        let n = len * d;
        let mut vec: Vec<u64> = Vec::with_capacity(n);
        let mut k: usize = 0;
        while k < n
            invariant
                0 <= k <= n,
                vec@ == Seq::new(k as nat, |t: int| 0u64),
            decreases n - k,
        {
            vec.push(0);
            k = k + 1;
        }
        Self { len, d, logd, vec }
    }

    /// A vector of `len` elements whose `len * d` coefficients are drawn in turn by rejection
    /// sampling ([`rand_int`]) from a ChaCha12 generator seeded with `seed`.
    pub fn rand(len: usize, d: usize, q: u64, seed: [u8; 32]) -> (v: Self)
        requires
            is_pow2(d as nat),
            len * d <= usize::MAX,
            1 <= q <= 0x8000_0000_0000_0000,
        ensures
            v.wf(),
            v.len == len,
            v.d == d,
            v.vec@ == samples(seed@, 0, q, low_mask(ceil_log2(q as nat)), (len * d) as nat),
            forall|t: int| 0 <= t < v.vec@.len() ==> #[trigger] v.vec@[t] < q,
    {
        let logd = d.log();
        let logq = q.log();
        proof {
            lemma_log_of_pow2(d as nat, logd as nat);
            lemma_ceil_log2_unique(q as nat, logq as nat);
            lemma2_to64();
            lemma_pow2_unfold(64);
            if logq == 64 {
                assert(pow2(63) < q);
            }
        }
        let mut rng = Prg::from_seed(seed);
        let n = len * d;
        let ghost mask = low_mask(logq as nat);
        let mut vec: Vec<u64> = Vec::with_capacity(n);
        let mut k: usize = 0;
        while k < n
            invariant
                0 <= k <= n,
                logq < 64,
                mask == low_mask(logq as nat),
                1 <= q,
                rng.seed() == seed@,
                vec@ == samples(seed@, 0, q, mask, k as nat),
                vec@.len() == k,
                rng.pos() == samples_end(seed@, 0, q, mask, k as nat),
                forall|t: int| 0 <= t < vec@.len() ==> #[trigger] vec@[t] < q,
            decreases n - k,
        {
            let x = rand_int(q, logq, &mut rng);
            vec.push(x);
            k = k + 1;
        }
        Self { len, d, logd, vec }
    }

    /// Number of elements.
    pub fn length(&self) -> (n: usize)
        ensures
            n == self.len,
    {
        self.len
    }

    /// Element `i` as the slice of its `d` coefficients.
    pub fn element(&self, i: usize) -> (e: &[u64])
        requires
            self.wf(),
            i < self.len,
        ensures
            e@ == self.elem(i as int),
            e@.len() == self.d,
            forall|j: int| 0 <= j < self.d ==> #[trigger] e@[j] == self.coeff(i as int, j),
    {
        proof {
            lemma_pow2_pos(self.logd as nat);
            lemma_flat(i as int, 0, self.d as int, self.len as int);
        }
        let _n = self.vec.len();
        let start = i * self.d;
        let end = start + self.d;
        vstd::slice::slice_subrange(self.vec.as_slice(), start, end)
    }

    /// Element `i` as a mutable slice of its `d` coefficients.
    pub fn mut_element(&mut self, i: usize) -> (e: &mut [u64])
        requires
            old(self).wf(),
            i < old(self).len,
        ensures
            e@ == old(self).elem(i as int),
            e@.len() == old(self).d,
            final(self).len == old(self).len,
            final(self).d == old(self).d,
            final(self).logd == old(self).logd,
            final(self).vec@ == old(self).vec@.subrange(0, i * old(self).d) + final(e)@
                + old(self).vec@.subrange(i * old(self).d + old(self).d, old(self).vec@.len() as int),
    {
        proof {
            lemma_pow2_pos(self.logd as nat);
            lemma_flat(i as int, 0, self.d as int, self.len as int);
        }
        let _n = self.vec.len();
        let start = i * self.d;
        let d = self.d;
        let s = self.vec.as_mut_slice();
        let (_lo, rest) = s.split_at_mut(start);
        let (mid, _hi) = rest.split_at_mut(d);
        mid
    }

    /// All `len * d` coefficients, element after element.
    pub fn slice(&self) -> (s: &[u64])
        ensures
            s@ == self.vec@,
    {
        self.vec.as_slice()
    }

    /// All `len * d` coefficients as a mutable slice, element after element.
    pub fn mut_slice(&mut self) -> (s: &mut [u64])
        ensures
            s@ == old(self).vec@,
            final(self).vec@ == final(s)@,
            final(self).len == old(self).len,
            final(self).d == old(self).d,
            final(self).logd == old(self).logd,
    {
        self.vec.as_mut_slice()
    }
}


/// The `delta` digits of coefficient `j` of element `i` in a decomposed flat vector: digit `k` is
/// coefficient `j` of element `i * delta + k`.
pub open spec fn digit_col(v: Seq<u64>, i: int, j: int, d: int, delta: int) -> Seq<u64> {
    Seq::new(delta as nat, |k: int| v[digit_pos(i, j, k, d, delta)])
}

/// The digits of column `(i, j)` are balanced base-`b` digits representing `y` modulo
/// `b^delta`, exactly when `y` lies in the window.
pub open spec fn col_ok(v: Seq<u64>, i: int, j: int, d: int, delta: int, b: int, y: u64) -> bool {
    let s = digit_col(v, i, j, d, delta);
    &&& forall|k: int| 0 <= k < delta ==> is_balanced_digit(#[trigger] s[k], b)
    &&& (signed(y) - digits_value(s, b)) % pow(b, delta as nat) == 0
    &&& in_window(signed(y), b, delta as nat) ==> digits_value(s, b) == signed(y)
}

/// The value a coefficient is decomposed from: itself, or its window representative modulo `q`.
pub open spec fn mapped(x: u64, map_q: Option<u64>, b: int, delta: nat) -> u64 {
    match map_q {
        None => x,
        Some(q) => if x > spec_window_top(b, delta) { x.wrapping_sub(q) } else { x },
    }
}

/// Position of digit `k` of coefficient `j` of element `i` in a decomposed flat vector.
pub open spec fn digit_pos(i: int, j: int, k: int, d: int, delta: int) -> int {
    flat(i * delta + k, j, d)
}

/// Digit positions are in range and determine the coefficient and the digit.
proof fn lemma_digit_pos(i: int, j: int, k: int, d: int, delta: int, len: int)
    requires
        0 <= i < len,
        0 <= j < d,
        0 <= k < delta,
    ensures
        0 <= digit_pos(i, j, k, d, delta) < len * delta * d,
        digit_pos(i, j, k, d, delta) % d == j,
        (digit_pos(i, j, k, d, delta) / d) / delta == i,
        (digit_pos(i, j, k, d, delta) / d) % delta == k,
{
    lemma_flat(i, k, delta, len);
    lemma_flat(i * delta + k, j, d, len * delta);
}

impl PVec {
    /// Common body of the two decompositions: every coefficient (mapped into the balanced window
    /// modulo `q` when `map_q` is `Some(q)`) is split into `delta` balanced digits, digit `k` of
    /// coefficient `j` of element `i` going to coefficient `j` of element `i * delta + k` of `out`.
    fn decomp_mapped(&self, map_q: Option<u64>, base: u64, delta: usize, out: &mut Self)
        requires
            self.wf(),
            old(out).wf(),
            old(out).len == self.len * delta,
            old(out).d == self.d,
            is_pow2(base as nat),
            base >= 2,
            delta * exp2_of(base as nat) <= 64,
            map_q is Some ==> pow(base as int, delta as nat) <= u64::MAX,
            map_q is Some ==> map_q->0 <= pow(base as int, delta as nat),
            map_q is Some ==> forall|t: int| 0 <= t < self.vec@.len() ==> #[trigger] self.vec@[t] < map_q->0,
        ensures
            final(out).wf(),
            final(out).len == old(out).len,
            final(out).d == old(out).d,
            final(out).logd == old(out).logd,
            forall|i: int, j: int| 0 <= i < self.len && 0 <= j < self.d ==> #[trigger] col_ok(final(out).vec@,
                i, j, self.d as int, delta as int, base as int, mapped(self.coeff(i, j), map_q, base as int, delta as nat)),
    {
        let logb = base.log();
        proof {
            lemma_log_of_pow2(base as nat, logb as nat);
            if logb == 0 {
                lemma2_to64();
            }
            lemma_pow2_pos(self.logd as nat);
            lemma_pow2_unfold(logb as nat);
        }
        let ghost b: int = base as int;
        let ghost d: int = self.d as int;
        let ghost len: int = self.len as int;
        let mut digits: Vec<u64> = Vec::new();
        let mut t: usize = 0;
        while t < delta
            invariant
                0 <= t <= delta,
                digits@.len() == t,
            decreases delta - t,
        {
            digits.push(0);
            t = t + 1;
        }
        let n_out = out.vec.len();
        let mut i: usize = 0;
        while i < self.len
            invariant
                self.wf(),
                out.wf(),
                out.len == self.len * delta,
                out.d == self.d,
                out.logd == old(out).logd,
                n_out == out.vec@.len(),
                digits@.len() == delta,
                d == self.d,
                len == self.len,
                b == base,
                base >= 2,
                base as nat == pow2(logb as nat),
                base % 2 == 0,
                1 <= logb < 64,
                delta * logb <= 64,
                self.d >= 1,
                0 <= i <= self.len,
                map_q is Some ==> pow(base as int, delta as nat) <= u64::MAX,
                map_q is Some ==> map_q->0 <= pow(base as int, delta as nat),
                map_q is Some ==> forall|t: int| 0 <= t < self.vec@.len() ==> #[trigger] self.vec@[t] < map_q->0,
                forall|i2: int, j2: int| 0 <= i2 < i && 0 <= j2 < d ==> #[trigger] col_ok(out.vec@,
                    i2, j2, d, delta as int, b, mapped(self.coeff(i2, j2), map_q, b, delta as nat)),
            decreases self.len - i,
        {
            let mut j: usize = 0;
            while j < self.d
                invariant
                    self.wf(),
                    out.wf(),
                    out.len == self.len * delta,
                    out.d == self.d,
                    out.logd == old(out).logd,
                    n_out == out.vec@.len(),
                    digits@.len() == delta,
                    d == self.d,
                    len == self.len,
                    b == base,
                    base >= 2,
                    base as nat == pow2(logb as nat),
                    base % 2 == 0,
                    1 <= logb < 64,
                    delta * logb <= 64,
                    self.d >= 1,
                    0 <= i < self.len,
                    0 <= j <= self.d,
                    map_q is Some ==> pow(base as int, delta as nat) <= u64::MAX,
                    map_q is Some ==> map_q->0 <= pow(base as int, delta as nat),
                    map_q is Some ==> forall|t: int| 0 <= t < self.vec@.len() ==> #[trigger] self.vec@[t] < map_q->0,
                    forall|i2: int, j2: int| 0 <= i2 < i && 0 <= j2 < d ==> #[trigger] col_ok(out.vec@,
                        i2, j2, d, delta as int, b, mapped(self.coeff(i2, j2), map_q, b, delta as nat)),
                    forall|j2: int| 0 <= j2 < j ==> #[trigger] col_ok(out.vec@,
                        i as int, j2, d, delta as int, b, mapped(self.coeff(i as int, j2), map_q, b, delta as nat)),
                decreases self.d - j,
            {
                proof {
                    lemma_flat(i as int, j as int, d, len);
                }
                let _n_in = self.vec.len();
                let x = self.vec[i * self.d + j];
                let y = match map_q {
                    None => x,
                    Some(q) => to_window(x, q, base, delta),
                };
                b_decomp(y, logb, delta, digits.as_mut_slice());
                let ghost prev = out.vec@;
                let mut k: usize = 0;
                while k < delta
                    invariant
                        0 <= k <= delta,
                        out.len == self.len * delta,
                        out.d == self.d,
                        out.logd == old(out).logd,
                        out.vec@.len() == prev.len(),
                        n_out == prev.len(),
                        prev.len() == len * delta * d,
                        digits@.len() == delta,
                        d == self.d,
                        d >= 1,
                        len == self.len,
                        0 <= i < len,
                        0 <= j < d,
                        forall|t: int| 0 <= t < prev.len() && !(t % d == j && (t / d) / (delta as int) == i)
                            ==> #[trigger] out.vec@[t] == prev[t],
                        forall|k2: int| 0 <= k2 < k ==> #[trigger] out.vec@[digit_pos(i as int, j as int, k2, d, delta as int)] == digits@[k2],
                    decreases delta - k,
                {
                    proof {
                        lemma_digit_pos(i as int, j as int, k as int, d, delta as int, len);
                        assert forall|k2: int| 0 <= k2 < k implies digit_pos(i as int, j as int, k2, d, delta as int)
                            != digit_pos(i as int, j as int, k as int, d, delta as int) by {
                            lemma_digit_pos(i as int, j as int, k2, d, delta as int, len);
                        }
                        assert((i * delta + k) * self.d + j == digit_pos(i as int, j as int, k as int, d, delta as int));
                        assert((i * delta + k) <= (i * delta + k) * self.d) by (nonlinear_arith)
                            requires
                                self.d >= 1,
                                i * delta + k >= 0,
                        ;
                        assert(i * delta <= i * delta + k);
                    }
                    let idx = (i * delta + k) * self.d + j;
                    let ghost before = out.vec@;
                    out.vec[idx] = digits[k];
                    proof {
                        assert(out.vec@ == before.update(idx as int, digits@[k as int]));
                        assert(out.vec@[digit_pos(i as int, j as int, k as int, d, delta as int)] == digits@[k as int]);
                        assert forall|k2: int| 0 <= k2 < k + 1 implies #[trigger] out.vec@[digit_pos(i as int, j as int, k2, d, delta as int)] == digits@[k2] by {
                            if k2 < k {
                                lemma_digit_pos(i as int, j as int, k2, d, delta as int, len);
                                assert(digit_pos(i as int, j as int, k2, d, delta as int) != idx);
                                assert(before[digit_pos(i as int, j as int, k2, d, delta as int)] == digits@[k2]);
                            }
                        }
                    }
                    k = k + 1;
                }
                proof {
                    let col = digit_col(out.vec@, i as int, j as int, d, delta as int);
                    assert(col =~= digits@.take(delta as int));
                    assert forall|i2: int, j2: int| 0 <= i2 < i && 0 <= j2 < d implies #[trigger] col_ok(out.vec@,
                        i2, j2, d, delta as int, b, mapped(self.coeff(i2, j2), map_q, b, delta as nat)) by {
                        assert forall|k2: int| 0 <= k2 < delta implies #[trigger] out.vec@[digit_pos(i2, j2, k2, d, delta as int)]
                            == prev[digit_pos(i2, j2, k2, d, delta as int)] by {
                            lemma_digit_pos(i2, j2, k2, d, delta as int, len);
                        }
                        assert(col_ok(prev, i2, j2, d, delta as int, b, mapped(self.coeff(i2, j2), map_q, b, delta as nat)));
                        assert(digit_col(out.vec@, i2, j2, d, delta as int) =~= digit_col(prev, i2, j2, d, delta as int));
                    }
                    assert forall|j2: int| 0 <= j2 < j implies #[trigger] col_ok(out.vec@,
                        i as int, j2, d, delta as int, b, mapped(self.coeff(i as int, j2), map_q, b, delta as nat)) by {
                        assert forall|k2: int| 0 <= k2 < delta implies #[trigger] out.vec@[digit_pos(i as int, j2, k2, d, delta as int)]
                            == prev[digit_pos(i as int, j2, k2, d, delta as int)] by {
                            lemma_digit_pos(i as int, j2, k2, d, delta as int, len);
                        }
                        assert(col_ok(prev, i as int, j2, d, delta as int, b, mapped(self.coeff(i as int, j2), map_q, b, delta as nat)));
                        assert(digit_col(out.vec@, i as int, j2, d, delta as int) =~= digit_col(prev, i as int, j2, d, delta as int));
                    }
                    assert(y == mapped(self.coeff(i as int, j as int), map_q, b, delta as nat));
                    assert(col_ok(out.vec@, i as int, j as int, d, delta as int, b, y));
                }
                j = j + 1;
            }
            i = i + 1;
        }
    }
}


/// `b^delta` fits a `u64` only if `delta` times the exponent of `b` is at most 64.
proof fn lemma_exp_bound(base: u64, delta: nat)
    requires
        is_pow2(base as nat),
        pow(base as int, delta) <= u64::MAX,
    ensures
        delta * exp2_of(base as nat) <= 64,
{
    let k = exp2_of(base as nat);
    lemma_pow2(k);
    lemma_pow_multiplies(2, k, delta);
    lemma_pow2(k * delta);
    assert(k * delta == delta * k) by (nonlinear_arith);
    lemma2_to64();
    if k * delta > 64 {
        lemma_pow2_strictly_increases(64, k * delta);
    }
}

/// For a power-of-two base the window representative of a residue fits a signed `i64`, and the
/// wrapping value that [`to_window`] produces reads back as it.
proof fn lemma_zq_rep(x: u64, q: u64, base: u64, delta: nat)
    requires
        x < q,
        base >= 2,
        is_pow2(base as nat),
        pow(base as int, delta) <= u64::MAX,
        q <= pow(base as int, delta),
    ensures
        in_window(window_rep(x as int, q as int, base as int, delta), base as int, delta),
        signed(mapped(x, Some(q), base as int, delta)) == window_rep(x as int, q as int, base as int, delta),
        window_rep(x as int, q as int, base as int, delta) % (q as int) == x as int,
        delta * exp2_of(base as nat) <= 64,
{
    let b = base as int;
    let k = exp2_of(base as nat);
    lemma_pow2_pos(k);
    if k == 0 {
        lemma2_to64();
    }
    lemma_pow2_unfold(k);
    lemma_window_size(b, delta);
    lemma_geom(b, delta);
    lemma_geom_nonneg(b, delta);
    let g = geom(b, delta);
    // b^delta = 2^(k delta) <= 2^63
    lemma_pow2(k);
    lemma_pow_multiplies(2, k, delta);
    lemma_pow2(k * delta);
    assert(k * delta == delta * k) by (nonlinear_arith);
    lemma2_to64();
    lemma_pow2_unfold(64);
    if k * delta >= 64 {
        if k * delta > 64 { lemma_pow2_strictly_increases(64, k * delta); }
    }
    if k * delta < 63 {
        lemma_pow2_strictly_increases(k * delta, 63);
    }
    assert(pow(b, delta) <= 0x8000_0000_0000_0000);
    assert((b / 2) * g <= (b - 1) * g) by (nonlinear_arith)
        requires
            b >= 2,
            g >= 0,
    ;
    assert(spec_window_bottom(b, delta) >= -0x8000_0000_0000_0000) by (nonlinear_arith)
        requires
            spec_window_bottom(b, delta) == -(b / 2) * g,
            (b / 2) * g <= (b - 1) * g,
            (b - 1) * g == pow(b, delta) - 1,
            pow(b, delta) <= 0x8000_0000_0000_0000,
    ;
    if x > spec_window_top(b, delta) {
        lemma_mod_add_multiples_vanish(x - q, q as int);
        lemma_small_mod(x as nat, q as nat);
    } else {
        lemma_small_mod(x as nat, q as nat);
    }
}

/// Replacing element `i` of a flat vector keeps every other element.
pub proof fn lemma_replace_elem<T>(old_v: Seq<T>, new_v: Seq<T>, e: Seq<T>, i: int, d: int, len: int)
    requires
        0 <= i < len,
        d >= 1,
        old_v.len() == len * d,
        e.len() == d,
        new_v == old_v.subrange(0, i * d) + e + old_v.subrange(i * d + d, len * d),
    ensures
        new_v.len() == len * d,
        forall|j: int| 0 <= j < d ==> #[trigger] new_v[flat(i, j, d)] == e[j],
        forall|i2: int, j: int| 0 <= i2 < len && i2 != i && 0 <= j < d ==> #[trigger] new_v[flat(i2, j, d)] == old_v[flat(i2, j, d)],
        forall|i2: int| 0 <= i2 < len && i2 != i ==> #[trigger] new_v.subrange(i2 * d, i2 * d + d) == old_v.subrange(i2 * d, i2 * d + d),
        new_v.subrange(i * d, i * d + d) == e,
{
    lemma_flat(i, 0, d, len);
    assert(new_v.subrange(i * d, i * d + d) =~= e);
    assert forall|i2: int| 0 <= i2 < len && i2 != i implies #[trigger] new_v.subrange(i2 * d, i2 * d + d) == old_v.subrange(i2 * d, i2 * d + d) by {
        lemma_flat(i2, 0, d, len);
        assert forall|j: int| 0 <= j < d implies #[trigger] new_v.subrange(i2 * d, i2 * d + d)[j] == old_v.subrange(i2 * d, i2 * d + d)[j] by {
            lemma_flat(i2, j, d, len);
            if i2 < i {
                assert(i2 * d + d <= i * d) by (nonlinear_arith)
                    requires
                        i2 < i,
                        d >= 1,
                ;
            } else {
                assert(i2 * d >= i * d + d) by (nonlinear_arith)
                    requires
                        i2 > i,
                        d >= 1,
                ;
            }
        }
        assert(new_v.subrange(i2 * d, i2 * d + d) =~= old_v.subrange(i2 * d, i2 * d + d));
    }
    assert forall|i2: int, j: int| 0 <= i2 < len && i2 != i && 0 <= j < d implies #[trigger] new_v[flat(i2, j, d)] == old_v[flat(i2, j, d)] by {
        lemma_flat(i2, j, d, len);
        if i2 < i {
            assert(i2 * d + d <= i * d) by (nonlinear_arith)
                requires
                    i2 < i,
                    d >= 1,
            ;
        } else {
            assert(i2 * d >= i * d + d) by (nonlinear_arith)
                requires
                    i2 > i,
                    d >= 1,
            ;
        }
    }
}

impl PVec {
    /// Balanced gadget decomposition of a vector of wrapping-signed short polynomials: every
    /// coefficient is split into `delta` balanced base-`base` digits, digit `k` of coefficient
    /// `j` of element `i` stored as coefficient `j` of element `i * delta + k` of `out`.
    pub fn b_decomp(&self, base: u64, delta: usize, out: &mut Self)
        requires
            self.wf(),
            old(out).wf(),
            old(out).len == self.len * delta,
            old(out).d == self.d,
            is_pow2(base as nat),
            base >= 2,
            delta * exp2_of(base as nat) <= 64,
        ensures
            final(out).wf(),
            final(out).len == old(out).len,
            final(out).d == old(out).d,
            final(out).logd == old(out).logd,
            forall|i: int, j: int| 0 <= i < self.len && 0 <= j < self.d ==> #[trigger] col_ok(final(out).vec@,
                i, j, self.d as int, delta as int, base as int, self.coeff(i, j)),
    {
        self.decomp_mapped(None, base, delta, out);
        proof {
            assert forall|i: int, j: int| 0 <= i < self.len && 0 <= j < self.d implies #[trigger] col_ok(out.vec@,
                i, j, self.d as int, delta as int, base as int, self.coeff(i, j)) by {
                assert(mapped(self.coeff(i, j), None, base as int, delta as nat) == self.coeff(i, j));
            }
        }
    }

    /// Balanced gadget decomposition of a vector of residues in `[0, q)`: every coefficient is
    /// mapped to its representative in the balanced window and split into `delta` digits, with
    /// the layout of [`PVec::b_decomp`]. The digits recompose to the representative, hence to
    /// the coefficient modulo `q`.
    pub fn b_decomp_zq(&self, q: u64, base: u64, delta: usize, out: &mut Self)
        requires
            self.wf(),
            old(out).wf(),
            old(out).len == self.len * delta,
            old(out).d == self.d,
            is_pow2(base as nat),
            base >= 2,
            pow(base as int, delta as nat) <= u64::MAX,
            q <= pow(base as int, delta as nat),
            forall|t: int| 0 <= t < self.vec@.len() ==> #[trigger] self.vec@[t] < q,
        ensures
            final(out).wf(),
            final(out).len == old(out).len,
            final(out).d == old(out).d,
            final(out).logd == old(out).logd,
            forall|i: int, j: int| 0 <= i < self.len && 0 <= j < self.d ==> {
                let s = #[trigger] digit_col(final(out).vec@, i, j, self.d as int, delta as int);
                &&& forall|k: int| 0 <= k < delta ==> is_balanced_digit(#[trigger] s[k], base as int)
                &&& digits_value(s, base as int) == window_rep(self.coeff(i, j) as int, q as int, base as int, delta as nat)
                &&& digits_value(s, base as int) % (q as int) == self.coeff(i, j) as int
            },
    {
        proof {
            lemma_exp_bound(base, delta as nat);
        }
        self.decomp_mapped(Some(q), base, delta, out);
        proof {
            assert forall|i: int, j: int| 0 <= i < self.len && 0 <= j < self.d implies {
                let s = #[trigger] digit_col(out.vec@, i, j, self.d as int, delta as int);
                &&& forall|k: int| 0 <= k < delta ==> is_balanced_digit(#[trigger] s[k], base as int)
                &&& digits_value(s, base as int) == window_rep(self.coeff(i, j) as int, q as int, base as int, delta as nat)
                &&& digits_value(s, base as int) % (q as int) == self.coeff(i, j) as int
            } by {
                lemma_pow2_pos(self.logd as nat);
                lemma_flat(i, j, self.d as int, self.len as int);
                let x = self.coeff(i, j);
                lemma_zq_rep(x, q, base, delta as nat);
                assert(col_ok(out.vec@, i, j, self.d as int, delta as int, base as int,
                    mapped(self.coeff(i, j), Some(q), base as int, delta as nat)));
            }
        }
    }

    /// Elementwise division by `X^d + 1`: `self` holds full products of dimension `2d`, and the
    /// quotient and remainder of element `i` go to element `i` of `quotient` and `remainder`.
    pub fn cyclotomic_div(&self, q: u64, quotient: &mut Self, remainder: &mut Self)
        requires
            self.wf(),
            old(quotient).wf(),
            old(remainder).wf(),
            old(quotient).len >= self.len,
            old(remainder).len >= self.len,
            old(quotient).d == self.d / 2,
            old(remainder).d == self.d / 2,
        ensures
            final(quotient).wf(),
            final(remainder).wf(),
            final(quotient).len == old(quotient).len,
            final(remainder).len == old(remainder).len,
            final(quotient).d == old(quotient).d,
            final(remainder).d == old(remainder).d,
            forall|i: int, j: int| 0 <= i < self.len && 0 <= j < self.d / 2 ==> #[trigger] final(quotient).coeff(i, j)
                == self.coeff(i, j + self.d / 2),
            forall|i: int, j: int| 0 <= i < self.len && 0 <= j < self.d / 2 ==> #[trigger] final(remainder).coeff(i, j)
                == cdiv_rem(self.coeff(i, j), self.coeff(i, j + self.d / 2), q),
            forall|i: int, j: int| self.len <= i < old(quotient).len && 0 <= j < old(quotient).d ==> #[trigger] final(quotient).coeff(i, j)
                == old(quotient).coeff(i, j),
            forall|i: int, j: int| self.len <= i < old(remainder).len && 0 <= j < old(remainder).d ==> #[trigger] final(remainder).coeff(i, j)
                == old(remainder).coeff(i, j),
    {
        let mut i: usize = 0;
        while i < self.len
            invariant
                self.wf(),
                quotient.wf(),
                remainder.wf(),
                quotient.len == old(quotient).len,
                remainder.len == old(remainder).len,
                quotient.d == old(quotient).d,
                remainder.d == old(remainder).d,
                quotient.len >= self.len,
                remainder.len >= self.len,
                quotient.d == self.d / 2,
                remainder.d == self.d / 2,
                0 <= i <= self.len,
                forall|i2: int, j: int| 0 <= i2 < i && 0 <= j < self.d / 2 ==> #[trigger] quotient.coeff(i2, j)
                    == self.coeff(i2, j + self.d / 2),
                forall|i2: int, j: int| 0 <= i2 < i && 0 <= j < self.d / 2 ==> #[trigger] remainder.coeff(i2, j)
                    == cdiv_rem(self.coeff(i2, j), self.coeff(i2, j + self.d / 2), q),
                forall|i2: int, j: int| i <= i2 < old(quotient).len && 0 <= j < old(quotient).d ==> #[trigger] quotient.coeff(i2, j)
                    == old(quotient).coeff(i2, j),
                forall|i2: int, j: int| i <= i2 < old(remainder).len && 0 <= j < old(remainder).d ==> #[trigger] remainder.coeff(i2, j)
                    == old(remainder).coeff(i2, j),
            decreases self.len - i,
        {
            let ghost q_prev = quotient.vec@;
            let ghost r_prev = remainder.vec@;
            let ghost q_old = *quotient;
            let ghost r_old = *remainder;
            let p = self.element(i);
            let qe = quotient.mut_element(i);
            let re = remainder.mut_element(i);
            p.cyclotomic_div(q, qe, re);
            let ghost qe_val = qe@;
            let ghost re_val = re@;
            proof {
                lemma_pow2_pos(self.logd as nat);
                lemma_pow2_pos(quotient.logd as nat);
                lemma_pow2_pos(remainder.logd as nat);
                lemma_flat(i as int, 0, quotient.d as int, quotient.len as int);
                lemma_flat(i as int, 0, remainder.d as int, remainder.len as int);
                lemma_replace_elem(q_prev, quotient.vec@, qe_val, i as int, quotient.d as int, quotient.len as int);
                lemma_replace_elem(r_prev, remainder.vec@, re_val, i as int, remainder.d as int, remainder.len as int);
                assert forall|j: int| 0 <= j < self.d / 2 implies #[trigger] p@[j + self.d / 2] == self.coeff(i as int, j + self.d / 2) by {
                    lemma_flat(i as int, j + self.d / 2, self.d as int, self.len as int);
                }
                assert forall|j: int| 0 <= j < self.d / 2 implies #[trigger] p@[j] == self.coeff(i as int, j) by {
                    lemma_flat(i as int, j, self.d as int, self.len as int);
                }
                assert forall|i2: int, j: int| i + 1 <= i2 < old(quotient).len && 0 <= j < old(quotient).d implies #[trigger] quotient.coeff(i2, j)
                    == old(quotient).coeff(i2, j) by {
                    assert(quotient.vec@[flat(i2, j, quotient.d as int)] == q_prev[flat(i2, j, quotient.d as int)]);
                    assert(q_old.coeff(i2, j) == old(quotient).coeff(i2, j));
                }
                assert forall|i2: int, j: int| i + 1 <= i2 < old(remainder).len && 0 <= j < old(remainder).d implies #[trigger] remainder.coeff(i2, j)
                    == old(remainder).coeff(i2, j) by {
                    assert(remainder.vec@[flat(i2, j, remainder.d as int)] == r_prev[flat(i2, j, remainder.d as int)]);
                    assert(r_old.coeff(i2, j) == old(remainder).coeff(i2, j));
                }
                assert forall|i2: int, j: int| 0 <= i2 < i + 1 && 0 <= j < self.d / 2 implies #[trigger] quotient.coeff(i2, j)
                    == self.coeff(i2, j + self.d / 2) by {
                    if i2 < i {
                        assert(quotient.vec@[flat(i2, j, quotient.d as int)] == q_prev[flat(i2, j, quotient.d as int)]);
                        assert(q_old.coeff(i2, j) == self.coeff(i2, j + self.d / 2));
                    } else {
                        assert(quotient.vec@[flat(i2, j, quotient.d as int)] == qe_val[j]);
                        assert(p@[j + self.d / 2] == self.coeff(i as int, j + self.d / 2));
                    }
                }
                assert forall|i2: int, j: int| 0 <= i2 < i + 1 && 0 <= j < self.d / 2 implies #[trigger] remainder.coeff(i2, j)
                    == cdiv_rem(self.coeff(i2, j), self.coeff(i2, j + self.d / 2), q) by {
                    if i2 < i {
                        assert(remainder.vec@[flat(i2, j, remainder.d as int)] == r_prev[flat(i2, j, remainder.d as int)]);
                        assert(r_old.coeff(i2, j) == cdiv_rem(self.coeff(i2, j), self.coeff(i2, j + self.d / 2), q));
                    } else {
                        assert(remainder.vec@[flat(i2, j, remainder.d as int)] == re_val[j]);
                        assert(p@[j + self.d / 2] == self.coeff(i as int, j + self.d / 2));
                        assert(p@[j] == self.coeff(i as int, j));
                    }
                }
            }
            i = i + 1;
        }
    }
}


/// The 8 big-endian bytes of `x`.
pub open spec fn u64_be(x: u64) -> Seq<u8> {
    seq![(x >> 56u64) as u8, (x >> 48u64) as u8, (x >> 40u64) as u8, (x >> 32u64) as u8,
        (x >> 24u64) as u8, (x >> 16u64) as u8, (x >> 8u64) as u8, x as u8]
}

/// The big-endian bytes of the first `n` entries of `v`, entry after entry.
pub open spec fn be_concat(v: Seq<u64>, n: nat) -> Seq<u8>
    decreases n,
{
    if n == 0 {
        Seq::empty()
    } else {
        be_concat(v, (n - 1) as nat) + u64_be(v[n - 1])
    }
}

/// The big-endian bytes of `n` entries take 8 bytes each.
pub proof fn lemma_be_concat_len(v: Seq<u64>, n: nat)
    ensures
        be_concat(v, n).len() == 8 * n,
    decreases n,
{
    if n > 0 {
        lemma_be_concat_len(v, (n - 1) as nat);
    }
}

/// Entry `t` of `v` sits at bytes `8 t .. 8 t + 8` of the encoding of its first `n` entries,
/// most significant byte first.
pub proof fn lemma_be_concat_at(v: Seq<u64>, n: nat, t: int)
    requires
        0 <= t < n,
    ensures
        be_concat(v, n).subrange(8 * t, 8 * t + 8) == u64_be(v[t]),
    decreases n,
{
    let prev = be_concat(v, (n - 1) as nat);
    lemma_be_concat_len(v, (n - 1) as nat);
    if t == n - 1 {
        assert(be_concat(v, n).subrange(8 * t, 8 * t + 8) =~= u64_be(v[t]));
    } else {
        lemma_be_concat_at(v, (n - 1) as nat, t);
        assert(be_concat(v, n).subrange(8 * t, 8 * t + 8) =~= prev.subrange(8 * t, 8 * t + 8));
    }
}

/// Transcript encoding: every coefficient as 8 big-endian bytes, element after element.
impl Serialise for PVec {
    open spec fn serialised(&self) -> Seq<u8> {
        be_concat(self.vec@, self.vec@.len())
    }

    fn serialise(&self) -> (b: Vec<u8>) {
        let mut bytes: Vec<u8> = Vec::new();
        let mut i: usize = 0;
        while i < self.vec.len()
            invariant
                0 <= i <= self.vec@.len(),
                bytes@ == be_concat(self.vec@, i as nat),
            decreases self.vec@.len() - i,
        {
            let x = self.vec[i];
            let ghost before = bytes@;
            bytes.push((x >> 56u64) as u8);
            bytes.push((x >> 48u64) as u8);
            bytes.push((x >> 40u64) as u8);
            bytes.push((x >> 32u64) as u8);
            bytes.push((x >> 24u64) as u8);
            bytes.push((x >> 16u64) as u8);
            bytes.push((x >> 8u64) as u8);
            bytes.push(x as u8);
            proof {
                assert(bytes@ =~= before + u64_be(x));
            }
            i = i + 1;
        }
        bytes
    }
}

impl PVec {
    /// Deep copy.
    pub fn copy(&self) -> (c: Self)
        ensures
            c.len == self.len,
            c.d == self.d,
            c.logd == self.logd,
            c.vec@ == self.vec@,
    {
        let mut v: Vec<u64> = Vec::with_capacity(self.vec.len());
        let mut i: usize = 0;
        while i < self.vec.len()
            invariant
                0 <= i <= self.vec@.len(),
                v@ == self.vec@.take(i as int),
            decreases self.vec@.len() - i,
        {
            v.push(self.vec[i]);
            i = i + 1;
        }
        proof {
            assert(v@ =~= self.vec@);
        }
        PVec { len: self.len, d: self.d, logd: self.logd, vec: v }
    }
}

} // verus!
