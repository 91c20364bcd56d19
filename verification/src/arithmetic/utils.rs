//! Integer helpers: multilinear monomials, gadget and power vectors, the balanced-digit window,
//! the per-coefficient balanced digit split, and the ceiling logarithm.

use vstd::prelude::*;
use vstd::arithmetic::power2::*;
use vstd::arithmetic::div_mod::*;
use vstd::arithmetic::mul::*;
use vstd::bits::*;
use vstd::arithmetic::power::*;
use crate::arithmetic::field::{Fq, Fq2, Fq4, fq, lift4, scale4, add4, sub4, mul4};
use crate::arithmetic::rng::{Prg, chacha12_u64, max_tries, low_mask, first_accept, draw_val, draw_pos, samples, samples_end};

verus! {

/// Bit `j` of `i`.
pub open spec fn bit(i: nat, j: nat) -> bool {
    (i / pow2(j)) % 2 == 1
}

/// The multilinear monomial `prod_{t < len, bit t of i} x[t]`, reduced modulo `q` after every
/// factor (the empty product is the integer `1`, unreduced).
pub open spec fn spec_multi_lin_coeff(x: Seq<u64>, i: nat, len: nat, q: int) -> int
    decreases len,
{
    if len == 0 {
        1int
    } else {
        let prev = spec_multi_lin_coeff(x, i, (len - 1) as nat, q);
        if bit(i, (len - 1) as nat) {
            (prev * x[len - 1]) % q
        } else {
            prev
        }
    }
}

proof fn lemma_bit_shift(i: u64, j: u64)
    requires
        j < 64,
    ensures
        (((i >> j) & 1) == 1) == bit(i as nat, j as nat),
{
    lemma_u64_shr_is_div(i, j);
    let s = i >> j;
    assert((s & 1) == s % 2) by (bit_vector);
}

/// The multilinear monomial of the evaluation point `x` selected by the bits of `i`: the product
/// of the `x[t]` with bit `t` of `i` set, `t < len`, modulo `q`.
pub fn multi_lin_coeff_int(x: &[u64], i: usize, len: usize, q: u64) -> (c: u64)
    requires
        len <= x@.len(),
        len <= 64,
        0 < q < 0x1_0000_0000,
        forall|t: int| 0 <= t < len ==> x@[t] < q,
    ensures
        c == spec_multi_lin_coeff(x@, i as nat, len as nat, q as int),
        len == 0 || c < q || c == 1,
{
    let mut c: u64 = 1;
    let mut j: usize = 0;
    while j < len
        invariant
            j <= len,
            len <= x@.len(),
            len <= 64,
            0 < q < 0x1_0000_0000,
            forall|t: int| 0 <= t < len ==> x@[t] < q,
            c == spec_multi_lin_coeff(x@, i as nat, j as nat, q as int),
            c < q || c == 1,
        decreases len - j,
    {
        proof {
            lemma_bit_shift(i as u64, j as u64);
        }
        if (((i as u64) >> (j as u64)) & 1) == 1 {
            assert(c * x@[j as int] < 0x1_0000_0000 * 0x1_0000_0000) by (nonlinear_arith)
                requires
                    c < 0x1_0000_0000,
                    x@[j as int] < 0x1_0000_0000,
            ;
            c = (c * x[j]) % q;
        }
        j = j + 1;
    }
    c
}


/// The value of a `u64` read as a two's-complement `i64`.
pub open spec fn signed(x: u64) -> int {
    if x < 0x8000_0000_0000_0000 {
        x as int
    } else {
        x as int - 0x1_0000_0000_0000_0000
    }
}

/// `sum_{i < n} b^i`.
pub open spec fn geom(b: int, n: nat) -> int
    decreases n,
{
    if n == 0 {
        0
    } else {
        geom(b, (n - 1) as nat) + pow(b, (n - 1) as nat)
    }
}

/// The integer `sum_i signed(s[i]) * b^i` represented by a sequence of wrapping-signed digits,
/// least significant first.
pub open spec fn digits_value(s: Seq<u64>, b: int) -> int
    decreases s.len(),
{
    if s.len() == 0 {
        0
    } else {
        digits_value(s.drop_last(), b) + signed(s.last()) * pow(b, (s.len() - 1) as nat)
    }
}

/// A balanced base-`b` digit: its signed value lies in `[-b/2, b/2 - 1]`.
pub open spec fn is_balanced_digit(a: u64, b: int) -> bool {
    -(b / 2) <= signed(a) < b / 2
}

/// Largest value representable with `delta` balanced base-`b` digits.
pub open spec fn spec_window_top(b: int, delta: nat) -> int {
    (b / 2 - 1) * geom(b, delta)
}

/// Smallest value representable with `delta` balanced base-`b` digits.
pub open spec fn spec_window_bottom(b: int, delta: nat) -> int {
    -(b / 2) * geom(b, delta)
}

/// The window of integers representable with `delta` balanced base-`b` digits.
pub open spec fn in_window(v: int, b: int, delta: nat) -> bool {
    spec_window_bottom(b, delta) <= v <= spec_window_top(b, delta)
}

/// `(b - 1) * (1 + b + ... + b^{n-1}) == b^n - 1`.
pub proof fn lemma_geom(b: int, n: nat)
    ensures
        (b - 1) * geom(b, n) == pow(b, n) - 1,
    decreases n,
{
    reveal(pow);
    if n > 0 {
        lemma_geom(b, (n - 1) as nat);
        let g = geom(b, (n - 1) as nat);
        let p = pow(b, (n - 1) as nat);
        assert((b - 1) * (g + p) == (b - 1) * g + (b - 1) * p) by (nonlinear_arith);
        assert(b * p == (b - 1) * p + p) by (nonlinear_arith);
    }
}

/// For `b >= 2`, `geom(b, n) >= 0` and `pow(b, n) >= 1`.
pub proof fn lemma_geom_nonneg(b: int, n: nat)
    requires
        b >= 2,
    ensures
        geom(b, n) >= 0,
        pow(b, n) >= 1,
    decreases n,
{
    reveal(pow);
    lemma_pow_positive(b, n);
    if n > 0 {
        lemma_geom_nonneg(b, (n - 1) as nat);
        lemma_pow_positive(b, (n - 1) as nat);
    }
}

/// The window of `delta` balanced digits holds exactly `b^delta` consecutive integers.
pub proof fn lemma_window_size(b: int, delta: nat)
    requires
        b >= 2,
        b % 2 == 0,
    ensures
        spec_window_top(b, delta) - spec_window_bottom(b, delta) + 1 == pow(b, delta),
        spec_window_bottom(b, delta) <= 0 <= spec_window_top(b, delta),
{
    lemma_geom(b, delta);
    lemma_geom_nonneg(b, delta);
    let g = geom(b, delta);
    assert((b / 2 - 1) * g - (-(b / 2) * g) == (b - 1) * g) by (nonlinear_arith)
        requires
            b % 2 == 0,
    ;
    assert((b / 2 - 1) * g >= 0) by (nonlinear_arith)
        requires
            b >= 2,
            g >= 0,
    ;
    assert(-(b / 2) * g <= 0) by (nonlinear_arith)
        requires
            b >= 2,
            g >= 0,
    ;
}

/// Digit sequences of balanced digits represent values inside the window.
pub proof fn lemma_digits_in_window(s: Seq<u64>, b: int)
    requires
        b >= 2,
        forall|i: int| 0 <= i < s.len() ==> is_balanced_digit(#[trigger] s[i], b),
    ensures
        in_window(digits_value(s, b), b, s.len()),
    decreases s.len(),
{
    reveal(pow);
    if s.len() > 0 {
        let t = s.drop_last();
        assert forall|i: int| 0 <= i < t.len() implies is_balanced_digit(#[trigger] t[i], b) by {
            assert(t[i] == s[i]);
        }
        lemma_digits_in_window(t, b);
        let n = (s.len() - 1) as nat;
        lemma_geom_nonneg(b, n);
        let p = pow(b, n);
        let g = geom(b, n);
        let a = signed(s.last());
        assert(is_balanced_digit(s[s.len() - 1], b));
        assert(a * p <= (b / 2 - 1) * p) by (nonlinear_arith)
            requires
                a < b / 2,
                p >= 1,
        ;
        assert(a * p >= -(b / 2) * p) by (nonlinear_arith)
            requires
                a >= -(b / 2),
                p >= 1,
        ;
        assert((b / 2 - 1) * g + (b / 2 - 1) * p == (b / 2 - 1) * (g + p)) by (nonlinear_arith);
        assert(-(b / 2) * g + -(b / 2) * p == -(b / 2) * (g + p)) by (nonlinear_arith);
    }
}

/// Two values of one window that are congruent modulo its size are equal.
pub proof fn lemma_window_unique(u: int, v: int, b: int, delta: nat)
    requires
        b >= 2,
        b % 2 == 0,
        in_window(u, b, delta),
        in_window(v, b, delta),
        (u - v) % pow(b, delta) == 0,
    ensures
        u == v,
{
    lemma_window_size(b, delta);
    let m = pow(b, delta);
    let k = (u - v) / m;
    assert(u - v == m * k) by {
        vstd::arithmetic::div_mod::lemma_fundamental_div_mod(u - v, m);
    }
    if k >= 1 {
        assert(m * k >= m) by (nonlinear_arith)
            requires
                k >= 1,
                m >= 1,
        ;
    } else if k <= -1 {
        assert(m * k <= -m) by (nonlinear_arith)
            requires
                k <= -1,
                m >= 1,
        ;
    } else {
        assert(k == 0);
        assert(m * k == 0) by (nonlinear_arith)
            requires
                k == 0,
        ;
    }
}

/// Balanced base-`b` digits are unique: two digit sequences of one length with the same value
/// are equal.
pub proof fn lemma_digits_unique(s1: Seq<u64>, s2: Seq<u64>, b: int)
    requires
        b >= 2,
        b % 2 == 0,
        s1.len() == s2.len(),
        forall|i: int| 0 <= i < s1.len() ==> is_balanced_digit(#[trigger] s1[i], b),
        forall|i: int| 0 <= i < s2.len() ==> is_balanced_digit(#[trigger] s2[i], b),
        digits_value(s1, b) == digits_value(s2, b),
    ensures
        s1 == s2,
    decreases s1.len(),
{
    if s1.len() > 0 {
        let t1 = s1.drop_last();
        let t2 = s2.drop_last();
        let n = (s1.len() - 1) as nat;
        assert forall|i: int| 0 <= i < t1.len() implies is_balanced_digit(#[trigger] t1[i], b) by {
            assert(t1[i] == s1[i]);
        }
        assert forall|i: int| 0 <= i < t2.len() implies is_balanced_digit(#[trigger] t2[i], b) by {
            assert(t2[i] == s2[i]);
        }
        lemma_digits_in_window(t1, b);
        lemma_digits_in_window(t2, b);
        lemma_geom_nonneg(b, n);
        let bb = pow(b, n);
        let w1 = digits_value(t1, b);
        let w2 = digits_value(t2, b);
        let a1 = signed(s1.last());
        let a2 = signed(s2.last());
        assert(w1 + a1 * bb == w2 + a2 * bb);
        assert(w1 - w2 == (a2 - a1) * bb) by (nonlinear_arith)
            requires
                w1 + a1 * bb == w2 + a2 * bb,
        ;
        vstd::arithmetic::div_mod::lemma_mod_multiples_basic(a2 - a1, bb);
        lemma_window_unique(w1, w2, b, n);
        assert(a1 == a2) by (nonlinear_arith)
            requires
                w1 == w2,
                w1 + a1 * bb == w2 + a2 * bb,
                bb >= 1,
        ;
        assert(is_balanced_digit(s1[s1.len() - 1], b));
        assert(is_balanced_digit(s2[s2.len() - 1], b));
        lemma_digits_unique(t1, t2, b);
        assert(s1 =~= t1.push(s1.last()));
        assert(s2 =~= t2.push(s2.last()));
    } else {
        assert(s1 =~= s2);
    }
}

/// The gadget row `(1, b, b^2, ..., b^{l-1})`.
pub fn gadget(b: u64, l: usize) -> (g: Vec<u64>)
    requires
        l >= 1 ==> pow(b as int, (l - 1) as nat) <= u64::MAX,
    ensures
        g@.len() == l,
        forall|i: int| 0 <= i < l ==> g@[i] == pow(b as int, i as nat),
{
    let mut g: Vec<u64> = Vec::new();
    if l == 0 {
        return g;
    }
    g.push(1);
    proof {
        reveal(pow);
    }
    let mut i: usize = 1;
    while i < l
        invariant
            1 <= i <= l,
            l >= 1 ==> pow(b as int, (l - 1) as nat) <= u64::MAX,
            g@.len() == i,
            forall|j: int| 0 <= j < i ==> g@[j] == pow(b as int, j as nat),
        decreases l - i,
    {
        proof {
            reveal(pow);
            if b > 0 {
                lemma_pow_increases(b as nat, i as nat, (l - 1) as nat);
            } else {
                lemma_pow0(b as int);
                assert(pow(b as int, i as nat) == b * pow(b as int, (i - 1) as nat));
            }
        }
        let prev = g[i - 1];
        assert(pow(b as int, i as nat) == b * pow(b as int, (i - 1) as nat)) by {
            reveal(pow);
        }
        g.push(b * prev);
        i = i + 1;
    }
    g
}


/// `2^64` as an integer.
pub open spec fn two64() -> int {
    0x1_0000_0000_0000_0000
}

/// `1 << k` is `2^k` for `k < 64`.
pub proof fn lemma_shl_one(k: u64)
    requires
        k < 64,
    ensures
        (1u64 << k) as int == pow2(k as nat),
        pow2(k as nat) <= u64::MAX,
        pow2(k as nat) >= 1,
{
    lemma_u64_pow2_no_overflow(k as nat);
    lemma_pow2_pos(k as nat);
    lemma_u64_shl_is_mul(1, k);
}

/// One step of the balanced digit split: with `b = 2^logb`, the digit `a` taken from the low
/// bits of `cur` is balanced and `cur = a + b * nxt (mod 2^64)`.
proof fn lemma_decomp_step(cur: u64, logb: u64, base: u64, mask: u64, half: u64, r: u64, a: u64, nxt: u64)
    requires
        1 <= logb < 64,
        base == 1u64 << logb,
        mask == (base - 1) as u64,
        half == base >> 1u64,
        r == cur & mask,
        a == (if r >= half { r.wrapping_sub(base) } else { r }),
        nxt == cur.wrapping_sub(a) >> logb,
    ensures
        is_balanced_digit(a, pow2(logb as nat) as int),
        (cur - signed(a) - pow2(logb as nat) * nxt) % two64() == 0,
{
    lemma_shl_one(logb);
    let b = pow2(logb as nat) as int;
    lemma_pow2_unfold(logb as nat);
    lemma_u64_shr_is_div(base, 1);
    assert(pow2(1) == 2) by {
        lemma2_to64();
    }
    assert(half == b / 2);
    assert(b % 2 == 0);
    assert(mask as nat == low_bits_mask(logb as nat));
    lemma_u64_low_bits_mask_is_mod(cur, logb as nat);
    assert(r == cur % base);
    // 2^64 = b * t
    let t = pow2((64 - logb) as nat) as int;
    lemma_pow2_adds(logb as nat, (64 - logb) as nat);
    lemma2_to64();
    assert(b * t == two64());
    lemma_pow2_pos((64 - logb) as nat);
    lemma_pow2_strictly_increases(logb as nat, 64);
    assert(b <= 0x8000_0000_0000_0000) by {
        lemma2_to64();
        if logb < 63 {
            lemma_pow2_strictly_increases(logb as nat, 63);
            assert(pow2(logb as nat) < pow2(63));
        } else {
            assert(logb as nat == 63);
        }
        lemma_pow2_unfold(64);
        assert(pow2(63) == 0x8000_0000_0000_0000);
    }
    let c1 = cur / base;
    lemma_fundamental_div_mod(cur as int, base as int);
    assert(cur == b * c1 + r);
    let k3: int = if r >= half { 1 } else { 0 };
    let k2: int = if r >= half { 1 } else { 0 };
    let au = a as int;
    assert(au == r - b * k3 + two64() * k2);
    let k1: int = if cur >= a { 0 } else { 1 };
    let w = (if cur >= a { cur - a } else { cur - a + two64() }) as u64;
    assert(w as int == cur - au + two64() * k1);
    let m = c1 + k3 + (k1 - k2) * t;
    assert(w as int == b * m) by (nonlinear_arith)
        requires
            w as int == cur - au + two64() * k1,
            cur == b * c1 + r,
            au == r - b * k3 + two64() * k2,
            b * t == two64(),
            m == c1 + k3 + (k1 - k2) * t,
    ;
    lemma_u64_shr_is_div(w, logb);
    lemma_div_multiples_vanish(m, b);
    assert(nxt == m);
    // the digit
    if r >= half {
        assert(signed(a) == r - b);
    } else {
        assert(signed(a) == r);
    }
    assert(cur - signed(a) - b * nxt == -(k1 - k2) * two64()) by (nonlinear_arith)
        requires
            cur == b * c1 + r,
            signed(a) == r - b * k3,
            nxt == m,
            m == c1 + k3 + (k1 - k2) * t,
            b * t == two64(),
    ;
    lemma_mod_multiples_basic(-(k1 - k2), two64());
    assert(-(k1 - k2) * two64() == (-(k1 - k2)) * two64());
}

/// `2^64` is a multiple of `b^delta` for `b = 2^logb`, `delta * logb <= 64`.
proof fn lemma_pow_divides_two64(logb: nat, delta: nat)
    requires
        delta * logb <= 64,
    ensures
        pow(pow2(logb) as int, delta) == pow2(delta * logb),
        two64() == pow(pow2(logb) as int, delta) * pow2((64 - delta * logb) as nat),
        pow(pow2(logb) as int, delta) >= 1,
{
    lemma_pow2(logb);
    lemma_pow_multiplies(2, logb, delta);
    lemma_pow2(logb * delta);
    assert(logb * delta == delta * logb) by (nonlinear_arith);
    lemma_pow2_adds(delta * logb, (64 - delta * logb) as nat);
    lemma2_to64();
    lemma_pow2_pos(delta * logb);
}

/// `digits_value` of a one-longer prefix.
proof fn lemma_digits_value_take(s: Seq<u64>, i: int, b: int)
    requires
        0 <= i < s.len(),
    ensures
        digits_value(s.take(i + 1), b) == digits_value(s.take(i), b) + signed(s[i]) * pow(b, i as nat),
{
    assert(s.take(i + 1).drop_last() =~= s.take(i));
}

/// Balanced base-`2^logb` digit split of one wrapping-signed integer into `out[0..delta]`: the
/// digits are balanced and represent `x` modulo `b^delta`, exactly when `x` lies in the window.
pub fn b_decomp(x: u64, logb: usize, delta: usize, out: &mut [u64])
    requires
        1 <= logb < 64,
        delta * logb <= 64,
        delta <= old(out)@.len(),
    ensures
        final(out)@.len() == old(out)@.len(),
        forall|i: int| delta <= i < old(out)@.len() ==> final(out)@[i] == old(out)@[i],
        forall|i: int| 0 <= i < delta ==> is_balanced_digit(#[trigger] final(out)@[i], pow2(logb as nat) as int),
        (signed(x) - digits_value(final(out)@.take(delta as int), pow2(logb as nat) as int))
            % pow(pow2(logb as nat) as int, delta as nat) == 0,
        in_window(signed(x), pow2(logb as nat) as int, delta as nat)
            ==> digits_value(final(out)@.take(delta as int), pow2(logb as nat) as int) == signed(x),
{
    let ghost b: int = pow2(logb as nat) as int;
    let ghost big_p: int = pow(b, delta as nat);
    proof {
        lemma_shl_one(logb as u64);
        lemma_pow_divides_two64(logb as nat, delta as nat);
        reveal(pow);
    }
    let mut cur: u64 = x;
    let base: u64 = 1u64 << (logb as u64);
    let mask: u64 = base - 1;
    let half_base: u64 = base >> 1u64;
    proof {
        assert(out@.take(0).len() == 0);
        assert(pow(b, 0) == 1);
        assert(x - digits_value(out@.take(0), b) - pow(b, 0) * cur == 0);
    }
    let mut i: usize = 0;
    while i < delta
        invariant
            0 <= i <= delta,
            1 <= logb < 64,
            delta * logb <= 64,
            delta <= out@.len(),
            out@.len() == old(out)@.len(),
            forall|j: int| delta <= j < old(out)@.len() ==> out@[j] == old(out)@[j],
            b == pow2(logb as nat) as int,
            big_p == pow(b, delta as nat),
            big_p >= 1,
            two64() == big_p * pow2((64 - delta * logb) as nat),
            base == 1u64 << (logb as u64),
            base as int == b,
            mask == (base - 1) as u64,
            half_base == base >> 1u64,
            forall|j: int| 0 <= j < i ==> is_balanced_digit(#[trigger] out@[j], b),
            (x - digits_value(out@.take(i as int), b) - pow(b, i as nat) * cur) % big_p == 0,
        decreases delta - i,
    {
        let r = cur & mask;
        let a = if r >= half_base { r.wrapping_sub(base) } else { r };
        let nxt = (cur.wrapping_sub(a)) >> (logb as u64);
        let ghost prev = out@;
        let ghost pi = pow(b, i as nat);
        let ghost dv = digits_value(prev.take(i as int), b);
        proof {
            lemma_decomp_step(cur, logb as u64, base, mask, half_base, r, a, nxt);
            let e = cur - signed(a) - b * nxt;
            let j = e / two64();
            lemma_fundamental_div_mod(e, two64());
            assert(e == two64() * j);
            let t2 = pow2((64 - delta * logb) as nat) as int;
            assert(pi * e == big_p * (pi * j * t2)) by (nonlinear_arith)
                requires
                    e == two64() * j,
                    two64() == big_p * t2,
            ;
            let xi = x - dv - pi * cur;
            assert(x - (dv + signed(a) * pi) - (pi * b) * nxt == xi + pi * e) by (nonlinear_arith)
                requires
                    xi == x - dv - pi * cur,
                    e == cur - signed(a) - b * nxt,
            ;
            lemma_mod_multiples_vanish(pi * j * t2, xi, big_p);
            assert(pow(b, (i + 1) as nat) == b * pi) by {
                reveal(pow);
            }
            assert(pi * b == b * pi) by (nonlinear_arith);
            assert((x - (dv + signed(a) * pi) - pow(b, (i + 1) as nat) * nxt) % big_p == 0);
        }
        out[i] = a;
        proof {
            assert(out@.take(i as int) =~= prev.take(i as int));
            lemma_digits_value_take(out@, i as int, b);
            assert(digits_value(out@.take(i + 1), b) == dv + signed(a) * pi);
        }
        cur = nxt;
        i = i + 1;
    }
    proof {
        let dv = digits_value(out@.take(delta as int), b);
        let xi = x - dv - big_p * cur;
        lemma_mod_multiples_vanish(cur as int, xi, big_p);
        assert(big_p * cur + xi == x - dv);
        let t2 = pow2((64 - delta * logb) as nat) as int;
        if x >= 0x8000_0000_0000_0000 {
            lemma_mod_multiples_vanish(-t2, x - dv, big_p);
            assert(big_p * (-t2) + (x - dv) == signed(x) - dv) by (nonlinear_arith)
                requires
                    two64() == big_p * t2,
                    signed(x) == x - two64(),
            ;
        }
        assert forall|j: int| 0 <= j < out@.take(delta as int).len() implies is_balanced_digit(#[trigger] out@.take(delta as int)[j], b) by {
            assert(out@.take(delta as int)[j] == out@[j]);
        }
        lemma_pow2_unfold(logb as nat);
        lemma_pow2_pos((logb - 1) as nat);
        lemma_digits_in_window(out@.take(delta as int), b);
        if in_window(signed(x), b, delta as nat) {
            lemma_window_unique(signed(x), dv, b, delta as nat);
        }
    }
}


/// `b^e` when it fits in a `u64`, `None` otherwise.
pub fn checked_pow(b: u64, e: usize) -> (r: Option<u64>)
    requires
        b >= 2,
    ensures
        pow(b as int, e as nat) <= u64::MAX ==> r == Some(pow(b as int, e as nat) as u64),
        pow(b as int, e as nat) > u64::MAX ==> r is None,
{
    let mut p: u64 = 1;
    let mut i: usize = 0;
    proof {
        reveal(pow);
    }
    while i < e
        invariant
            0 <= i <= e,
            b >= 2,
            p as int == pow(b as int, i as nat),
        decreases e - i,
    {
        proof {
            reveal(pow);
        }
        match p.checked_mul(b) {
            Some(np) => {
                assert(np as int == pow(b as int, (i + 1) as nat)) by {
                    reveal(pow);
                    assert(p * b == b * p) by (nonlinear_arith);
                }
                p = np;
            },
            None => {
                proof {
                    assert(pow(b as int, (i + 1) as nat) == b * p) by {
                        reveal(pow);
                        assert(p * b == b * p) by (nonlinear_arith);
                    }
                    lemma_pow_increases(b as nat, (i + 1) as nat, e as nat);
                }
                return None;
            },
        }
        i = i + 1;
    }
    Some(p)
}

/// Largest non-negative integer representable with `delta` balanced base-`b` digits:
/// `(b/2 - 1) * (b^delta - 1) / (b - 1)`.
pub fn window_top(b: u64, delta: usize) -> (top: u64)
    requires
        b >= 2,
        pow(b as int, delta as nat) <= u64::MAX,
    ensures
        top as int == spec_window_top(b as int, delta as nat),
{
    let b_pow = checked_pow(b, delta).unwrap();
    proof {
        lemma_geom(b as int, delta as nat);
        lemma_geom_nonneg(b as int, delta as nat);
        let g = geom(b as int, delta as nat);
        assert(b_pow - 1 == (b - 1) * g);
        assert(((b - 1) * g) / (b - 1) as int == g) by {
            lemma_div_multiples_vanish(g, (b - 1) as int);
        }
        assert((b / 2 - 1) * g <= (b - 1) * g) by (nonlinear_arith)
            requires
                b >= 2,
                g >= 0,
        ;
        assert((b / 2 - 1) * g >= 0) by (nonlinear_arith)
            requires
                b >= 2,
                g >= 0,
        ;
    }
    (b / 2 - 1) * ((b_pow - 1) / (b - 1))
}

/// The representative of a residue `x` in the balanced window: `x` up to the top of the
/// window, `x - q` above it.
pub open spec fn window_rep(x: int, q: int, b: int, delta: nat) -> int {
    if x > spec_window_top(b, delta) {
        x - q
    } else {
        x
    }
}

/// Map a residue `x < q` to its representative in the balanced window of `delta` base-`b`
/// digits, as a wrapping two's-complement `u64`.
pub fn to_window(x: u64, q: u64, b: u64, delta: usize) -> (r: u64)
    requires
        x < q,
        b >= 2,
        b % 2 == 0,
        pow(b as int, delta as nat) <= u64::MAX,
        q <= pow(b as int, delta as nat),
    ensures
        r as int == (if x > spec_window_top(b as int, delta as nat) { x - q + two64() } else { x as int }),
        in_window(window_rep(x as int, q as int, b as int, delta as nat), b as int, delta as nat),
        (window_rep(x as int, q as int, b as int, delta as nat) - x) % (q as int) == 0,
{
    proof {
        lemma_window_size(b as int, delta as nat);
        if x > spec_window_top(b as int, delta as nat) {
            assert((x - q - x) % (q as int) == 0) by {
                lemma_mod_multiples_basic(-1, q as int);
            }
        } else {
            lemma_mod_multiples_basic(0, q as int);
            assert((x - x) % (q as int) == 0);
        }
    }
    if x > window_top(b, delta) {
        x.wrapping_sub(q)
    } else {
        x
    }
}

/// `k` is the rounded-up base-2 logarithm of `x`: the smallest `k` with `2^k >= x`.
pub open spec fn is_ceil_log2(x: nat, k: nat) -> bool {
    x <= pow2(k) && (k == 0 || pow2((k - 1) as nat) < x)
}

/// Integer base-2 logarithm rounded up: the smallest `k >= 0` with `2^k >= x`.
pub trait Logarithm {
    /// The smallest `k` with `2^k >=` `self`.
    fn log(&self) -> usize;
}

/// `ceil(log2(x))` for an integer below `2^64`, the search bounded by `bits`.
fn ceil_log2_u64(x: u64, bits: u64) -> (k: usize)
    requires
        1 <= bits <= 64,
        x as int <= pow2(bits as nat),
    ensures
        k <= bits,
        is_ceil_log2(x as nat, k as nat),
{
    let mut logx: u64 = 0;
    proof {
        lemma2_to64();
    }
    while logx < bits && x > (1u64 << logx)
        invariant
            0 <= logx <= bits,
            1 <= bits <= 64,
            x as int <= pow2(bits as nat),
            logx == 0 || pow2((logx - 1) as nat) < x,
        decreases bits - logx,
    {
        proof {
            lemma_shl_one(logx);
        }
        logx = logx + 1;
    }
    proof {
        if logx < bits {
            lemma_shl_one(logx);
        }
    }
    logx as usize
}

/// `ceil(log2(x))` for `usize`; at most 64.
impl Logarithm for usize {
    fn log(&self) -> (k: usize)
        ensures
            k <= 64,
            is_ceil_log2(*self as nat, k as nat),
    {
        proof {
            lemma2_to64();
        }
        ceil_log2_u64(*self as u64, 64)
    }
}

/// `ceil(log2(x))` for `u64`; at most 64.
impl Logarithm for u64 {
    fn log(&self) -> (k: usize)
        ensures
            k <= 64,
            is_ceil_log2(*self as nat, k as nat),
    {
        proof {
            lemma2_to64();
        }
        ceil_log2_u64(*self, 64)
    }
}

/// `ceil(log2(x))` for `u32`; at most 32.
impl Logarithm for u32 {
    fn log(&self) -> (k: usize)
        ensures
            k <= 32,
            is_ceil_log2(*self as nat, k as nat),
    {
        proof {
            lemma2_to64();
        }
        ceil_log2_u64(*self as u64, 32)
    }
}


/// `2^k` as a `usize`.
pub fn pow2_usize(k: usize) -> (r: usize)
    requires
        pow2(k as nat) <= usize::MAX,
    ensures
        r == pow2(k as nat),
{
    proof {
        lemma2_to64();
        if k >= 64 {
            if k > 64 {
                lemma_pow2_strictly_increases(64, k as nat);
            }
        }
        vstd::bits::lemma_u64_shl_is_mul(1, k as u64);
    }
    (1u64 << (k as u64)) as usize
}

/// `d` is a power of two below `2^64`.
pub open spec fn is_pow2(d: nat) -> bool {
    exists|k: nat| k < 64 && d == pow2(k)
}

/// A power of two is positive.
pub proof fn lemma_pow2_ge1(d: nat)
    requires
        is_pow2(d),
    ensures
        d >= 1,
{
    let e = choose|e: nat| e < 64 && d == pow2(e);
    lemma_pow2_pos(e);
}

/// The exponent of a power of two.
pub open spec fn exp2_of(d: nat) -> nat {
    choose|k: nat| k < 64 && d == pow2(k)
}

/// The rounded-up logarithm of a power of two is its exponent.
pub proof fn lemma_log_of_pow2(d: nat, k: nat)
    requires
        is_pow2(d),
        is_ceil_log2(d, k),
    ensures
        d == pow2(k),
        k == exp2_of(d),
        k < 64,
{
    let e = choose|e: nat| e < 64 && d == pow2(e);
    if e < k {
        if e < k - 1 {
            lemma_pow2_strictly_increases(e, (k - 1) as nat);
        }
    } else if e > k {
        lemma_pow2_strictly_increases(k, e);
    }
}


/// `x^i` in `F_{q^4}`.
pub open spec fn fpow(x: Fq4, i: nat) -> Fq4
    decreases i,
{
    if i == 0 {
        lift4(fq(1))
    } else {
        mul4(x, fpow(x, (i - 1) as nat))
    }
}

/// The powers `(1, x, x^2, ..., x^{l-1})`.
pub fn powers(x: Fq4, l: usize) -> (p: Vec<Fq4>)
    ensures
        p@.len() == l,
        forall|i: int| 0 <= i < l ==> #[trigger] p@[i] == fpow(x, i as nat),
{
    let mut p: Vec<Fq4> = Vec::with_capacity(l);
    if l == 0 {
        return p;
    }
    p.push(Fq4::one());
    let mut i: usize = 1;
    while i < l
        invariant
            1 <= i <= l,
            p@.len() == i,
            forall|j: int| 0 <= j < i ==> #[trigger] p@[j] == fpow(x, j as nat),
        decreases l - i,
    {
        let prev = p[i - 1];
        p.push(x.times(prev));
        i = i + 1;
    }
    p
}

/// Lift an integer coefficient, read as a signed `i64`, into `F_{q^4}` as the base-field
/// element `x mod q`.
pub fn lift_int(x: u64) -> (r: Fq4)
    ensures
        r == lift4(fq(signed(x))),
{
    proof {
        assert((x as i64) as int == signed(x)) by (bit_vector);
    }
    Fq4::new(Fq2::new(Fq::from_i64(x as i64), Fq::from_u64(0)), Fq2::zero())
}

/// `f * (x mod q)` for an unsigned integer `x`, by the base-field scalar multiplication.
pub fn mul_int_field(x: u64, f: Fq4) -> (r: Fq4)
    ensures
        r == scale4(fq(x as int), f),
{
    f.mul_by_base(Fq::from_u64(x))
}

/// The equality polynomial `eq(a, b) = a b + (1 - a)(1 - b)`.
pub open spec fn spec_eq(a: Fq4, b: Fq4) -> Fq4 {
    add4(mul4(a, b), mul4(sub4(lift4(fq(1)), a), sub4(lift4(fq(1)), b)))
}

/// The equality polynomial `eq(a, b) = a b + (1 - a)(1 - b)`.
pub fn eq(a: Fq4, b: Fq4) -> (r: Fq4)
    ensures
        r == spec_eq(a, b),
{
    let one = Fq4::one();
    a.times(b).plus(one.minus(a).times(one.minus(b)))
}

/// `eq(a, bin)` for a boolean second argument: `a` if `bin == 1`, `1 - a` otherwise.
pub open spec fn spec_eq_bin(a: Fq4, bin: nat) -> Fq4 {
    if bin == 1 {
        a
    } else {
        sub4(lift4(fq(1)), a)
    }
}

/// `eq(a, bin)` for a boolean second argument: `a` if `bin == 1`, `1 - a` otherwise.
pub fn eq_bin(a: Fq4, bin: usize) -> (r: Fq4)
    ensures
        r == spec_eq_bin(a, bin as nat),
{
    if bin == 1 {
        a
    } else {
        Fq4::one().minus(a)
    }
}

/// Sample a residue in `[0, q)` by rejection sampling: draw 64 random bits, keep the low
/// `logq` bits and accept the result if it is below `q`, otherwise draw again.
pub fn rand_int(q: u64, logq: usize, rng: &mut Prg) -> (r: u64)
    requires
        q >= 1,
        logq < 64,
    ensures
        r == draw_val(old(rng).seed(), old(rng).pos(), q, low_mask(logq as nat)),
        final(rng).pos() == draw_pos(old(rng).seed(), old(rng).pos(), q, low_mask(logq as nat)),
        final(rng).seed() == old(rng).seed(),
        r < q,
{
    proof {
        lemma_shl_one(logq as u64);
    }
    let mask: u64 = (1u64 << (logq as u64)) - 1;
    let ghost seed = rng.seed();
    let ghost p0 = rng.pos();
    let mut rnd = q;
    let mut tries: u64 = 0;
    while rnd >= q && tries < 0xffff_ffff_ffff_ffffu64
        invariant
            mask == low_mask(logq as nat),
            rng.seed() == seed,
            rng.pos() == p0 + tries,
            rnd >= q ==> first_accept(seed, p0, q, mask, max_tries())
                == first_accept(seed, (p0 + tries) as nat, q, mask, (max_tries() - tries) as nat),
            rnd < q ==> tries >= 1 && first_accept(seed, p0, q, mask, max_tries()) == Some((p0 + tries - 1) as nat)
                && rnd == chacha12_u64(seed, (p0 + tries - 1) as nat) & mask,
        decreases 0xffff_ffff_ffff_ffffu64 - tries,
    {
        rnd = rng.next_u64() & mask;
        tries = tries + 1;
    }
    if rnd >= q {
        0
    } else {
        rnd
    }
}


/// The rounded-up base-2 logarithm of `x`: the smallest `k` with `2^k >= x`.
pub open spec fn ceil_log2(x: nat) -> nat {
    choose|k: nat| is_ceil_log2(x, k)
}

/// The rounded-up logarithm is unique.
pub proof fn lemma_ceil_log2_unique(x: nat, k: nat)
    requires
        is_ceil_log2(x, k),
    ensures
        ceil_log2(x) == k,
{
    let k2 = ceil_log2(x);
    assert(is_ceil_log2(x, k2));
    if k2 < k {
        if k2 < k - 1 {
            lemma_pow2_strictly_increases(k2, (k - 1) as nat);
        }
    } else if k2 > k {
        if k < k2 - 1 {
            lemma_pow2_strictly_increases(k, (k2 - 1) as nat);
        }
    }
}

/// The element of `F_{q^4}` whose four coordinates are the residues `s[0..4]`.
pub open spec fn fq4_of(s: Seq<u64>) -> Fq4 {
    Fq4 { c0: Fq2 { c0: fq(s[0] as int), c1: fq(s[1] as int) }, c1: Fq2 { c0: fq(s[2] as int), c1: fq(s[3] as int) } }
}

/// Sample an element of `F_{q^4}` whose four coordinates are drawn in turn by [`rand_int`]
/// with `logq = ceil(log2(q))`.
pub fn rand_field(q: u64, rng: &mut Prg) -> (r: Fq4)
    requires
        1 <= q <= 0x8000_0000_0000_0000,
    ensures
        r == fq4_of(samples(old(rng).seed(), old(rng).pos(), q, low_mask(ceil_log2(q as nat)), 4)),
        final(rng).pos() == samples_end(old(rng).seed(), old(rng).pos(), q, low_mask(ceil_log2(q as nat)), 4),
        final(rng).seed() == old(rng).seed(),
{
    let logq = q.log();
    proof {
        lemma_ceil_log2_unique(q as nat, logq as nat);
        lemma2_to64();
        lemma_pow2_unfold(64);
        if logq == 64 {
            assert(pow2(63) < q);
        }
    }
    let ghost seed = rng.seed();
    let ghost p0 = rng.pos();
    let ghost mask = low_mask(logq as nat);
    let a = rand_int(q, logq, rng);
    let b = rand_int(q, logq, rng);
    let c = rand_int(q, logq, rng);
    let d = rand_int(q, logq, rng);
    proof {
        reveal_with_fuel(samples, 5);
        reveal_with_fuel(samples_end, 5);
        let s = samples(seed, p0, q, mask, 4);
        assert(s[0] == a && s[1] == b && s[2] == c && s[3] == d);
    }
    Fq4::new(Fq2::new(Fq::from_u64(a), Fq::from_u64(b)), Fq2::new(Fq::from_u64(c), Fq::from_u64(d)))
}

} // verus!
