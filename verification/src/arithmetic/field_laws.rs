//! `F_{q^4}` read over integer coordinates: every operation is the reduction of an integer
//! polynomial in the coordinates, so identities between elements come down to identities of
//! integer polynomials modulo `q`. On top of it: interpolation of a round message through the
//! nodes `0, 1, 2` is exact on polynomials of degree at most two.

use vstd::prelude::*;
use crate::arithmetic::field::{Fq, Fq2, Fq4, MODULUS, NONRESIDUE, fq, mul2, add4, sub4, mul4, scale4, lift4, lemma_fq, lemma_fq_ext};
use crate::arithmetic::sumcheck::{Univariate, fq4_canonical, finv, is_unit, node_units, lagrange_factor, lagrange_basis, lagrange_sum};

verus! {

/// The element `(x0 + x1 u) + (x2 + x3 u) v` for integer coordinates, each reduced modulo `q`.
pub open spec fn e4(x0: int, x1: int, x2: int, x3: int) -> Fq4 {
    Fq4 { c0: Fq2 { c0: fq(x0), c1: fq(x1) }, c1: Fq2 { c0: fq(x2), c1: fq(x3) } }
}

/// Reductions of congruent integers are equal.
pub proof fn lemma_fq_cong(x: int, y: int)
    requires
        x % (MODULUS as int) == y % (MODULUS as int),
    ensures
        fq(x) == fq(y),
{
    lemma_fq(x);
    lemma_fq(y);
    lemma_fq_ext(fq(x), fq(y));
}

/// `fq` of a sum of reductions is `fq` of the sum.
proof fn lemma_fq_add(x: int, y: int)
    ensures
        fq(fq(x).val() + fq(y).val()) == fq(x + y),
{
    lemma_fq(x);
    lemma_fq(y);
    vstd::arithmetic::div_mod::lemma_add_mod_noop(x, y, MODULUS as int);
    lemma_fq_cong(fq(x).val() + fq(y).val(), x + y);
}

/// `fq` of a difference of reductions is `fq` of the difference.
proof fn lemma_fq_sub(x: int, y: int)
    ensures
        fq(fq(x).val() - fq(y).val()) == fq(x - y),
{
    lemma_fq(x);
    lemma_fq(y);
    vstd::arithmetic::div_mod::lemma_sub_mod_noop(x, y, MODULUS as int);
    lemma_fq_cong(fq(x).val() - fq(y).val(), x - y);
}

/// `(x mod q) y` is congruent to `x y`.
proof fn lemma_mod_mul(x: int, y: int)
    ensures
        ((x % (MODULUS as int)) * y) % (MODULUS as int) == (x * y) % (MODULUS as int),
{
    vstd::arithmetic::div_mod::lemma_mul_mod_noop_left(x, y, MODULUS as int);
}

/// The product of two elements of `F_{q^2}` given by integer coordinates.
proof fn lemma_mul2_int(a0: int, a1: int, b0: int, b1: int)
    ensures
        mul2(Fq2 { c0: fq(a0), c1: fq(a1) }, Fq2 { c0: fq(b0), c1: fq(b1) })
            == (Fq2 { c0: fq(a0 * b0 + NONRESIDUE * (a1 * b1)), c1: fq(a0 * b1 + a1 * b0) }),
{
    let q = MODULUS as int;
    let nr = NONRESIDUE as int;
    lemma_fq(a0);
    lemma_fq(a1);
    lemma_fq(b0);
    lemma_fq(b1);
    let (x0, x1, y0, y1) = (a0 % q, a1 % q, b0 % q, b1 % q);
    // x0 y0 = a0 b0, x1 y1 = a1 b1, x0 y1 = a0 b1, x1 y0 = a1 b0 (mod q)
    vstd::arithmetic::div_mod::lemma_mul_mod_noop(a0, b0, q);
    vstd::arithmetic::div_mod::lemma_mul_mod_noop(a1, b1, q);
    vstd::arithmetic::div_mod::lemma_mul_mod_noop(a0, b1, q);
    vstd::arithmetic::div_mod::lemma_mul_mod_noop(a1, b0, q);
    vstd::arithmetic::div_mod::lemma_mul_mod_noop_right(nr, x1 * y1, q);
    vstd::arithmetic::div_mod::lemma_mul_mod_noop_right(nr, a1 * b1, q);
    vstd::arithmetic::div_mod::lemma_add_mod_noop(x0 * y0, nr * (x1 * y1), q);
    vstd::arithmetic::div_mod::lemma_add_mod_noop(a0 * b0, nr * (a1 * b1), q);
    vstd::arithmetic::div_mod::lemma_add_mod_noop(x0 * y1, x1 * y0, q);
    vstd::arithmetic::div_mod::lemma_add_mod_noop(a0 * b1, a1 * b0, q);
    lemma_fq_cong(x0 * y0 + nr * (x1 * y1), a0 * b0 + nr * (a1 * b1));
    lemma_fq_cong(x0 * y1 + x1 * y0, a0 * b1 + a1 * b0);
}

/// The product of two elements of `F_{q^4}` given by integer coordinates.
pub proof fn lemma_mul4_int(a0: int, a1: int, a2: int, a3: int, b0: int, b1: int, b2: int, b3: int)
    ensures
        mul4(e4(a0, a1, a2, a3), e4(b0, b1, b2, b3)) == e4(
            a0 * b0 + NONRESIDUE * (a1 * b1) + NONRESIDUE * (a2 * b3 + a3 * b2),
            a0 * b1 + a1 * b0 + (a2 * b2 + NONRESIDUE * (a3 * b3)),
            a0 * b2 + NONRESIDUE * (a1 * b3) + (a2 * b0 + NONRESIDUE * (a3 * b1)),
            a0 * b3 + a1 * b2 + (a2 * b1 + a3 * b0),
        ),
{
    let nr = NONRESIDUE as int;
    lemma_mul2_int(a0, a1, b0, b1);
    lemma_mul2_int(a2, a3, b2, b3);
    lemma_mul2_int(a0, a1, b2, b3);
    lemma_mul2_int(a2, a3, b0, b1);
    // mul_by_u of the product of the second halves
    let s0 = a2 * b2 + nr * (a3 * b3);
    let s1 = a2 * b3 + a3 * b2;
    lemma_fq(s1);
    lemma_mod_mul(s1, nr);
    assert(nr * (s1 % (MODULUS as int)) == (s1 % (MODULUS as int)) * nr) by (nonlinear_arith);
    assert(nr * s1 == s1 * nr) by (nonlinear_arith);
    lemma_fq_cong(nr * fq(s1).val(), nr * s1);
    lemma_fq_add(a0 * b0 + nr * (a1 * b1), nr * s1);
    lemma_fq_add(a0 * b1 + a1 * b0, s0);
    lemma_fq_add(a0 * b2 + nr * (a1 * b3), a2 * b0 + nr * (a3 * b1));
    lemma_fq_add(a0 * b3 + a1 * b2, a2 * b1 + a3 * b0);
}

/// Sums and differences of elements given by integer coordinates.
pub proof fn lemma_add4_int(a0: int, a1: int, a2: int, a3: int, b0: int, b1: int, b2: int, b3: int)
    ensures
        add4(e4(a0, a1, a2, a3), e4(b0, b1, b2, b3)) == e4(a0 + b0, a1 + b1, a2 + b2, a3 + b3),
        sub4(e4(a0, a1, a2, a3), e4(b0, b1, b2, b3)) == e4(a0 - b0, a1 - b1, a2 - b2, a3 - b3),
{
    lemma_fq_add(a0, b0);
    lemma_fq_add(a1, b1);
    lemma_fq_add(a2, b2);
    lemma_fq_add(a3, b3);
    lemma_fq_sub(a0, b0);
    lemma_fq_sub(a1, b1);
    lemma_fq_sub(a2, b2);
    lemma_fq_sub(a3, b3);
}

/// An element with residue coordinates is the element of its own coordinates.
pub proof fn lemma_e4_self(a: Fq4)
    requires
        fq4_canonical(a),
    ensures
        a == e4(a.c0.c0.val(), a.c0.c1.val(), a.c1.c0.val(), a.c1.c1.val()),
{
    crate::arithmetic::field::lemma_fq_self(a.c0.c0);
    crate::arithmetic::field::lemma_fq_self(a.c0.c1);
    crate::arithmetic::field::lemma_fq_self(a.c1.c0);
    crate::arithmetic::field::lemma_fq_self(a.c1.c1);
}

/// Elements whose integer coordinates are congruent are equal.
pub proof fn lemma_e4_cong(x0: int, x1: int, x2: int, x3: int, y0: int, y1: int, y2: int, y3: int)
    requires
        x0 % (MODULUS as int) == y0 % (MODULUS as int),
        x1 % (MODULUS as int) == y1 % (MODULUS as int),
        x2 % (MODULUS as int) == y2 % (MODULUS as int),
        x3 % (MODULUS as int) == y3 % (MODULUS as int),
    ensures
        e4(x0, x1, x2, x3) == e4(y0, y1, y2, y3),
{
    lemma_fq_cong(x0, y0);
    lemma_fq_cong(x1, y1);
    lemma_fq_cong(x2, y2);
    lemma_fq_cong(x3, y3);
}

/// Four integer coordinates.
pub type Coords = (int, int, int, int);

/// The element of the coordinates `x`.
pub open spec fn e4t(x: Coords) -> Fq4 {
    e4(x.0, x.1, x.2, x.3)
}

/// Coordinate-wise sum.
pub open spec fn tadd(a: Coords, b: Coords) -> Coords {
    (a.0 + b.0, a.1 + b.1, a.2 + b.2, a.3 + b.3)
}

/// Coordinate-wise difference.
pub open spec fn tsub(a: Coords, b: Coords) -> Coords {
    (a.0 - b.0, a.1 - b.1, a.2 - b.2, a.3 - b.3)
}

/// Coordinate-wise multiple.
pub open spec fn tscale(k: int, a: Coords) -> Coords {
    (k * a.0, k * a.1, k * a.2, k * a.3)
}

/// The coordinates of `1`.
pub open spec fn tone() -> Coords {
    (1, 0, 0, 0)
}

/// Coordinate-wise congruence modulo `q`.
pub open spec fn tcong(a: Coords, b: Coords) -> bool {
    let q = MODULUS as int;
    &&& a.0 % q == b.0 % q
    &&& a.1 % q == b.1 % q
    &&& a.2 % q == b.2 % q
    &&& a.3 % q == b.3 % q
}

/// The integer coordinates of the product of the elements of coordinates `a` and `b`.
#[verifier::opaque]
pub open spec fn bm(a: Coords, b: Coords) -> Coords {
    let nr = NONRESIDUE as int;
    (
        a.0 * b.0 + nr * (a.1 * b.1) + nr * (a.2 * b.3 + a.3 * b.2),
        a.0 * b.1 + a.1 * b.0 + (a.2 * b.2 + nr * (a.3 * b.3)),
        a.0 * b.2 + nr * (a.1 * b.3) + (a.2 * b.0 + nr * (a.3 * b.1)),
        a.0 * b.3 + a.1 * b.2 + (a.2 * b.1 + a.3 * b.0),
    )
}

/// Products, sums and differences of elements given by coordinates.
pub proof fn lemma_ops_t(a: Coords, b: Coords)
    ensures
        mul4(e4t(a), e4t(b)) == e4t(bm(a, b)),
        add4(e4t(a), e4t(b)) == e4t(tadd(a, b)),
        sub4(e4t(a), e4t(b)) == e4t(tsub(a, b)),
{
    reveal(bm);
    lemma_mul4_int(a.0, a.1, a.2, a.3, b.0, b.1, b.2, b.3);
    lemma_add4_int(a.0, a.1, a.2, a.3, b.0, b.1, b.2, b.3);
}

/// Scaling by a base-field element multiplies the coordinates.
pub proof fn lemma_scale4_t(x: Fq, a: Coords)
    ensures
        scale4(x, e4t(a)) == e4t(tscale(x.val(), a)),
{
    let q = MODULUS as int;
    lemma_fq(a.0);
    lemma_fq(a.1);
    lemma_fq(a.2);
    lemma_fq(a.3);
    vstd::arithmetic::div_mod::lemma_mul_mod_noop_right(x.val(), a.0, q);
    vstd::arithmetic::div_mod::lemma_mul_mod_noop_right(x.val(), a.1, q);
    vstd::arithmetic::div_mod::lemma_mul_mod_noop_right(x.val(), a.2, q);
    vstd::arithmetic::div_mod::lemma_mul_mod_noop_right(x.val(), a.3, q);
    lemma_fq_cong(x.val() * fq(a.0).val(), x.val() * a.0);
    lemma_fq_cong(x.val() * fq(a.1).val(), x.val() * a.1);
    lemma_fq_cong(x.val() * fq(a.2).val(), x.val() * a.2);
    lemma_fq_cong(x.val() * fq(a.3).val(), x.val() * a.3);
}

/// Congruent coordinates give equal elements.
pub proof fn lemma_e4t_cong(a: Coords, b: Coords)
    requires
        tcong(a, b),
    ensures
        e4t(a) == e4t(b),
{
    lemma_e4_cong(a.0, a.1, a.2, a.3, b.0, b.1, b.2, b.3);
}

/// `1` is neutral for the product of coordinates, on both sides.
proof fn lemma_bm_one(a: Coords)
    ensures
        bm(tone(), a) == a,
        bm(a, tone()) == a,
{
    reveal(bm);
}

/// `x (y + z) = x y + x z`.
proof fn lemma_dist(x: int, y: int, z: int)
    ensures
        x * (y + z) == x * y + x * z,
{
    vstd::arithmetic::mul::lemma_mul_is_distributive_add(x, y, z);
}

/// The product of coordinates distributes over sums in its second argument.
proof fn lemma_bm_add_right(x: Coords, a: Coords, b: Coords)
    ensures
        bm(x, tadd(a, b)) == tadd(bm(x, a), bm(x, b)),
{
    reveal(bm);
    let (x0, x1, x2, x3) = x;
    let (a0, a1, a2, a3) = a;
    let (b0, b1, b2, b3) = b;
    lemma_dist(x0, a0, b0);
    lemma_dist(x0, a1, b1);
    lemma_dist(x0, a2, b2);
    lemma_dist(x0, a3, b3);
    lemma_dist(x1, a0, b0);
    lemma_dist(x1, a1, b1);
    lemma_dist(x1, a2, b2);
    lemma_dist(x1, a3, b3);
    lemma_dist(x2, a0, b0);
    lemma_dist(x2, a1, b1);
    lemma_dist(x2, a2, b2);
    lemma_dist(x2, a3, b3);
    lemma_dist(x3, a0, b0);
    lemma_dist(x3, a1, b1);
    lemma_dist(x3, a2, b2);
    lemma_dist(x3, a3, b3);
}

/// Integer scalars pass through the second argument of the product of coordinates.
proof fn lemma_bm_scale_right(x: Coords, k: int, a: Coords)
    ensures
        bm(x, tscale(k, a)) == tscale(k, bm(x, a)),
{
    reveal(bm);
    let (x0, x1, x2, x3) = x;
    let (a0, a1, a2, a3) = a;
    let nr = NONRESIDUE as int;
    assert forall|u: int, v: int| #[trigger] (u * (k * v)) == k * (u * v) by {
        vstd::arithmetic::mul::lemma_mul_is_associative(u, k, v);
        vstd::arithmetic::mul::lemma_mul_is_commutative(u, k);
        vstd::arithmetic::mul::lemma_mul_is_associative(k, u, v);
    }
    assert forall|u: int, v: int| #[trigger] (k * (u + v)) == k * u + k * v by {
        lemma_dist(k, u, v);
    }
    assert forall|u: int| #[trigger] (k * (nr * u)) == nr * (k * u) by {
        vstd::arithmetic::mul::lemma_mul_is_associative(k, nr, u);
        vstd::arithmetic::mul::lemma_mul_is_commutative(k, nr);
        vstd::arithmetic::mul::lemma_mul_is_associative(nr, k, u);
    }
    assert(bm(x, tscale(k, a)).0 == k * bm(x, a).0);
    assert(bm(x, tscale(k, a)).1 == k * bm(x, a).1);
    assert(bm(x, tscale(k, a)).2 == k * bm(x, a).2);
    assert(bm(x, tscale(k, a)).3 == k * bm(x, a).3);
}

/// The product of coordinates is commutative.
proof fn lemma_bm_comm(a: Coords, b: Coords)
    ensures
        bm(a, b) == bm(b, a),
{
    reveal(bm);
    let (a0, a1, a2, a3) = a;
    let (b0, b1, b2, b3) = b;
    vstd::arithmetic::mul::lemma_mul_is_commutative(a0, b0);
    vstd::arithmetic::mul::lemma_mul_is_commutative(a0, b1);
    vstd::arithmetic::mul::lemma_mul_is_commutative(a0, b2);
    vstd::arithmetic::mul::lemma_mul_is_commutative(a0, b3);
    vstd::arithmetic::mul::lemma_mul_is_commutative(a1, b0);
    vstd::arithmetic::mul::lemma_mul_is_commutative(a1, b1);
    vstd::arithmetic::mul::lemma_mul_is_commutative(a1, b2);
    vstd::arithmetic::mul::lemma_mul_is_commutative(a1, b3);
    vstd::arithmetic::mul::lemma_mul_is_commutative(a2, b0);
    vstd::arithmetic::mul::lemma_mul_is_commutative(a2, b1);
    vstd::arithmetic::mul::lemma_mul_is_commutative(a2, b2);
    vstd::arithmetic::mul::lemma_mul_is_commutative(a2, b3);
    vstd::arithmetic::mul::lemma_mul_is_commutative(a3, b0);
    vstd::arithmetic::mul::lemma_mul_is_commutative(a3, b1);
    vstd::arithmetic::mul::lemma_mul_is_commutative(a3, b2);
    vstd::arithmetic::mul::lemma_mul_is_commutative(a3, b3);
}

/// The coordinates of an element.
pub open spec fn coords(a: Fq4) -> Coords {
    (a.c0.c0.val(), a.c0.c1.val(), a.c1.c0.val(), a.c1.c1.val())
}

/// `(r - i)(r - j) = r^2 - (i + j) r + i j` over coordinates.
proof fn lemma_bm_shift(r: Coords, i: int, j: int)
    ensures
        bm(tsub(r, tscale(i, tone())), tsub(r, tscale(j, tone())))
            == tadd(bm(r, r), tadd(tscale(-(i + j), r), tscale(i * j, tone()))),
{
    let e = tone();
    let di = tadd(r, tscale(-i, e));
    let dj = tadd(r, tscale(-j, e));
    assert(tsub(r, tscale(i, e)) == di);
    assert(tsub(r, tscale(j, e)) == dj);
    lemma_bm_add_right(di, r, tscale(-j, e));
    lemma_bm_scale_right(di, -j, e);
    lemma_bm_one(di);
    lemma_bm_comm(di, r);
    lemma_bm_add_right(r, r, tscale(-i, e));
    lemma_bm_scale_right(r, -i, e);
    lemma_bm_one(r);
    assert((-j) * (r.0 + (-i) * 1) == (-j) * r.0 + i * j) by (nonlinear_arith);
    assert((-j) * (r.1 + (-i) * 0) == (-j) * r.1) by (nonlinear_arith);
    assert((-j) * (r.2 + (-i) * 0) == (-j) * r.2) by (nonlinear_arith);
    assert((-j) * (r.3 + (-i) * 0) == (-j) * r.3) by (nonlinear_arith);
    assert((-(i + j)) * r.0 == (-i) * r.0 + (-j) * r.0) by (nonlinear_arith);
    assert((-(i + j)) * r.1 == (-i) * r.1 + (-j) * r.1) by (nonlinear_arith);
    assert((-(i + j)) * r.2 == (-i) * r.2 + (-j) * r.2) by (nonlinear_arith);
    assert((-(i + j)) * r.3 == (-i) * r.3 + (-j) * r.3) by (nonlinear_arith);
    assert((i * j) * 1 == i * j && (i * j) * 0 == 0 && (-i) * 1 == -i && (-i) * 0 == 0 && (-j) * 0 == 0);
}

/// A scalar on the left factor moves out of the product of coordinates.
proof fn lemma_bm_scale_left(k: int, a: Coords, b: Coords)
    ensures
        bm(tscale(k, a), b) == tscale(k, bm(a, b)),
{
    lemma_bm_comm(tscale(k, a), b);
    lemma_bm_scale_right(b, k, a);
    lemma_bm_comm(b, a);
}

/// `finv(k)` is the residue `w` whose product with `k` is `1` modulo `q`.
proof fn lemma_finv_val(k: int, w: int)
    requires
        0 <= w < MODULUS,
        ((k % (MODULUS as int)) * w) % (MODULUS as int) == 1,
    ensures
        finv(fq(k)).val() == w,
{
    lemma_fq(k);
    lemma_fq(w);
    vstd::arithmetic::div_mod::lemma_small_mod(w as nat, MODULUS as nat);
    vstd::arithmetic::div_mod::lemma_small_mod(1, MODULUS as nat);
    lemma_fq_cong(fq(k).val() * fq(w).val(), 1);
    crate::arithmetic::sumcheck::lemma_is_finv(fq(k), fq(w));
}

/// A factor of a Lagrange basis polynomial over coordinates.
proof fn lemma_factor_t(r: Fq4, i: int, j: int, v: int)
    requires
        fq4_canonical(r),
        finv(fq(i - j)).val() == v,
    ensures
        lagrange_factor(r, i, j) == e4t(tscale(v, tsub(coords(r), tscale(j, tone())))),
{
    lemma_e4_self(r);
    assert(lift4(fq(j)) == e4t(tscale(j, tone())));
    lemma_ops_t(coords(r), tscale(j, tone()));
    lemma_scale4_t(finv(fq(i - j)), tsub(coords(r), tscale(j, tone())));
}

/// The product of two scaled factors over coordinates.
proof fn lemma_factor_pair(v1: int, v2: int, r: Coords, i: int, j: int)
    ensures
        bm(tscale(v1, tsub(r, tscale(i, tone()))), tscale(v2, tsub(r, tscale(j, tone()))))
            == tscale(v1 * v2, tadd(bm(r, r), tadd(tscale(-(i + j), r), tscale(i * j, tone())))),
{
    let d1 = tsub(r, tscale(i, tone()));
    let d2 = tsub(r, tscale(j, tone()));
    lemma_bm_scale_left(v1, d1, tscale(v2, d2));
    lemma_bm_scale_right(d1, v2, d2);
    lemma_bm_shift(r, i, j);
    let m = bm(d1, d2);
    assert(v1 * (v2 * m.0) == (v1 * v2) * m.0) by (nonlinear_arith);
    assert(v1 * (v2 * m.1) == (v1 * v2) * m.1) by (nonlinear_arith);
    assert(v1 * (v2 * m.2) == (v1 * v2) * m.2) by (nonlinear_arith);
    assert(v1 * (v2 * m.3) == (v1 * v2) * m.3) by (nonlinear_arith);
}

/// `a + b x + c x^2` in `F_{q^4}`.
pub open spec fn quad(a: Fq4, b: Fq4, c: Fq4, x: Fq4) -> Fq4 {
    add4(a, add4(mul4(b, x), mul4(c, mul4(x, x))))
}

/// The coordinates of `a + b x + c x^2`.
proof fn lemma_quad_t(a: Coords, b: Coords, c: Coords, x: Coords)
    ensures
        quad(e4t(a), e4t(b), e4t(c), e4t(x)) == e4t(tadd(a, tadd(bm(b, x), bm(c, bm(x, x))))),
{
    lemma_ops_t(x, x);
    lemma_ops_t(b, x);
    lemma_ops_t(c, bm(x, x));
    lemma_ops_t(bm(b, x), bm(c, bm(x, x)));
    lemma_ops_t(a, tadd(bm(b, x), bm(c, bm(x, x))));
}

/// At a node `k`, `a + b k + c k^2`.
proof fn lemma_quad_node(a: Coords, b: Coords, c: Coords, k: int)
    ensures
        quad(e4t(a), e4t(b), e4t(c), lift4(fq(k))) == e4t(tadd(a, tadd(tscale(k, b), tscale(k * k, c)))),
{
    let e = tone();
    let ke = tscale(k, e);
    assert(lift4(fq(k)) == e4t(ke));
    lemma_quad_t(a, b, c, ke);
    lemma_bm_scale_right(b, k, e);
    lemma_bm_one(b);
    lemma_bm_scale_right(ke, k, e);
    lemma_bm_one(ke);
    assert(tscale(k, ke) == tscale(k * k, e)) by {
        assert(k * (k * 1) == (k * k) * 1) by (nonlinear_arith);
        assert(k * (k * 0) == (k * k) * 0) by (nonlinear_arith);
    }
    lemma_bm_scale_right(c, k * k, e);
    lemma_bm_one(c);
}

/// The product of a value `a + k b + k^2 c` at node `k` with a basis value `Q - s R + t`.
proof fn lemma_node_term(a: Coords, b: Coords, c: Coords, k: int, q2: Coords, r: Coords, s: int, t: int)
    ensures
        bm(tadd(a, tadd(tscale(k, b), tscale(k * k, c))), tadd(q2, tadd(tscale(-s, r), tscale(t, tone())))) == ({
            let m = tadd(q2, tadd(tscale(-s, r), tscale(t, tone())));
            tadd(
                tadd(bm(a, q2), tadd(tscale(-s, bm(a, r)), tscale(t, a))),
                tadd(
                    tscale(k, tadd(bm(b, q2), tadd(tscale(-s, bm(b, r)), tscale(t, b)))),
                    tscale(k * k, tadd(bm(c, q2), tadd(tscale(-s, bm(c, r)), tscale(t, c)))),
                ),
            )
        }),
{
    let e = tone();
    let m = tadd(q2, tadd(tscale(-s, r), tscale(t, e)));
    let p = tadd(a, tadd(tscale(k, b), tscale(k * k, c)));
    lemma_bm_comm(p, m);
    lemma_bm_add_right(m, a, tadd(tscale(k, b), tscale(k * k, c)));
    lemma_bm_add_right(m, tscale(k, b), tscale(k * k, c));
    lemma_bm_scale_right(m, k, b);
    lemma_bm_scale_right(m, k * k, c);
    lemma_bm_comm(m, a);
    lemma_bm_comm(m, b);
    lemma_bm_comm(m, c);
    lemma_expand_basis(a, q2, r, s, t);
    lemma_expand_basis(b, q2, r, s, t);
    lemma_expand_basis(c, q2, r, s, t);
}

/// `x (Q - s R + t) = x Q - s x R + t x` over coordinates.
proof fn lemma_expand_basis(x: Coords, q2: Coords, r: Coords, s: int, t: int)
    ensures
        bm(x, tadd(q2, tadd(tscale(-s, r), tscale(t, tone())))) == tadd(bm(x, q2), tadd(tscale(-s, bm(x, r)), tscale(t, x))),
{
    lemma_bm_add_right(x, q2, tadd(tscale(-s, r), tscale(t, tone())));
    lemma_bm_add_right(x, tscale(-s, r), tscale(t, tone()));
    lemma_bm_scale_right(x, -s, r);
    lemma_bm_scale_right(x, t, tone());
    lemma_bm_one(x);
}

/// The Lagrange basis polynomials of the nodes `0, 1, 2` at `r`, over coordinates:
/// `L_0 = (r - 1)(r - 2)/2`, `L_1 = -r (r - 2)`, `L_2 = r (r - 1)/2`.
proof fn lemma_basis3(r: Fq4)
    requires
        fq4_canonical(r),
    ensures
        lagrange_basis(r, 0, 3) == e4t(tscale((4294967197 - 1) * 2147483598int,
            tadd(bm(coords(r), coords(r)), tadd(tscale(-3, coords(r)), tscale(2, tone()))))),
        lagrange_basis(r, 1, 3) == e4t(tscale(1 * (4294967197int - 1),
            tadd(bm(coords(r), coords(r)), tadd(tscale(-2, coords(r)), tscale(0, tone()))))),
        lagrange_basis(r, 2, 3) == e4t(tscale(2147483599int * 1,
            tadd(bm(coords(r), coords(r)), tadd(tscale(-1, coords(r)), tscale(0, tone()))))),
{
    let q = MODULUS as int;
    let rr = coords(r);
    let e = tone();
    lemma_finv_val(-1, q - 1);
    lemma_finv_val(-2, 2147483598);
    lemma_finv_val(1, 1);
    lemma_finv_val(2, 2147483599);
    assert(lift4(fq(1)) == e4t(e));
    // node 0: factors for j = 1, 2
    lemma_factor_t(r, 0, 1, q - 1);
    lemma_factor_t(r, 0, 2, 2147483598);
    let f01 = tscale(q - 1, tsub(rr, tscale(1, e)));
    let f02 = tscale(2147483598, tsub(rr, tscale(2, e)));
    lemma_ops_t(e, f01);
    lemma_bm_one(f01);
    lemma_ops_t(f01, f02);
    lemma_factor_pair(q - 1, 2147483598, rr, 1, 2);
    assert(lagrange_basis(r, 0, 1) == lagrange_basis(r, 0, 0));
    assert(lagrange_basis(r, 0, 2) == mul4(lagrange_basis(r, 0, 1), lagrange_factor(r, 0, 1)));
    assert(lagrange_basis(r, 0, 3) == mul4(lagrange_basis(r, 0, 2), lagrange_factor(r, 0, 2)));
    // node 1: factors for j = 0, 2
    lemma_factor_t(r, 1, 0, 1);
    lemma_factor_t(r, 1, 2, q - 1);
    let f10 = tscale(1, tsub(rr, tscale(0, e)));
    let f12 = tscale(q - 1, tsub(rr, tscale(2, e)));
    lemma_ops_t(e, f10);
    lemma_bm_one(f10);
    lemma_ops_t(f10, f12);
    lemma_factor_pair(1, q - 1, rr, 0, 2);
    assert(lagrange_basis(r, 1, 1) == mul4(lagrange_basis(r, 1, 0), lagrange_factor(r, 1, 0)));
    assert(lagrange_basis(r, 1, 2) == lagrange_basis(r, 1, 1));
    assert(lagrange_basis(r, 1, 3) == mul4(lagrange_basis(r, 1, 2), lagrange_factor(r, 1, 2)));
    // node 2: factors for j = 0, 1
    lemma_factor_t(r, 2, 0, 2147483599);
    lemma_factor_t(r, 2, 1, 1);
    let f20 = tscale(2147483599, tsub(rr, tscale(0, e)));
    let f21 = tscale(1, tsub(rr, tscale(1, e)));
    lemma_ops_t(e, f20);
    lemma_bm_one(f20);
    lemma_ops_t(f20, f21);
    lemma_factor_pair(2147483599, 1, rr, 0, 1);
    assert(lagrange_basis(r, 2, 1) == mul4(lagrange_basis(r, 2, 0), lagrange_factor(r, 2, 0)));
    assert(lagrange_basis(r, 2, 2) == mul4(lagrange_basis(r, 2, 1), lagrange_factor(r, 2, 1)));
    assert(lagrange_basis(r, 2, 3) == lagrange_basis(r, 2, 2));
}

/// Interpolation through three nodes is exact on polynomials of degree at most two: for
/// `P(X) = a + b X + c X^2`, the Lagrange interpolation of `P(0), P(1), P(2)` at any `r` is
/// `P(r)`.
pub proof fn lemma_lagrange_quadratic(a: Fq4, b: Fq4, c: Fq4, r: Fq4)
    requires
        fq4_canonical(a),
        fq4_canonical(b),
        fq4_canonical(c),
        fq4_canonical(r),
    ensures
        lagrange_sum(seq![quad(a, b, c, lift4(fq(0))), quad(a, b, c, lift4(fq(1))), quad(a, b, c, lift4(fq(2)))], r, 3)
            == quad(a, b, c, r),
{
    let q = MODULUS as int;
    let (aa, bb, cc, rr) = (coords(a), coords(b), coords(c), coords(r));
    lemma_e4_self(a);
    lemma_e4_self(b);
    lemma_e4_self(c);
    lemma_e4_self(r);
    let e = tone();
    let qq = bm(rr, rr);
    let p0 = tadd(aa, tadd(tscale(0, bb), tscale(0int * 0, cc)));
    let p1 = tadd(aa, tadd(tscale(1, bb), tscale(1int * 1, cc)));
    let p2 = tadd(aa, tadd(tscale(2, bb), tscale(2int * 2, cc)));
    lemma_quad_node(aa, bb, cc, 0);
    lemma_quad_node(aa, bb, cc, 1);
    lemma_quad_node(aa, bb, cc, 2);
    let evals = seq![quad(a, b, c, lift4(fq(0))), quad(a, b, c, lift4(fq(1))), quad(a, b, c, lift4(fq(2)))];
    assert(evals[0] == e4t(p0) && evals[1] == e4t(p1) && evals[2] == e4t(p2));
    lemma_basis3(r);
    let m0 = tadd(qq, tadd(tscale(-3, rr), tscale(2, e)));
    let m1 = tadd(qq, tadd(tscale(-2, rr), tscale(0, e)));
    let m2 = tadd(qq, tadd(tscale(-1, rr), tscale(0, e)));
    let l0 = tscale(((4294967197 - 1) * 2147483598int), m0);
    let l1 = tscale((1 * (4294967197int - 1)), m1);
    let l2 = tscale((2147483599int * 1), m2);
    // the sum, over coordinates
    let z = (0int, 0int, 0int, 0int);
    assert(lift4(fq(0)) == e4t(z));
    assert(lagrange_sum(evals, r, 0) == e4t(z));
    assert(lagrange_sum(evals, r, 1) == add4(lagrange_sum(evals, r, 0), mul4(evals[0], lagrange_basis(r, 0, 3))));
    assert(lagrange_sum(evals, r, 2) == add4(lagrange_sum(evals, r, 1), mul4(evals[1], lagrange_basis(r, 1, 3))));
    assert(lagrange_sum(evals, r, 3) == add4(lagrange_sum(evals, r, 2), mul4(evals[2], lagrange_basis(r, 2, 3))));
    lemma_ops_t(p0, l0);
    lemma_ops_t(p1, l1);
    lemma_ops_t(p2, l2);
    let s1 = tadd(z, bm(p0, l0));
    let s2 = tadd(s1, bm(p1, l1));
    let s3 = tadd(s2, bm(p2, l2));
    lemma_ops_t(z, bm(p0, l0));
    lemma_ops_t(s1, bm(p1, l1));
    lemma_ops_t(s2, bm(p2, l2));
    assert(lagrange_sum(evals, r, 3) == e4t(s3));
    // expand each product
    lemma_bm_scale_right(p0, ((4294967197 - 1) * 2147483598int), m0);
    lemma_bm_scale_right(p1, (1 * (4294967197int - 1)), m1);
    lemma_bm_scale_right(p2, (2147483599int * 1), m2);
    lemma_node_term(aa, bb, cc, 0, qq, rr, 3, 2);
    lemma_node_term(aa, bb, cc, 1, qq, rr, 2, 0);
    lemma_node_term(aa, bb, cc, 2, qq, rr, 1, 0);
    // the value at r
    lemma_quad_t(aa, bb, cc, rr);
    let rhs = tadd(aa, tadd(bm(bb, rr), bm(cc, qq)));
    // the difference is a multiple of q
    let (aq, ar, bq, br, cq, cr) = (bm(aa, qq), bm(aa, rr), bm(bb, qq), bm(bb, rr), bm(cc, qq), bm(cc, rr));
    let kk = tadd(
        tadd(tscale(2147483599, aq), tadd(tscale(-6442450795, ar), tscale(4294967195, aa))),
        tadd(tadd(tscale(2, bq), tscale(-3, br)), tadd(tscale(3, cq), tscale(-4, cr))),
    );
    assert(bm(p0, m0).0 == aq.0 - 3 * ar.0 + 2 * aa.0);
    assert(bm(p1, m1).0 == aq.0 - 2 * ar.0 + bq.0 - 2 * br.0 + cq.0 - 2 * cr.0);
    assert(bm(p2, m2).0 == aq.0 - ar.0 + 2 * (bq.0 - br.0) + 4 * (cq.0 - cr.0));
    assert(s3.0 == 9223371607358051208int * bm(p0, m0).0 + 4294967196int * bm(p1, m1).0 + 2147483599int * bm(p2, m2).0);
    assert(s3.0 == 4294967197int * kk.0 + rhs.0);
    assert(bm(p0, m0).1 == aq.1 - 3 * ar.1 + 2 * aa.1);
    assert(bm(p1, m1).1 == aq.1 - 2 * ar.1 + bq.1 - 2 * br.1 + cq.1 - 2 * cr.1);
    assert(bm(p2, m2).1 == aq.1 - ar.1 + 2 * (bq.1 - br.1) + 4 * (cq.1 - cr.1));
    assert(s3.1 == 9223371607358051208int * bm(p0, m0).1 + 4294967196int * bm(p1, m1).1 + 2147483599int * bm(p2, m2).1);
    assert(s3.1 == 4294967197int * kk.1 + rhs.1);
    assert(bm(p0, m0).2 == aq.2 - 3 * ar.2 + 2 * aa.2);
    assert(bm(p1, m1).2 == aq.2 - 2 * ar.2 + bq.2 - 2 * br.2 + cq.2 - 2 * cr.2);
    assert(bm(p2, m2).2 == aq.2 - ar.2 + 2 * (bq.2 - br.2) + 4 * (cq.2 - cr.2));
    assert(s3.2 == 9223371607358051208int * bm(p0, m0).2 + 4294967196int * bm(p1, m1).2 + 2147483599int * bm(p2, m2).2);
    assert(s3.2 == 4294967197int * kk.2 + rhs.2);
    assert(bm(p0, m0).3 == aq.3 - 3 * ar.3 + 2 * aa.3);
    assert(bm(p1, m1).3 == aq.3 - 2 * ar.3 + bq.3 - 2 * br.3 + cq.3 - 2 * cr.3);
    assert(bm(p2, m2).3 == aq.3 - ar.3 + 2 * (bq.3 - br.3) + 4 * (cq.3 - cr.3));
    assert(s3.3 == 9223371607358051208int * bm(p0, m0).3 + 4294967196int * bm(p1, m1).3 + 2147483599int * bm(p2, m2).3);
    assert(s3.3 == 4294967197int * kk.3 + rhs.3);
    vstd::arithmetic::div_mod::lemma_mod_multiples_vanish(kk.0, rhs.0, q);
    vstd::arithmetic::div_mod::lemma_mod_multiples_vanish(kk.1, rhs.1, q);
    vstd::arithmetic::div_mod::lemma_mod_multiples_vanish(kk.2, rhs.2, q);
    vstd::arithmetic::div_mod::lemma_mod_multiples_vanish(kk.3, rhs.3, q);
    lemma_e4t_cong(s3, rhs);
}

/// A round message holding `P(0), P(1), P(2)` of a polynomial `P` of degree at most two is
/// interpolated exactly: its nodes are units, so [`Univariate::eval`] at `r` gives
/// the Lagrange sum, which is `P(r)`.
pub proof fn lemma_eval_quadratic_message(u: Univariate, a: Fq4, b: Fq4, c: Fq4, r: Fq4)
    requires
        u@ == seq![quad(a, b, c, lift4(fq(0))), quad(a, b, c, lift4(fq(1))), quad(a, b, c, lift4(fq(2)))],
        fq4_canonical(a),
        fq4_canonical(b),
        fq4_canonical(c),
        fq4_canonical(r),
    ensures
        node_units(u@.len()),
        lagrange_sum(u@, r, u@.len()) == quad(a, b, c, r),
{
    crate::arithmetic::sumcheck::lemma_node_units_20();
    assert forall|k: int| 0 < k < 3 implies is_unit(#[trigger] fq(k)) && is_unit(fq(-k)) by {
        assert(0 < k < 20);
    }
    lemma_lagrange_quadratic(a, b, c, r);
}

} // verus!
