//! The prime field `F_q`, `q = 2^32 - 99`, and the tower `F_q ⊂ F_{q^2} ⊂ F_{q^4}` over it:
//! `F_{q^2} = F_q[u]/(u^2 - nu)` with `nu = 5 * 2^{-64} mod q = 3546053929`, and
//! `F_{q^4} = F_{q^2}[v]/(v^2 - u)`. An element of `F_{q^4}` is `(a0 + a1 u) + (a2 + a3 u) v`.

use vstd::prelude::*;

verus! {

/// The modulus `q = 4294967197 = 2^32 - 99`.
pub const MODULUS: u64 = 4294967197;
/// The quadratic non-residue `nu` with `u^2 = nu` in `F_{q^2}`.
pub const NONRESIDUE: u64 = 3546053929;

/// Configuration of the prime field `F_q`.
pub struct FqConfig;

/// Configuration of `F_{q^2} = F_q[u]/(u^2 - nu)`.
pub struct Fq2Config;

/// Configuration of `F_{q^4} = F_{q^2}[v]/(v^2 - u)`.
pub struct Fq4Config;

/// An element of `F_q`, held as its residue in `[0, q)`.
#[derive(Clone, Copy, PartialEq, Eq, Structural, Debug)]
pub struct Fq {
    v: u64,
}

/// An element `c0 + c1 u` of `F_{q^2}`.
#[derive(Clone, Copy, PartialEq, Eq, Structural, Debug)]
pub struct Fq2 {
    /// Coordinate of `1`.
    pub c0: Fq,
    /// Coordinate of `u`.
    pub c1: Fq,
}

/// An element `c0 + c1 v` of `F_{q^4}`.
#[derive(Clone, Copy, PartialEq, Eq, Structural, Debug)]
pub struct Fq4 {
    /// Coordinate of `1`.
    pub c0: Fq2,
    /// Coordinate of `v`.
    pub c1: Fq2,
}

impl Fq {
    #[verifier::type_invariant]
    spec fn inv(self) -> bool {
        self.v < MODULUS
    }

    /// The residue held, in `[0, q)`.
    pub closed spec fn val(self) -> int {
        self.v as int
    }
}

/// The element of `F_q` congruent to the integer `x`.
pub closed spec fn fq(x: int) -> Fq {
    Fq { v: (x % (MODULUS as int)) as u64 }
}

/// `fq(x)` holds `x mod q`.
pub proof fn lemma_fq(x: int)
    ensures
        fq(x).val() == x % (MODULUS as int),
        0 <= fq(x).val() < MODULUS,
{
}

/// Elements of `F_q` are equal when their residues are.
pub proof fn lemma_fq_ext(a: Fq, b: Fq)
    requires
        a.val() == b.val(),
    ensures
        a == b,
{
}

/// An element is the reduction of its own residue.
pub proof fn lemma_fq_self(a: Fq)
    requires
        0 <= a.val() < MODULUS,
    ensures
        fq(a.val()) == a,
{
    vstd::arithmetic::div_mod::lemma_small_mod(a.val() as nat, MODULUS as nat);
}

/// Sums of reductions reduce the sum.
pub proof fn lemma_fq_addv(a: Fq, b: Fq, x: int, y: int)
    requires
        a == fq(x),
        b == fq(y),
    ensures
        fadd(a, b) == fq(x + y),
{
    vstd::arithmetic::div_mod::lemma_add_mod_noop(x, y, MODULUS as int);
}

/// Differences of reductions reduce the difference.
pub proof fn lemma_fq_subv(a: Fq, b: Fq, x: int, y: int)
    requires
        a == fq(x),
        b == fq(y),
    ensures
        fsub(a, b) == fq(x - y),
{
    vstd::arithmetic::div_mod::lemma_sub_mod_noop(x, y, MODULUS as int);
}

/// Products of reductions reduce the product.
pub proof fn lemma_fq_mulv(a: Fq, b: Fq, x: int, y: int)
    requires
        a == fq(x),
        b == fq(y),
    ensures
        fmul(a, b) == fq(x * y),
{
    vstd::arithmetic::div_mod::lemma_mul_mod_noop(x, y, MODULUS as int);
}

/// `a + b` in `F_q`.
pub open spec fn fadd(a: Fq, b: Fq) -> Fq {
    fq(a.val() + b.val())
}

/// `a - b` in `F_q`.
pub open spec fn fsub(a: Fq, b: Fq) -> Fq {
    fq(a.val() - b.val())
}

/// `a * b` in `F_q`.
pub open spec fn fmul(a: Fq, b: Fq) -> Fq {
    fq(a.val() * b.val())
}

/// `-a` in `F_q`.
pub open spec fn fneg(a: Fq) -> Fq {
    fq(-a.val())
}

/// `a + b` in `F_{q^2}`.
pub open spec fn add2(a: Fq2, b: Fq2) -> Fq2 {
    Fq2 { c0: fadd(a.c0, b.c0), c1: fadd(a.c1, b.c1) }
}

/// `a - b` in `F_{q^2}`.
pub open spec fn sub2(a: Fq2, b: Fq2) -> Fq2 {
    Fq2 { c0: fsub(a.c0, b.c0), c1: fsub(a.c1, b.c1) }
}

/// `(a0 + a1 u)(b0 + b1 u) = a0 b0 + nu a1 b1 + (a0 b1 + a1 b0) u`.
pub open spec fn mul2(a: Fq2, b: Fq2) -> Fq2 {
    Fq2 {
        c0: fq(a.c0.val() * b.c0.val() + NONRESIDUE * (a.c1.val() * b.c1.val())),
        c1: fq(a.c0.val() * b.c1.val() + a.c1.val() * b.c0.val()),
    }
}

/// `(c0 + c1 u) u = nu c1 + c0 u`.
pub open spec fn mul_by_u(a: Fq2) -> Fq2 {
    Fq2 { c0: fq(NONRESIDUE * a.c1.val()), c1: a.c0 }
}

/// `-a` in `F_{q^2}`.
pub open spec fn neg2(a: Fq2) -> Fq2 {
    Fq2 { c0: fneg(a.c0), c1: fneg(a.c1) }
}

/// `a + b` in `F_{q^4}`.
pub open spec fn add4(a: Fq4, b: Fq4) -> Fq4 {
    Fq4 { c0: add2(a.c0, b.c0), c1: add2(a.c1, b.c1) }
}

/// `a - b` in `F_{q^4}`.
pub open spec fn sub4(a: Fq4, b: Fq4) -> Fq4 {
    Fq4 { c0: sub2(a.c0, b.c0), c1: sub2(a.c1, b.c1) }
}

/// `(A0 + A1 v)(B0 + B1 v) = A0 B0 + u A1 B1 + (A0 B1 + A1 B0) v`.
pub open spec fn mul4(a: Fq4, b: Fq4) -> Fq4 {
    Fq4 {
        c0: add2(mul2(a.c0, b.c0), mul_by_u(mul2(a.c1, b.c1))),
        c1: add2(mul2(a.c0, b.c1), mul2(a.c1, b.c0)),
    }
}

/// `-a` in `F_{q^4}`.
pub open spec fn neg4(a: Fq4) -> Fq4 {
    Fq4 { c0: neg2(a.c0), c1: neg2(a.c1) }
}

/// The base-field element `x` of `F_{q^4}`.
pub open spec fn lift4(x: Fq) -> Fq4 {
    Fq4 { c0: Fq2 { c0: x, c1: fq(0) }, c1: Fq2 { c0: fq(0), c1: fq(0) } }
}

/// `x a` for `x` in `F_q`, coordinate by coordinate.
pub open spec fn scale4(x: Fq, a: Fq4) -> Fq4 {
    Fq4 {
        c0: Fq2 { c0: fmul(x, a.c0.c0), c1: fmul(x, a.c0.c1) },
        c1: Fq2 { c0: fmul(x, a.c1.c0), c1: fmul(x, a.c1.c1) },
    }
}

impl FqConfig {
    /// The modulus `q`.
    pub fn modulus() -> (q: u64)
        ensures
            q == MODULUS,
    {
        MODULUS
    }
}

impl Fq2Config {
    /// The non-residue `nu = u^2`.
    pub fn nonresidue() -> (nu: Fq)
        ensures
            nu.val() == NONRESIDUE,
    {
        Fq { v: NONRESIDUE }
    }
}

impl Fq4Config {
    /// The non-residue `u = v^2`.
    pub fn nonresidue() -> (u: Fq2)
        ensures
            u.c0.val() == 0,
            u.c1.val() == 1,
    {
        Fq2 { c0: Fq { v: 0 }, c1: Fq { v: 1 } }
    }
}

impl Fq {
    /// The residue held, in `[0, q)`.
    pub fn value(&self) -> (r: u64)
        ensures
            r == self.val(),
            r < MODULUS,
    {
        proof {
            use_type_invariant(self);
        }
        self.v
    }

    /// The element `x mod q`.
    pub fn from_u64(x: u64) -> (r: Fq)
        ensures
            r == fq(x as int),
            r.val() == x % MODULUS,
    {
        Fq { v: x % MODULUS }
    }

    /// The element `x mod q` of a signed integer.
    pub fn from_i64(x: i64) -> (r: Fq)
        ensures
            r == fq(x as int),
            r.val() == (x as int) % (MODULUS as int),
    {
        let m = (x as i128) % (MODULUS as i128);
        let v: i128 = if m < 0 { m + MODULUS as i128 } else { m };
        proof {
            assert(v == (x as int) % (MODULUS as int));
        }
        Fq { v: v as u64 }
    }

    /// Zero.
    pub fn zero() -> (r: Fq)
        ensures
            r == fq(0),
            r.val() == 0,
    {
        Fq { v: 0 }
    }

    /// One.
    pub fn one() -> (r: Fq)
        ensures
            r == fq(1),
            r.val() == 1,
    {
        Fq { v: 1 }
    }

    /// `self + rhs`.
    pub fn plus(self, rhs: Fq) -> (r: Fq)
        ensures
            r == fadd(self, rhs),
    {
        proof {
            use_type_invariant(self);
            use_type_invariant(rhs);
        }
        let s = self.v + rhs.v;
        Fq { v: if s >= MODULUS { s - MODULUS } else { s } }
    }

    /// `self - rhs`.
    pub fn minus(self, rhs: Fq) -> (r: Fq)
        ensures
            r == fsub(self, rhs),
    {
        proof {
            use_type_invariant(self);
            use_type_invariant(rhs);
        }
        let s = self.v + (MODULUS - rhs.v);
        proof {
            vstd::arithmetic::div_mod::lemma_mod_add_multiples_vanish(self.v - rhs.v, MODULUS as int);
        }
        Fq { v: if s >= MODULUS { s - MODULUS } else { s } }
    }

    /// `self * rhs`.
    pub fn times(self, rhs: Fq) -> (r: Fq)
        ensures
            r == fmul(self, rhs),
    {
        proof {
            use_type_invariant(self);
            use_type_invariant(rhs);
            assert(self.v * rhs.v < 0x1_0000_0000 * 0x1_0000_0000) by (nonlinear_arith)
                requires
                    self.v < 0x1_0000_0000,
                    rhs.v < 0x1_0000_0000,
            ;
        }
        Fq { v: (self.v * rhs.v) % MODULUS }
    }

    /// The inverse of `self`, found by the extended Euclidean algorithm: `Some(r)` with
    /// `self * r = 1` whenever `self` has an inverse modulo `q`, `None` otherwise.
    pub fn inverse(self) -> (r: Option<Fq>)
        ensures
            r matches Some(inv) ==> fmul(self, inv) == fq(1),
            (exists|c: int| #[trigger] ((self.val() * c) % (MODULUS as int)) == 1) ==> r is Some,
    {
        proof {
            use_type_invariant(self);
        }
        let a = self.v;
        let qq = MODULUS;
        let mut r0: u64 = qq;
        let mut r1: u64 = a;
        let mut s0: u64 = 0;
        let mut s1: u64 = 1;
        let ghost mut x0: int = 1;
        let ghost mut y0: int = 0;
        let ghost mut x1: int = 0;
        let ghost mut y1: int = 1;
        proof {
            vstd::arithmetic::div_mod::lemma_mod_multiples_basic(0, qq as int);
            assert(0int * qq == 0);
            assert((r0 - s0 * a) == qq * 1) by (nonlinear_arith)
                requires
                    r0 == qq,
                    s0 == 0,
            ;
            vstd::arithmetic::div_mod::lemma_mod_multiples_basic(1, qq as int);
            assert((r1 - s1 * a) == 0);
        }
        while r1 != 0
            invariant
                qq == MODULUS,
                a < qq,
                r0 > 0,
                r0 <= qq,
                s0 < qq,
                s1 < qq,
                r1 < r0 || (r0 == qq && r1 == a),
                (r0 - s0 * a) % (qq as int) == 0,
                (r1 - s1 * a) % (qq as int) == 0,
                qq == x0 * r0 + y0 * r1,
                a == x1 * r0 + y1 * r1,
            decreases r1,
        {
            let t = r0 / r1;
            let r2 = r0 % r1;
            proof {
                assert(t <= r0);
                assert(t * s1 < 0x1_0000_0000 * 0x1_0000_0000) by (nonlinear_arith)
                    requires
                        t <= r0,
                        r0 <= qq,
                        r0 <= 0x1_0000_0000,
                        s1 < qq,
                        qq < 0x1_0000_0000,
                ;
            }
            let ts = (t * s1) % qq;
            let s2 = (s0 + (qq - ts)) % qq;
            proof {
                vstd::arithmetic::div_mod::lemma_fundamental_div_mod(r0 as int, r1 as int);
                assert(r0 == r1 * t + r2);
                let m0 = (r0 - s0 * a) / (qq as int);
                let m1 = (r1 - s1 * a) / (qq as int);
                vstd::arithmetic::div_mod::lemma_fundamental_div_mod(r0 - s0 * a, qq as int);
                vstd::arithmetic::div_mod::lemma_fundamental_div_mod(r1 - s1 * a, qq as int);
                let k1 = (t * s1) / (qq as int);
                vstd::arithmetic::div_mod::lemma_fundamental_div_mod(t * s1, qq as int);
                let k2 = (s0 + (qq - ts)) / (qq as int);
                vstd::arithmetic::div_mod::lemma_fundamental_div_mod(s0 + (qq - ts), qq as int);
                // s2 = s0 - t s1 + (k1 + 1 - k2) q
                let k = k1 + 1 - k2;
                assert(s2 == s0 - t * s1 + k * qq);
                assert(r2 - s2 * a == qq * (m0 - t * m1 - k * a)) by (nonlinear_arith)
                    requires
                        r0 == r1 * t + r2,
                        s2 == s0 - t * s1 + k * qq,
                        r0 - s0 * a == qq * m0,
                        r1 - s1 * a == qq * m1,
                ;
                vstd::arithmetic::div_mod::lemma_mod_multiples_basic(m0 - t * m1 - k * a, qq as int);
                assert(qq * (m0 - t * m1 - k * a) == (m0 - t * m1 - k * a) * qq) by (nonlinear_arith);
                // combinations
                assert(qq == (x0 * t + y0) * r1 + x0 * r2) by (nonlinear_arith)
                    requires
                        qq == x0 * r0 + y0 * r1,
                        r0 == r1 * t + r2,
                ;
                assert(a == (x1 * t + y1) * r1 + x1 * r2) by (nonlinear_arith)
                    requires
                        a == x1 * r0 + y1 * r1,
                        r0 == r1 * t + r2,
                ;
                let nx0 = x0 * t + y0;
                let nx1 = x1 * t + y1;
                y0 = x0;
                x0 = nx0;
                y1 = x1;
                x1 = nx1;
            }
            r0 = r1;
            r1 = r2;
            s0 = s1;
            s1 = s2;
        }
        proof {
            assert(qq == x0 * r0);
            assert(a == x1 * r0);
            if exists|c: int| #[trigger] ((a * c) % (qq as int)) == 1 {
                let c = choose|c: int| #[trigger] ((a * c) % (qq as int)) == 1;
                let k = (a * c) / (qq as int);
                vstd::arithmetic::div_mod::lemma_fundamental_div_mod(a * c, qq as int);
                assert(r0 * (x1 * c - x0 * k) == 1) by (nonlinear_arith)
                    requires
                        qq == x0 * r0,
                        a == x1 * r0,
                        a * c == qq * k + 1,
                ;
                assert(r0 == 1) by (nonlinear_arith)
                    requires
                        r0 > 0,
                        r0 * (x1 * c - x0 * k) == 1,
                ;
            }
        }
        if r0 == 1 {
            proof {
                let m0 = (r0 - s0 * a) / (qq as int);
                vstd::arithmetic::div_mod::lemma_fundamental_div_mod(r0 - s0 * a, qq as int);
                assert(a * s0 == 1 - qq * m0) by (nonlinear_arith)
                    requires
                        r0 == 1,
                        r0 - s0 * a == qq * m0,
                ;
                vstd::arithmetic::div_mod::lemma_mod_multiples_vanish(-m0, 1, qq as int);
                assert(qq * (-m0) + 1 == a * s0) by (nonlinear_arith)
                    requires
                        a * s0 == 1 - qq * m0,
                ;
            }
            Some(Fq { v: s0 })
        } else {
            None
        }
    }

    /// `-self`.
    pub fn negate(self) -> (r: Fq)
        ensures
            r == fneg(self),
    {
        proof {
            use_type_invariant(self);
            if self.v > 0 {
                vstd::arithmetic::div_mod::lemma_mod_add_multiples_vanish(-self.v, MODULUS as int);
            }
        }
        Fq { v: if self.v == 0 { 0 } else { MODULUS - self.v } }
    }
}


impl Fq2 {
    /// The element `c0 + c1 u`.
    pub fn new(c0: Fq, c1: Fq) -> (r: Fq2)
        ensures
            r == (Fq2 { c0, c1 }),
    {
        Fq2 { c0, c1 }
    }

    /// Zero.
    pub fn zero() -> (r: Fq2)
        ensures
            r == (Fq2 { c0: fq(0), c1: fq(0) }),
    {
        Fq2 { c0: Fq::zero(), c1: Fq::zero() }
    }

    /// `self + rhs`.
    pub fn plus(self, rhs: Fq2) -> (r: Fq2)
        ensures
            r == add2(self, rhs),
    {
        Fq2 { c0: self.c0.plus(rhs.c0), c1: self.c1.plus(rhs.c1) }
    }

    /// `self - rhs`.
    pub fn minus(self, rhs: Fq2) -> (r: Fq2)
        ensures
            r == sub2(self, rhs),
    {
        Fq2 { c0: self.c0.minus(rhs.c0), c1: self.c1.minus(rhs.c1) }
    }

    /// `-self`.
    pub fn negate(self) -> (r: Fq2)
        ensures
            r == neg2(self),
    {
        Fq2 { c0: self.c0.negate(), c1: self.c1.negate() }
    }

    /// `self * rhs`.
    pub fn times(self, rhs: Fq2) -> (r: Fq2)
        ensures
            r == mul2(self, rhs),
    {
        let nu = Fq { v: NONRESIDUE };
        let t00 = self.c0.times(rhs.c0);
        let t11 = self.c1.times(rhs.c1);
        let t11n = nu.times(t11);
        let c0 = t00.plus(t11n);
        let t01 = self.c0.times(rhs.c1);
        let t10 = self.c1.times(rhs.c0);
        let c1 = t01.plus(t10);
        proof {
            let (a0, a1, b0, b1) = (self.c0.val(), self.c1.val(), rhs.c0.val(), rhs.c1.val());
            lemma_fq_self(nu);
            lemma_fq_mulv(nu, t11, NONRESIDUE as int, a1 * b1);
            lemma_fq_addv(t00, t11n, a0 * b0, NONRESIDUE * (a1 * b1));
            lemma_fq_addv(t01, t10, a0 * b1, a1 * b0);
        }
        Fq2 { c0, c1 }
    }

    /// `self * u`.
    pub fn times_u(self) -> (r: Fq2)
        ensures
            r == mul_by_u(self),
    {
        let nu = Fq { v: NONRESIDUE };
        proof {
            use_type_invariant(self.c1);
            lemma_fq_self(nu);
            lemma_fq_self(self.c1);
            lemma_fq_mulv(nu, self.c1, NONRESIDUE as int, self.c1.val());
        }
        Fq2 { c0: nu.times(self.c1), c1: self.c0 }
    }
}

impl Fq4 {
    /// The element `c0 + c1 v`.
    pub fn new(c0: Fq2, c1: Fq2) -> (r: Fq4)
        ensures
            r == (Fq4 { c0, c1 }),
    {
        Fq4 { c0, c1 }
    }

    /// Zero.
    pub fn zero() -> (r: Fq4)
        ensures
            r == lift4(fq(0)),
    {
        Fq4 { c0: Fq2::zero(), c1: Fq2::zero() }
    }

    /// One.
    pub fn one() -> (r: Fq4)
        ensures
            r == lift4(fq(1)),
    {
        Fq4 { c0: Fq2 { c0: Fq::one(), c1: Fq::zero() }, c1: Fq2::zero() }
    }

    /// `self + rhs`.
    pub fn plus(self, rhs: Fq4) -> (r: Fq4)
        ensures
            r == add4(self, rhs),
    {
        Fq4 { c0: self.c0.plus(rhs.c0), c1: self.c1.plus(rhs.c1) }
    }

    /// `self - rhs`.
    pub fn minus(self, rhs: Fq4) -> (r: Fq4)
        ensures
            r == sub4(self, rhs),
    {
        Fq4 { c0: self.c0.minus(rhs.c0), c1: self.c1.minus(rhs.c1) }
    }

    /// `-self`.
    pub fn negate(self) -> (r: Fq4)
        ensures
            r == neg4(self),
    {
        Fq4 { c0: self.c0.negate(), c1: self.c1.negate() }
    }

    /// `self * rhs`.
    pub fn times(self, rhs: Fq4) -> (r: Fq4)
        ensures
            r == mul4(self, rhs),
    {
        let c0 = self.c0.times(rhs.c0).plus(self.c1.times(rhs.c1).times_u());
        let c1 = self.c0.times(rhs.c1).plus(self.c1.times(rhs.c0));
        Fq4 { c0, c1 }
    }

    /// `x * self` for `x` in the base field, coordinate by coordinate.
    pub fn mul_by_base(self, x: Fq) -> (r: Fq4)
        ensures
            r == scale4(x, self),
    {
        Fq4 {
            c0: Fq2 { c0: x.times(self.c0.c0), c1: x.times(self.c0.c1) },
            c1: Fq2 { c0: x.times(self.c1.c0), c1: x.times(self.c1.c1) },
        }
    }
}

} // verus!
