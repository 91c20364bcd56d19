//! Operations on a single polynomial over `Z_q` given as a slice of `u64` coefficients, the
//! coefficient of `X^j` at index `j`: evaluation at a point of `F_{q^4}` and division by
//! `X^d + 1`.

use vstd::prelude::*;
use crate::arithmetic::utils::{signed, mul_int_field};
use crate::arithmetic::field::{Fq4, fq, add4, scale4, lift4};

verus! {

/// `sum_{j < n} p_j alpha^j`, given the powers `pows[j] = alpha^j`; each coefficient is read as
/// an unsigned integer and reduced modulo `q`.
pub open spec fn poly_eval(p: Seq<u64>, pows: Seq<Fq4>, n: nat) -> Fq4
    decreases n,
{
    if n == 0 {
        lift4(fq(0))
    } else {
        add4(poly_eval(p, pows, (n - 1) as nat), scale4(fq(p[n - 1] as int), pows[n - 1]))
    }
}

/// Remainder coefficient of the division by `X^d + 1`: `a - b`, brought back into `[0, q)` by
/// adding `q` when the wrapping difference is negative as a signed integer.
pub open spec fn cdiv_rem(a: u64, b: u64, q: u64) -> u64 {
    let t = a.wrapping_sub(b);
    if signed(t) < 0 {
        t.wrapping_add(q)
    } else {
        t
    }
}

/// A polynomial over `Z_q` held as its coefficients, that of `X^j` at index `j`.
pub trait Poly {
    /// The coefficients.
    spec fn coeffs(&self) -> Seq<u64>;

    /// Evaluate the polynomial at `alpha`, given `alpha_pows[j] = alpha^j` for at least as many
    /// `j` as it has coefficients.
    fn eval(&self, alpha_pows: &[Fq4]) -> (r: Fq4)
        requires
            self.coeffs().len() <= alpha_pows@.len(),
        ensures
            r == poly_eval(self.coeffs(), alpha_pows@, self.coeffs().len()),
    ;

    /// Divide `p = p_lo + X^d p_hi` (of `2d` coefficients) by `X^d + 1` over `Z_q`: the
    /// quotient is `p_hi` and the remainder `p_lo - p_hi mod q`.
    fn cyclotomic_div(&self, q: u64, quotient: &mut [u64], remainder: &mut [u64])
        requires
            old(quotient)@.len() == self.coeffs().len() / 2,
            old(remainder)@.len() == self.coeffs().len() / 2,
        ensures
            final(quotient)@.len() == self.coeffs().len() / 2,
            final(remainder)@.len() == self.coeffs().len() / 2,
            forall|i: int| 0 <= i < self.coeffs().len() / 2 ==> #[trigger] final(quotient)@[i]
                == self.coeffs()[i + self.coeffs().len() / 2],
            forall|i: int| 0 <= i < self.coeffs().len() / 2 ==> #[trigger] final(remainder)@[i]
                == cdiv_rem(self.coeffs()[i], self.coeffs()[i + self.coeffs().len() / 2], q),
            // on residues the remainder is the difference modulo q: p = (X^d + 1) quo + rem
            0 < q < 0x8000_0000_0000_0000 && (forall|i: int| 0 <= i < self.coeffs().len() ==> #[trigger] self.coeffs()[i] < q)
                ==> forall|i: int| 0 <= i < self.coeffs().len() / 2 ==> #[trigger] final(remainder)@[i] as int
                    == (self.coeffs()[i] - self.coeffs()[i + self.coeffs().len() / 2]) % (q as int),
    ;
}

impl Poly for &[u64] {
    open spec fn coeffs(&self) -> Seq<u64> {
        (*self)@
    }

    fn eval(&self, alpha_pows: &[Fq4]) -> (r: Fq4) {
        let p: &[u64] = *self;
        let mut out = Fq4::zero();
        let mut i: usize = 0;
        while i < p.len()
            invariant
                0 <= i <= p@.len(),
                p@.len() <= alpha_pows@.len(),
                out == poly_eval(p@, alpha_pows@, i as nat),
            decreases p@.len() - i,
        {
            out = out.plus(mul_int_field(p[i], alpha_pows[i]));
            i = i + 1;
        }
        out
    }

    fn cyclotomic_div(&self, q: u64, quotient: &mut [u64], remainder: &mut [u64]) {
        let p: &[u64] = *self;
        let d = p.len() / 2;
        let mut i: usize = 0;
        while i < d
            invariant
                d == p@.len() / 2,
                0 <= i <= d,
                quotient@.len() == d,
                remainder@.len() == d,
                forall|j: int| 0 <= j < i ==> #[trigger] quotient@[j] == p@[j + d],
                forall|j: int| 0 <= j < i ==> #[trigger] remainder@[j] == cdiv_rem(p@[j], p@[j + d], q),
            decreases d - i,
        {
            let t = p[i].wrapping_sub(p[i + d]);
            remainder[i] = t;
            quotient[i] = p[i + d];
            if (t as i64) < 0 {
                remainder[i] = t.wrapping_add(q);
            }
            proof {
                assert((t as i64) < 0 <==> t >= 0x8000_0000_0000_0000u64) by (bit_vector);
            }
            i = i + 1;
        }
        proof {
            if 0 < q < 0x8000_0000_0000_0000 && (forall|i: int| 0 <= i < p@.len() ==> #[trigger] p@[i] < q) {
                assert forall|i: int| 0 <= i < d implies #[trigger] remainder@[i] as int == (p@[i] - p@[i + d]) % (q as int) by {
                    let a = p@[i];
                    let b = p@[i + d];
                    assert(a < q && b < q);
                    if a >= b {
                        assert(signed(a.wrapping_sub(b)) == a - b);
                        vstd::arithmetic::div_mod::lemma_small_mod((a - b) as nat, q as nat);
                    } else {
                        assert(signed(a.wrapping_sub(b)) == a - b);
                        assert(remainder@[i] as int == a - b + q);
                        vstd::arithmetic::div_mod::lemma_mod_add_multiples_vanish(a - b, q as int);
                        vstd::arithmetic::div_mod::lemma_small_mod((a - b + q) as nat, q as nat);
                    }
                }
            }
        }
    }
}

} // verus!
