//! Sumcheck helpers over `F_{q^4}`: the [`SumCheckPoly`] interface of the prover's polynomials,
//! the round message [`Univariate`], held as its evaluations at the nodes `0, 1, ..., D`, and the
//! fold of a multilinear evaluation table in its first (least significant) variable.

use vstd::prelude::*;
use crate::arithmetic::field::{
    Fq, Fq2, Fq4, MODULUS, fq, fmul, add4, sub4, mul4, scale4, lift4, lemma_fq, lemma_fq_ext,
    lemma_fq_subv, lemma_fq_self,
};
use crate::arithmetic::fs::Serialise;

verus! {

/// `a` has a multiplicative inverse modulo `q`.
pub open spec fn is_unit(a: Fq) -> bool {
    exists|c: int| #[trigger] ((a.val() * c) % (MODULUS as int)) == 1
}

/// The inverse of `a` in `F_q` (the element `b` with `a b = 1`, when `a` is a unit).
pub open spec fn finv(a: Fq) -> Fq {
    choose|b: Fq| fmul(a, b) == fq(1) && 0 <= b.val() < MODULUS
}

/// Every nonzero node difference `k` with `|k| < n` is invertible modulo `q`.
pub open spec fn node_units(n: nat) -> bool {
    forall|k: int| 0 < k < n ==> is_unit(#[trigger] fq(k)) && is_unit(fq(-k))
}

/// The node differences `k` and `-k` are units when `0 < k < n`.
pub proof fn lemma_node_unit(n: nat, k: int)
    requires
        node_units(n),
        0 < k < n,
    ensures
        is_unit(fq(k)),
        is_unit(fq(-k)),
{
    let fk = fq(k);
    assert(is_unit(fk));
}

/// An inverse in `F_q` is unique.
pub proof fn lemma_inverse_unique(a: Fq, b: Fq, c: Fq)
    requires
        fmul(a, b) == fq(1),
        fmul(a, c) == fq(1),
        0 <= b.val() < MODULUS,
        0 <= c.val() < MODULUS,
    ensures
        b == c,
{
    let q = MODULUS as int;
    lemma_fq(a.val() * b.val());
    lemma_fq(a.val() * c.val());
    lemma_fq(1);
    lemma_fq(b.val());
    lemma_fq(c.val());
    let (x, y, z) = (a.val(), b.val(), c.val());
    vstd::arithmetic::div_mod::lemma_small_mod(1, q as nat);
    assert((x * y) % q == 1);
    assert((x * z) % q == 1);
    // y = y (x z) = (x y) z = z  (mod q)
    vstd::arithmetic::div_mod::lemma_mul_mod_noop_right(y, x * z, q);
    vstd::arithmetic::div_mod::lemma_mul_mod_noop_left(x * y, z, q);
    vstd::arithmetic::mul::lemma_mul_is_associative(y, x, z);
    vstd::arithmetic::mul::lemma_mul_is_commutative(y, x);
    vstd::arithmetic::div_mod::lemma_small_mod(y as nat, q as nat);
    vstd::arithmetic::div_mod::lemma_small_mod(z as nat, q as nat);
    assert(y == (y * 1) % q);
    assert(z == (1 * z) % q);
    lemma_fq_ext(b, c);
}

/// An inverse that was found is the inverse [`finv`] names.
pub proof fn lemma_is_finv(a: Fq, b: Fq)
    requires
        fmul(a, b) == fq(1),
        0 <= b.val() < MODULUS,
    ensures
        finv(a) == b,
{
    let c = finv(a);
    assert(fmul(a, c) == fq(1) && 0 <= c.val() < MODULUS);
    lemma_inverse_unique(a, b, c);
}

proof fn lemma_unit_witness(k: int, w: int)
    requires
        0 < k < MODULUS,
        (k * w) % (MODULUS as int) == 1,
    ensures
        is_unit(fq(k)),
        is_unit(fq(-k)) <== ((MODULUS - k) * w) % (MODULUS as int) == 1,
{
    let q = MODULUS as int;
    lemma_fq(k);
    lemma_fq(-k);
    vstd::arithmetic::div_mod::lemma_small_mod(k as nat, q as nat);
    assert(((fq(k).val() * w) % q) == 1);
    vstd::arithmetic::div_mod::lemma_mod_add_multiples_vanish(-k, q);
    vstd::arithmetic::div_mod::lemma_small_mod((q - k) as nat, q as nat);
    assert(fq(-k).val() == q - k);
    if ((q - k) * w) % q == 1 {
        assert(((fq(-k).val() * w) % q) == 1);
    }
}

proof fn lemma_unit_pair(k: int, w: int, v: int)
    requires
        0 < k < MODULUS,
        (k * w) % (MODULUS as int) == 1,
        ((MODULUS - k) * v) % (MODULUS as int) == 1,
    ensures
        is_unit(fq(k)),
        is_unit(fq(-k)),
{
    lemma_unit_witness(k, w);
    let q = MODULUS as int;
    lemma_fq(-k);
    vstd::arithmetic::div_mod::lemma_mod_add_multiples_vanish(-k, q);
    vstd::arithmetic::div_mod::lemma_small_mod((q - k) as nat, q as nat);
    assert(((fq(-k).val() * v) % q) == 1);
}

/// The differences of the nodes `0, ..., 19` are all invertible: a round message with at most
/// twenty evaluations is interpolated exactly.
pub proof fn lemma_node_units_20()
    ensures
        node_units(20),
{
    assert forall|k: int| 0 < k < 20 implies is_unit(#[trigger] fq(k)) && is_unit(fq(-k)) by {
        if k == 1 {
            lemma_unit_pair(1, 1, 4294967196);
        } else if k == 2 {
            lemma_unit_pair(2, 2147483599, 2147483598);
        } else if k == 3 {
            lemma_unit_pair(3, 2863311465, 1431655732);
        } else if k == 4 {
            lemma_unit_pair(4, 3221225398, 1073741799);
        } else if k == 5 {
            lemma_unit_pair(5, 1717986879, 2576980318);
        } else if k == 6 {
            lemma_unit_pair(6, 3579139331, 715827866);
        } else if k == 7 {
            lemma_unit_pair(7, 1227133485, 3067833712);
        } else if k == 8 {
            lemma_unit_pair(8, 1610612699, 2684354498);
        } else if k == 9 {
            lemma_unit_pair(9, 954437155, 3340530042);
        } else if k == 10 {
            lemma_unit_pair(10, 3006477038, 1288490159);
        } else if k == 11 {
            lemma_unit_pair(11, 3123612507, 1171354690);
        } else if k == 12 {
            lemma_unit_pair(12, 3937053264, 357913933);
        } else if k == 13 {
            lemma_unit_pair(13, 3964585105, 330382092);
        } else if k == 14 {
            lemma_unit_pair(14, 2761050341, 1533916856);
        } else if k == 15 {
            lemma_unit_pair(15, 572662293, 3722304904);
        } else if k == 16 {
            lemma_unit_pair(16, 2952789948, 1342177249);
        } else if k == 17 {
            lemma_unit_pair(17, 1010580517, 3284386680);
        } else if k == 18 {
            lemma_unit_pair(18, 2624702176, 1670265021);
        } else {
            lemma_unit_pair(19, 2034458146, 2260509051);
        }
    }
}

/// A univariate polynomial `g` of degree at most `D`, held as its `D + 1` evaluations
/// `g(0), g(1), ..., g(D)`: the round message of the sumcheck protocol.
#[derive(Debug, Clone)]
pub struct Univariate {
    evals: Vec<Fq4>,
}

impl View for Univariate {
    type V = Seq<Fq4>;

    /// The evaluations `g(0), ..., g(D)`.
    closed spec fn view(&self) -> Seq<Fq4> {
        self.evals@
    }
}

/// The factor `(x - j) / (i - j)` of the Lagrange basis polynomial of node `i`.
pub open spec fn lagrange_factor(x: Fq4, i: int, j: int) -> Fq4 {
    scale4(finv(fq(i - j)), sub4(x, lift4(fq(j))))
}

/// `prod_{j < n, j != i} (x - j) / (i - j)`, the factors taken in increasing `j`.
pub open spec fn lagrange_basis(x: Fq4, i: int, n: nat) -> Fq4
    decreases n,
{
    if n == 0 {
        lift4(fq(1))
    } else {
        let prev = lagrange_basis(x, i, (n - 1) as nat);
        if n - 1 == i {
            prev
        } else {
            mul4(prev, lagrange_factor(x, i, n - 1))
        }
    }
}

/// `sum_{i < k} g(i) L_i(x)`, where `L_i` is the Lagrange basis polynomial of node `i` for the
/// nodes `0, ..., evals.len() - 1`.
pub open spec fn lagrange_sum(evals: Seq<Fq4>, x: Fq4, k: nat) -> Fq4
    decreases k,
{
    if k == 0 {
        lift4(fq(0))
    } else {
        add4(
            lagrange_sum(evals, x, (k - 1) as nat),
            mul4(evals[k - 1], lagrange_basis(x, k - 1, evals.len())),
        )
    }
}

/// Every coordinate of `a` is a residue, as every element the library computes is.
pub open spec fn fq4_canonical(a: Fq4) -> bool {
    &&& 0 <= a.c0.c0.val() < MODULUS
    &&& 0 <= a.c0.c1.val() < MODULUS
    &&& 0 <= a.c1.c0.val() < MODULUS
    &&& 0 <= a.c1.c1.val() < MODULUS
}

proof fn lemma_fq_small(x: int)
    requires
        0 <= x < MODULUS,
    ensures
        fq(x).val() == x,
{
    lemma_fq(x);
    vstd::arithmetic::div_mod::lemma_small_mod(x as nat, MODULUS as nat);
}

/// Products and differences of base-field elements stay in the base field.
pub(crate) proof fn lemma_lift4_ops(a: Fq, b: Fq, k: int, j: int)
    ensures
        mul4(lift4(a), lift4(b)) == lift4(fmul(a, b)),
        scale4(a, lift4(b)) == lift4(fmul(a, b)),
        sub4(lift4(fq(k)), lift4(fq(j))) == lift4(fq(k - j)),
{
    lemma_fq(0);
    lemma_fq_small(0);
    lemma_fq(a.val() * b.val());
    lemma_fq_self(fmul(a, b));
    lemma_fq(a.val() * 0);
    lemma_fq_subv(fq(k), fq(j), k, j);
    lemma_fq_subv(fq(0), fq(0), 0, 0);
    let z = fq(0);
    assert(fq(a.val() * z.val() + z.val() * b.val()) == z);
    assert(fq(a.val() * b.val() + crate::arithmetic::field::NONRESIDUE * (z.val() * z.val())) == fmul(a, b));
    assert(fq(z.val() * z.val() + crate::arithmetic::field::NONRESIDUE * (z.val() * z.val())) == z);
    assert(fq(crate::arithmetic::field::NONRESIDUE * z.val()) == z);
    assert(fq(a.val() * z.val()) == z);
    assert(fq(z.val() * b.val()) == z);
    assert(fq(z.val() * z.val()) == z);
    assert(fq(fmul(a, b).val() + z.val()) == fmul(a, b));
    assert(fq(z.val() + z.val()) == z);
}

/// Multiplying by the base-field `0` and `1`.
pub(crate) proof fn lemma_mul4_zero_one(e: Fq4)
    requires
        fq4_canonical(e),
    ensures
        mul4(e, lift4(fq(0))) == lift4(fq(0)),
        mul4(e, lift4(fq(1))) == e,
        add4(lift4(fq(0)), e) == e,
        add4(e, lift4(fq(0))) == e,
{
    lemma_fq(0);
    lemma_fq_small(0);
    lemma_fq_small(1);
    let z = fq(0);
    let nr = crate::arithmetic::field::NONRESIDUE;
    let (e00, e01, e10, e11) = (e.c0.c0, e.c0.c1, e.c1.c0, e.c1.c1);
    lemma_fq_self(e00);
    lemma_fq_self(e01);
    lemma_fq_self(e10);
    lemma_fq_self(e11);
    assert(fq(e00.val() * 0 + nr * (e01.val() * 0)) == z);
    assert(fq(e00.val() * 0 + e01.val() * 0) == z);
    assert(fq(e10.val() * 0 + nr * (e11.val() * 0)) == z);
    assert(fq(e10.val() * 0 + e11.val() * 0) == z);
    assert(fq(nr * 0) == z);
    assert(fq(0int + 0) == z);
    assert(fq(e00.val() * 1 + nr * (e01.val() * 0)) == e00);
    assert(fq(e00.val() * 0 + e01.val() * 1) == e01);
    assert(fq(e10.val() * 1 + nr * (e11.val() * 0)) == e10);
    assert(fq(e10.val() * 0 + e11.val() * 1) == e11);
    assert(fq(e00.val() + 0) == e00);
    assert(fq(e01.val() + 0) == e01);
    assert(fq(0 + e10.val()) == e10);
    assert(fq(0 + e11.val()) == e11);
    assert(fq(0 + e00.val()) == e00);
    assert(fq(0 + e01.val()) == e01);
    assert(fq(e10.val() + 0) == e10);
    assert(fq(e11.val() + 0) == e11);
}

/// A unit times its inverse is `1`.
proof fn lemma_finv_mul(a: Fq)
    requires
        is_unit(a),
    ensures
        fmul(finv(a), a) == fq(1),
{
    let c = choose|c: int| #[trigger] ((a.val() * c) % (MODULUS as int)) == 1;
    let b = fq(c);
    lemma_fq(c);
    vstd::arithmetic::div_mod::lemma_mul_mod_noop_right(a.val(), c, MODULUS as int);
    lemma_fq(a.val() * b.val());
    lemma_fq_small(1);
    lemma_fq_ext(fmul(a, b), fq(1));
    assert(fmul(a, b) == fq(1) && 0 <= b.val() < MODULUS);
    let v = finv(a);
    assert(fmul(a, v) == fq(1));
    assert(a.val() * v.val() == v.val() * a.val()) by (nonlinear_arith);
}

/// The Lagrange basis polynomial of node `i` for the first `n` nodes, at node `k`: `1` at its
/// own node, `0` at every other node among them, and always a base-field element.
proof fn lemma_basis_at_node(k: int, i: int, n: nat, nodes: nat)
    requires
        node_units(nodes),
        0 <= k < nodes,
        0 <= i < nodes,
        n <= nodes,
    ensures
        lagrange_basis(lift4(fq(k)), i, n) == lift4(lagrange_basis(lift4(fq(k)), i, n).c0.c0),
        i == k ==> lagrange_basis(lift4(fq(k)), i, n) == lift4(fq(1)),
        i != k && k < n ==> lagrange_basis(lift4(fq(k)), i, n) == lift4(fq(0)),
    decreases n,
{
    let x = lift4(fq(k));
    lemma_fq(0);
    lemma_fq_small(0);
    lemma_fq_small(1);
    if n > 0 {
        let j = n - 1;
        lemma_basis_at_node(k, i, (n - 1) as nat, nodes);
        let prev = lagrange_basis(x, i, (n - 1) as nat);
        if j != i {
            let c = finv(fq(i - j));
            lemma_lift4_ops(c, fq(k - j), k, j);
            assert(lagrange_factor(x, i, j) == lift4(fmul(c, fq(k - j))));
            lemma_lift4_ops(prev.c0.c0, fmul(c, fq(k - j)), k, j);
            if i == k {
                if i > j {
                    lemma_node_unit(nodes, i - j);
                } else {
                    lemma_node_unit(nodes, j - i);
                }
                lemma_finv_mul(fq(i - j));
                assert(fmul(fq(1), fq(1)) == fq(1));
            } else if k == j {
                lemma_fq(c.val() * 0);
                assert(fmul(c, fq(0)) == fq(0));
                lemma_fq(prev.c0.c0.val() * 0);
                assert(fmul(prev.c0.c0, fq(0)) == fq(0));
            } else if k < j {
                lemma_fq(0 * fmul(c, fq(k - j)).val());
                assert(fmul(fq(0), fmul(c, fq(k - j))) == fq(0));
            }
        }
    }
}

/// `sum_{i < m} g(i) L_i(k)` is `g(k)` once node `k` is among the first `m`, and `0` before.
proof fn lemma_sum_at_node(evals: Seq<Fq4>, k: int, m: nat)
    requires
        node_units(evals.len()),
        0 <= k < evals.len(),
        m <= evals.len(),
        forall|i: int| 0 <= i < evals.len() ==> fq4_canonical(#[trigger] evals[i]),
    ensures
        lagrange_sum(evals, lift4(fq(k)), m) == (if k < m { evals[k] } else { lift4(fq(0)) }),
    decreases m,
{
    lemma_fq(0);
    lemma_fq_small(0);
    if m > 0 {
        let i = m - 1;
        lemma_sum_at_node(evals, k, (m - 1) as nat);
        lemma_basis_at_node(k, i, evals.len(), evals.len());
        lemma_mul4_zero_one(evals[i]);
        lemma_mul4_zero_one(evals[k]);
        let z4 = lift4(fq(0));
        assert(add4(z4, z4) == z4) by {
            assert(fq(0int + 0) == fq(0));
        }
    }
}

/// Evaluating a round message at one of its nodes gives back the evaluation stored for it:
/// `g(k)` for `k = 0, ..., D`, whenever the node differences are invertible (for up to twenty
/// evaluations, [`lemma_node_units_20`]).
pub proof fn lemma_eval_at_node(evals: Seq<Fq4>, k: int)
    requires
        node_units(evals.len()),
        0 <= k < evals.len(),
        forall|i: int| 0 <= i < evals.len() ==> fq4_canonical(#[trigger] evals[i]),
    ensures
        lagrange_sum(evals, lift4(fq(k)), evals.len()) == evals[k],
{
    lemma_sum_at_node(evals, k, evals.len());
}

impl Univariate {
    /// Wrap the evaluations `g(0), ..., g(D)`, in this order.
    pub fn init(evals: Vec<Fq4>) -> (u: Self)
        ensures
            u@ == evals@,
    {
        Univariate { evals }
    }

    /// Number of evaluations held, `D + 1`.
    pub fn len(&self) -> (n: usize)
        ensures
            n == self@.len(),
    {
        self.evals.len()
    }

    /// `g(0) + g(1)`.
    pub fn binary_sum(&self) -> (s: Fq4)
        requires
            self@.len() >= 2,
        ensures
            s == add4(self@[0], self@[1]),
    {
        self.evals[0].plus(self.evals[1])
    }

    /// `g(x)` by Lagrange interpolation through the nodes `0, 1, ..., D`:
    /// `g(x) = sum_i g(i) prod_{j != i} (x - j) / (i - j)`. The value is exact whenever the node
    /// differences are invertible modulo `q`, which [`lemma_node_units_20`] shows for up to
    /// twenty evaluations.
    pub fn eval(&self, x: Fq4) -> (y: Fq4)
        ensures
            node_units(self@.len()) ==> y == lagrange_sum(self@, x, self@.len()),
    {
        let n = self.evals.len();
        let mut y = Fq4::zero();
        let mut i: usize = 0;
        while i < n
            invariant
                0 <= i <= n,
                n == self@.len(),
                node_units(n as nat) ==> y == lagrange_sum(self@, x, i as nat),
            decreases n - i,
        {
            let mut l_i = Fq4::one();
            let mut j: usize = 0;
            while j < n
                invariant
                    0 <= j <= n,
                    i < n,
                    n == self@.len(),
                    node_units(n as nat) ==> l_i == lagrange_basis(x, i as int, j as nat),
                decreases n - j,
            {
                if i != j {
                    let xj = Fq4::new(Fq2::new(Fq::from_u64(j as u64), Fq::zero()), Fq2::zero());
                    let diff = Fq::from_u64(i as u64).minus(Fq::from_u64(j as u64));
                    proof {
                        lemma_fq_subv(fq(i as int), fq(j as int), i as int, j as int);
                    }
                    match diff.inverse() {
                        Some(inv) => {
                            let iv = inv.value();
                            proof {
                                lemma_is_finv(diff, inv);
                            }
                            l_i = l_i.times(x.minus(xj).mul_by_base(inv));
                        },
                        None => {
                            proof {
                                if node_units(n as nat) {
                                    if i > j {
                                        lemma_node_unit(n as nat, i - j);
                                    } else {
                                        let k: int = j - i;
                                        assert(0 < k < n);
                                        lemma_node_unit(n as nat, k);
                                        assert(i - j == -k);
                                    }
                                }
                            }
                            l_i = Fq4::zero();
                        },
                    }
                }
                j = j + 1;
            }
            y = y.plus(self.evals[i].times(l_i));
            i = i + 1;
        }
        y
    }
}

/// The 8 little-endian bytes of `x`.
pub open spec fn u64_le(x: u64) -> Seq<u8> {
    seq![x as u8, (x >> 8u64) as u8, (x >> 16u64) as u8, (x >> 24u64) as u8,
        (x >> 32u64) as u8, (x >> 40u64) as u8, (x >> 48u64) as u8, (x >> 56u64) as u8]
}

/// The four coordinates of an element of `F_{q^4}`, each as its residue in 8 little-endian
/// bytes, in the order `c0.c0, c0.c1, c1.c0, c1.c1`.
pub open spec fn fq4_le(a: Fq4) -> Seq<u8> {
    u64_le(a.c0.c0.val() as u64) + u64_le(a.c0.c1.val() as u64) + u64_le(a.c1.c0.val() as u64)
        + u64_le(a.c1.c1.val() as u64)
}

/// The encodings of the first `n` elements of `s`, one after the other.
pub open spec fn fq4s_le(s: Seq<Fq4>, n: nat) -> Seq<u8>
    decreases n,
{
    if n == 0 {
        Seq::empty()
    } else {
        fq4s_le(s, (n - 1) as nat) + fq4_le(s[n - 1])
    }
}

/// The encodings of `n` elements take 32 bytes each.
pub proof fn lemma_fq4s_le_len(s: Seq<Fq4>, n: nat)
    ensures
        fq4s_le(s, n).len() == 32 * n,
    decreases n,
{
    if n > 0 {
        lemma_fq4s_le_len(s, (n - 1) as nat);
    }
}

fn push_u64_le(bytes: &mut Vec<u8>, x: u64)
    ensures
        final(bytes)@ == old(bytes)@ + u64_le(x),
{
    let ghost before = bytes@;
    bytes.push(x as u8);
    bytes.push((x >> 8u64) as u8);
    bytes.push((x >> 16u64) as u8);
    bytes.push((x >> 24u64) as u8);
    bytes.push((x >> 32u64) as u8);
    bytes.push((x >> 40u64) as u8);
    bytes.push((x >> 48u64) as u8);
    bytes.push((x >> 56u64) as u8);
    proof {
        assert(bytes@ =~= before + u64_le(x));
    }
}

/// Transcript encoding of a round message: every evaluation, in order, as its four coordinates.
impl Serialise for Univariate {
    open spec fn serialised(&self) -> Seq<u8> {
        fq4s_le(self@, self@.len())
    }

    fn serialise(&self) -> (b: Vec<u8>) {
        let mut bytes: Vec<u8> = Vec::new();
        let mut i: usize = 0;
        while i < self.evals.len()
            invariant
                0 <= i <= self@.len(),
                bytes@ == fq4s_le(self@, i as nat),
            decreases self@.len() - i,
        {
            let y = self.evals[i];
            let ghost before = bytes@;
            push_u64_le(&mut bytes, y.c0.c0.value());
            push_u64_le(&mut bytes, y.c0.c1.value());
            push_u64_le(&mut bytes, y.c1.c0.value());
            push_u64_le(&mut bytes, y.c1.c1.value());
            proof {
                assert(bytes@ =~= before + fq4_le(y));
            }
            i = i + 1;
        }
        bytes
    }
}

/// The value `p(r) = p(0) + r (p(1) - p(0))` of a linear function through `(0, p0)` and
/// `(1, p1)`.
pub open spec fn fold_pair(p0: Fq4, p1: Fq4, r: Fq4) -> Fq4 {
    add4(p0, mul4(sub4(p1, p0), r))
}

/// The table of a multilinear polynomial with its first variable fixed to `r`: entry `s` is
/// the interpolation of entries `2s` and `2s + 1`.
pub open spec fn fold_table(t: Seq<Fq4>, r: Fq4) -> Seq<Fq4> {
    Seq::new(t.len() / 2, |s: int| fold_pair(t[2 * s], t[2 * s + 1], r))
}

/// Fix the first variable of a multilinear evaluation table to `r`, least significant bit
/// first: `eval_table[2s] = p(0, s)` and `eval_table[2s + 1] = p(1, s)`, and the result holds
/// `p(r, s) = p(0, s) + r (p(1, s) - p(0, s))` at index `s`. A trailing odd entry is dropped.
pub fn fix_first_variable(eval_table: &Vec<Fq4>, r: Fq4) -> (t: Vec<Fq4>)
    ensures
        t@ == fold_table(eval_table@, r),
{
    let len = eval_table.len();
    let half = len / 2;
    let mut new_table: Vec<Fq4> = Vec::with_capacity(half);
    let mut s: usize = 0;
    while s < half
        invariant
            0 <= s <= half,
            len == eval_table@.len(),
            half == eval_table@.len() / 2,
            new_table@ == fold_table(eval_table@, r).take(s as int),
        decreases half - s,
    {
        assert(2 * s + 1 < eval_table@.len());
        let p_0 = eval_table[2 * s];
        let p_1 = eval_table[2 * s + 1];
        new_table.push(p_0.plus(p_1.minus(p_0).times(r)));
        proof {
            assert(new_table@ =~= fold_table(eval_table@, r).take(s + 1));
        }
        s = s + 1;
    }
    proof {
        assert(new_table@ =~= fold_table(eval_table@, r));
    }
    new_table
}

/// Prover-side interface of a polynomial over `F_{q^4}` to which the sumcheck protocol is
/// applied: it produces the message of the current round and absorbs the verifier's challenge
/// into its first remaining variable.
pub trait SumCheckPoly {
    /// The state is consistent.
    spec fn wf(&self) -> bool;

    /// Number of variables not yet fixed.
    fn num_vars(&self) -> usize
        requires
            self.wf(),
    ;

    /// Bound on the degree in each single variable.
    fn degree(&self) -> usize
        requires
            self.wf(),
    ;

    /// The round message for the first remaining variable: its evaluations at
    /// `0, ..., degree()` summed over the boolean values of the other variables.
    fn get_univariate(&self) -> Univariate
        requires
            self.wf(),
    ;

    /// Fix the first remaining variable to `r`.
    fn fix_first_variable(&mut self, r: Fq4)
        requires
            old(self).wf(),
    ;
}

} // verus!
