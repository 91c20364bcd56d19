//! Vectors of polynomials in multi-prime NTT form: one flat residue vector per NTT prime (five
//! primes below `2^30`), each laid out as a `PVec` (NTT coefficient `j` of element `i` at
//! index `i * d + j`), where `d` is the transform length.

use vstd::prelude::*;
use vstd::arithmetic::power2::*;
use crate::arithmetic::utils::{Logarithm, is_pow2, lemma_log_of_pow2};
use crate::arithmetic::poly_vec::{flat, lemma_flat};

verus! {

/// A vector of `len` polynomials of transform length `d` in NTT form, one residue vector per
/// prime.
#[derive(Clone)]
pub struct PVecNtt {
    /// Number of elements.
    pub len: usize,
    /// Transform length of each element, a power of two.
    pub d: usize,
    /// `log2(d)`.
    pub logd: usize,
    /// Residues modulo the first prime.
    pub vec0: Vec<u32>,
    /// Residues modulo the second prime.
    pub vec1: Vec<u32>,
    /// Residues modulo the third prime.
    pub vec2: Vec<u32>,
    /// Residues modulo the fourth prime.
    pub vec3: Vec<u32>,
    /// Residues modulo the fifth prime.
    pub vec4: Vec<u32>,
}

/// `n` zeros.
pub fn zeros_u32(n: usize) -> (v: Vec<u32>)
    ensures
        v@ == Seq::new(n as nat, |k: int| 0u32),
{
    let mut v: Vec<u32> = Vec::with_capacity(n);
    let mut k: usize = 0;
    while k < n
        invariant
            0 <= k <= n,
            v@ == Seq::new(k as nat, |t: int| 0u32),
        decreases n - k,
    {
        v.push(0);
        k = k + 1;
    }
    v
}

/// The sub-slice `[i * d, i * d + d)` of a vector of `len * d` residues.
fn sub_elem(v: &Vec<u32>, i: usize, d: usize, len: Ghost<nat>) -> (s: &[u32])
    requires
        v@.len() == len@ * d,
        i < len@,
        d >= 1,
    ensures
        s@ == v@.subrange(i * d, i * d + d),
{
    proof {
        lemma_flat(i as int, 0, d as int, len@ as int);
    }
    let _n = v.len();
    vstd::slice::slice_subrange(v.as_slice(), i * d, i * d + d)
}

/// The mutable sub-slice `[i * d, i * d + d)` of a vector of `len * d` residues.
fn sub_elem_mut(v: &mut Vec<u32>, i: usize, d: usize, len: Ghost<nat>) -> (s: &mut [u32])
    requires
        old(v)@.len() == len@ * d,
        i < len@,
        d >= 1,
    ensures
        s@ == old(v)@.subrange(i * d, i * d + d),
        final(v)@ == old(v)@.subrange(0, i * d) + final(s)@ + old(v)@.subrange(i * d + d, old(v)@.len() as int),
{
    proof {
        lemma_flat(i as int, 0, d as int, len@ as int);
    }
    let _n = v.len();
    let s = v.as_mut_slice();
    let (_lo, rest) = s.split_at_mut(i * d);
    let (mid, _hi) = rest.split_at_mut(d);
    mid
}

impl PVecNtt {
    /// Well-formed: `d = 2^logd` and every residue vector holds `len * d` entries.
    pub open spec fn wf(&self) -> bool {
        &&& self.d as nat == pow2(self.logd as nat)
        &&& self.logd < 64
        &&& self.vec0@.len() == self.len * self.d
        &&& self.vec1@.len() == self.len * self.d
        &&& self.vec2@.len() == self.len * self.d
        &&& self.vec3@.len() == self.len * self.d
        &&& self.vec4@.len() == self.len * self.d
    }

    /// The zero vector of `len` elements of transform length `d` (a power of two).
    pub fn zero(len: usize, d: usize) -> (v: Self)
        requires
            is_pow2(d as nat),
            len * d <= usize::MAX,
        ensures
            v.wf(),
            v.len == len,
            v.d == d,
            v.vec0@ == Seq::new((len * d) as nat, |k: int| 0u32),
            v.vec1@ == Seq::new((len * d) as nat, |k: int| 0u32),
            v.vec2@ == Seq::new((len * d) as nat, |k: int| 0u32),
            v.vec3@ == Seq::new((len * d) as nat, |k: int| 0u32),
            v.vec4@ == Seq::new((len * d) as nat, |k: int| 0u32),
    {
        let logd = d.log();
        proof {
            lemma_log_of_pow2(d as nat, logd as nat);
            lemma2_to64();
        }
        let n = len * d;
        Self { len, d, logd, vec0: zeros_u32(n), vec1: zeros_u32(n), vec2: zeros_u32(n), vec3: zeros_u32(n), vec4: zeros_u32(n) }
    }

    /// Number of elements.
    pub fn length(&self) -> (n: usize)
        ensures
            n == self.len,
    {
        self.len
    }

    /// Element `i` as five slices of length `d`, one per prime.
    pub fn element(&self, i: usize) -> (e: (&[u32], &[u32], &[u32], &[u32], &[u32]))
        requires
            self.wf(),
            i < self.len,
        ensures
            e.0@ == self.vec0@.subrange(i * self.d, i * self.d + self.d),
            e.1@ == self.vec1@.subrange(i * self.d, i * self.d + self.d),
            e.2@ == self.vec2@.subrange(i * self.d, i * self.d + self.d),
            e.3@ == self.vec3@.subrange(i * self.d, i * self.d + self.d),
            e.4@ == self.vec4@.subrange(i * self.d, i * self.d + self.d),
    {
        proof {
            lemma_pow2_pos(self.logd as nat);
        }
        let g = Ghost(self.len as nat);
        (sub_elem(&self.vec0, i, self.d, g), sub_elem(&self.vec1, i, self.d, g), sub_elem(&self.vec2, i, self.d, g),
            sub_elem(&self.vec3, i, self.d, g), sub_elem(&self.vec4, i, self.d, g))
    }

    /// Element `i` as five mutable slices of length `d`, one per prime.
    pub fn mut_element(&mut self, i: usize) -> (e: (&mut [u32], &mut [u32], &mut [u32], &mut [u32], &mut [u32]))
        requires
            old(self).wf(),
            i < old(self).len,
        ensures
            e.0@ == old(self).vec0@.subrange(i * old(self).d, i * old(self).d + old(self).d),
            e.1@ == old(self).vec1@.subrange(i * old(self).d, i * old(self).d + old(self).d),
            e.2@ == old(self).vec2@.subrange(i * old(self).d, i * old(self).d + old(self).d),
            e.3@ == old(self).vec3@.subrange(i * old(self).d, i * old(self).d + old(self).d),
            e.4@ == old(self).vec4@.subrange(i * old(self).d, i * old(self).d + old(self).d),
            final(self).len == old(self).len,
            final(self).d == old(self).d,
            final(self).logd == old(self).logd,
            final(self).vec0@ == old(self).vec0@.subrange(0, i * old(self).d) + final(e.0)@
                + old(self).vec0@.subrange(i * old(self).d + old(self).d, old(self).vec0@.len() as int),
            final(self).vec1@ == old(self).vec1@.subrange(0, i * old(self).d) + final(e.1)@
                + old(self).vec1@.subrange(i * old(self).d + old(self).d, old(self).vec1@.len() as int),
            final(self).vec2@ == old(self).vec2@.subrange(0, i * old(self).d) + final(e.2)@
                + old(self).vec2@.subrange(i * old(self).d + old(self).d, old(self).vec2@.len() as int),
            final(self).vec3@ == old(self).vec3@.subrange(0, i * old(self).d) + final(e.3)@
                + old(self).vec3@.subrange(i * old(self).d + old(self).d, old(self).vec3@.len() as int),
            final(self).vec4@ == old(self).vec4@.subrange(0, i * old(self).d) + final(e.4)@
                + old(self).vec4@.subrange(i * old(self).d + old(self).d, old(self).vec4@.len() as int),
    {
        proof {
            lemma_pow2_pos(self.logd as nat);
        }
        let g = Ghost(self.len as nat);
        let d = self.d;
        (sub_elem_mut(&mut self.vec0, i, d, g), sub_elem_mut(&mut self.vec1, i, d, g), sub_elem_mut(&mut self.vec2, i, d, g),
            sub_elem_mut(&mut self.vec3, i, d, g), sub_elem_mut(&mut self.vec4, i, d, g))
    }
}

/// A copy of a residue vector.
fn copy_u32(v: &Vec<u32>) -> (c: Vec<u32>)
    ensures
        c@ == v@,
{
    let mut c: Vec<u32> = Vec::with_capacity(v.len());
    let mut i: usize = 0;
    while i < v.len()
        invariant
            0 <= i <= v@.len(),
            c@ == v@.take(i as int),
        decreases v@.len() - i,
    {
        c.push(v[i]);
        i = i + 1;
    }
    assert(c@ =~= v@);
    c
}

impl PVecNtt {
    /// The same vector: equal dimensions and residues.
    pub open spec fn same(&self, other: PVecNtt) -> bool {
        &&& self.len == other.len
        &&& self.d == other.d
        &&& self.logd == other.logd
        &&& self.vec0@ == other.vec0@
        &&& self.vec1@ == other.vec1@
        &&& self.vec2@ == other.vec2@
        &&& self.vec3@ == other.vec3@
        &&& self.vec4@ == other.vec4@
    }

    /// Deep copy.
    pub fn copy(&self) -> (c: Self)
        ensures
            c.same(*self),
    {
        PVecNtt {
            len: self.len,
            d: self.d,
            logd: self.logd,
            vec0: copy_u32(&self.vec0),
            vec1: copy_u32(&self.vec1),
            vec2: copy_u32(&self.vec2),
            vec3: copy_u32(&self.vec3),
            vec4: copy_u32(&self.vec4),
        }
    }
}

} // verus!
