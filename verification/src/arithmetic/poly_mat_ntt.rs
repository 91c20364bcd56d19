//! Matrices of polynomials in multi-prime NTT form, stored row-major in a `PVecNtt`: entry
//! `(row, col)` is element `row * width + col`.

use vstd::prelude::*;
use crate::arithmetic::utils::{is_pow2, lemma_pow2_ge1};
use crate::arithmetic::poly_vec::lemma_flat;
use crate::arithmetic::poly_vec_ntt::PVecNtt;

verus! {

/// A `height` by `width` matrix of polynomials in NTT form, row-major.
#[derive(Clone)]
pub struct PMatNtt {
    /// Number of rows.
    pub height: usize,
    /// Number of columns.
    pub width: usize,
    /// The `height * width` entries, row after row.
    pub vec: PVecNtt,
}

impl PMatNtt {
    /// Well-formed: the entries form a well-formed vector of `height * width` elements.
    pub open spec fn wf(&self) -> bool {
        &&& self.vec.wf()
        &&& self.vec.len == self.height * self.width
    }

    /// The zero matrix of `height * width` entries of transform length `d` (a power of two).
    pub fn zero(height: usize, width: usize, d: usize) -> (m: Self)
        requires
            is_pow2(d as nat),
            height * width * d <= usize::MAX,
        ensures
            m.wf(),
            m.height == height,
            m.width == width,
            m.vec.d == d,
            m.vec.vec0@ == Seq::new((height * width * d) as nat, |k: int| 0u32),
            m.vec.vec1@ == Seq::new((height * width * d) as nat, |k: int| 0u32),
            m.vec.vec2@ == Seq::new((height * width * d) as nat, |k: int| 0u32),
            m.vec.vec3@ == Seq::new((height * width * d) as nat, |k: int| 0u32),
            m.vec.vec4@ == Seq::new((height * width * d) as nat, |k: int| 0u32),
    {
        proof {
            lemma_pow2_ge1(d as nat);
        }
        assert(height * width <= height * width * d) by (nonlinear_arith)
            requires
                d >= 1,
        ;
        let vec = PVecNtt::zero(height * width, d);
        Self { height, width, vec }
    }

    /// Number of rows.
    pub fn height(&self) -> (h: usize)
        ensures
            h == self.height,
    {
        self.height
    }

    /// Number of columns.
    pub fn width(&self) -> (w: usize)
        ensures
            w == self.width,
    {
        self.width
    }

    /// Entry `(row, col)` as five slices, one per prime.
    pub fn element(&self, row: usize, col: usize) -> (e: (&[u32], &[u32], &[u32], &[u32], &[u32]))
        requires
            self.wf(),
            row < self.height,
            col < self.width,
        ensures
            e.0@ == self.vec.vec0@.subrange((row * self.width + col) * self.vec.d, (row * self.width + col) * self.vec.d + self.vec.d),
            e.1@ == self.vec.vec1@.subrange((row * self.width + col) * self.vec.d, (row * self.width + col) * self.vec.d + self.vec.d),
            e.2@ == self.vec.vec2@.subrange((row * self.width + col) * self.vec.d, (row * self.width + col) * self.vec.d + self.vec.d),
            e.3@ == self.vec.vec3@.subrange((row * self.width + col) * self.vec.d, (row * self.width + col) * self.vec.d + self.vec.d),
            e.4@ == self.vec.vec4@.subrange((row * self.width + col) * self.vec.d, (row * self.width + col) * self.vec.d + self.vec.d),
    {
        proof {
            lemma_flat(row as int, col as int, self.width as int, self.height as int);
        }
        self.vec.element(row * self.width + col)
    }

    /// Entry `(row, col)` as five mutable slices, one per prime.
    pub fn mut_element(&mut self, row: usize, col: usize) -> (e: (&mut [u32], &mut [u32], &mut [u32], &mut [u32], &mut [u32]))
        requires
            old(self).wf(),
            row < old(self).height,
            col < old(self).width,
        ensures
            final(self).height == old(self).height,
            final(self).width == old(self).width,
            final(self).vec.len == old(self).vec.len,
            final(self).vec.d == old(self).vec.d,
            final(self).vec.logd == old(self).vec.logd,
            e.0@ == old(self).vec.vec0@.subrange((row * old(self).width + col) * old(self).vec.d,
                (row * old(self).width + col) * old(self).vec.d + old(self).vec.d),
            final(self).vec.vec0@ == old(self).vec.vec0@.subrange(0, (row * old(self).width + col) * old(self).vec.d) + final(e.0)@
                + old(self).vec.vec0@.subrange((row * old(self).width + col) * old(self).vec.d + old(self).vec.d, old(self).vec.vec0@.len() as int),
            final(self).vec.vec1@ == old(self).vec.vec1@.subrange(0, (row * old(self).width + col) * old(self).vec.d) + final(e.1)@
                + old(self).vec.vec1@.subrange((row * old(self).width + col) * old(self).vec.d + old(self).vec.d, old(self).vec.vec1@.len() as int),
            final(self).vec.vec2@ == old(self).vec.vec2@.subrange(0, (row * old(self).width + col) * old(self).vec.d) + final(e.2)@
                + old(self).vec.vec2@.subrange((row * old(self).width + col) * old(self).vec.d + old(self).vec.d, old(self).vec.vec2@.len() as int),
            final(self).vec.vec3@ == old(self).vec.vec3@.subrange(0, (row * old(self).width + col) * old(self).vec.d) + final(e.3)@
                + old(self).vec.vec3@.subrange((row * old(self).width + col) * old(self).vec.d + old(self).vec.d, old(self).vec.vec3@.len() as int),
            final(self).vec.vec4@ == old(self).vec.vec4@.subrange(0, (row * old(self).width + col) * old(self).vec.d) + final(e.4)@
                + old(self).vec.vec4@.subrange((row * old(self).width + col) * old(self).vec.d + old(self).vec.d, old(self).vec.vec4@.len() as int),
            e.1@ == old(self).vec.vec1@.subrange((row * old(self).width + col) * old(self).vec.d,
                (row * old(self).width + col) * old(self).vec.d + old(self).vec.d),
            e.2@ == old(self).vec.vec2@.subrange((row * old(self).width + col) * old(self).vec.d,
                (row * old(self).width + col) * old(self).vec.d + old(self).vec.d),
            e.3@ == old(self).vec.vec3@.subrange((row * old(self).width + col) * old(self).vec.d,
                (row * old(self).width + col) * old(self).vec.d + old(self).vec.d),
            e.4@ == old(self).vec.vec4@.subrange((row * old(self).width + col) * old(self).vec.d,
                (row * old(self).width + col) * old(self).vec.d + old(self).vec.d),
    {
        proof {
            lemma_flat(row as int, col as int, self.width as int, self.height as int);
        }
        let w = self.width;
        self.vec.mut_element(row * w + col)
    }
}

impl PMatNtt {
    /// Deep copy.
    pub fn copy(&self) -> (c: Self)
        ensures
            c.height == self.height,
            c.width == self.width,
            c.vec.same(self.vec),
    {
        PMatNtt { height: self.height, width: self.width, vec: self.vec.copy() }
    }
}

} // verus!
