//! Matrices of polynomials over `Z_q` in coefficient form, stored row-major in a `PVec`:
//! entry `(row, col)` is element `row * width + col`.

use vstd::prelude::*;
use crate::arithmetic::poly_vec::{PVec, lemma_flat};
use crate::arithmetic::utils::{is_pow2, ceil_log2};
use crate::arithmetic::rng::{low_mask, samples};

verus! {

/// A `height` by `width` matrix of polynomials, row-major.
#[derive(Clone)]
pub struct PMat {
    /// Number of rows.
    pub height: usize,
    /// Number of columns.
    pub width: usize,
    /// The `height * width` entries, row after row.
    pub vec: PVec,
}

impl PMat {
    /// Well-formed: the entries form a well-formed vector of `height * width` elements.
    pub open spec fn wf(&self) -> bool {
        &&& self.vec.wf()
        &&& self.vec.len == self.height * self.width
    }

    /// Entry `(row, col)` as a sequence of coefficients.
    pub open spec fn entry(&self, row: int, col: int) -> Seq<u64> {
        self.vec.elem(row * self.width + col)
    }

    /// A uniformly random matrix: `height * width` polynomials of `d` residues in `[0, q)`,
    /// expanded from `seed` by [`PVec::rand`].
    pub fn rand(height: usize, width: usize, d: usize, q: u64, seed: [u8; 32]) -> (m: Self)
        requires
            is_pow2(d as nat),
            height * width * d <= usize::MAX,
            1 <= q <= 0x8000_0000_0000_0000,
        ensures
            m.wf(),
            m.height == height,
            m.width == width,
            m.vec.d == d,
            m.vec.vec@ == samples(seed@, 0, q, low_mask(ceil_log2(q as nat)), (height * width * d) as nat),
            forall|t: int| 0 <= t < m.vec.vec@.len() ==> #[trigger] m.vec.vec@[t] < q,
    {
        proof {
            crate::arithmetic::utils::lemma_pow2_ge1(d as nat);
        }
        assert(height * width <= height * width * d) by (nonlinear_arith)
            requires
                d >= 1,
        ;
        let vec = PVec::rand(height * width, d, q, seed);
        Self { height, width, vec }
    }

    /// Number of rows.
    pub fn height(&self) -> (h: usize)
        ensures
            h == self.height,
    {
        self.height
    }

    /// Number of columns.
    pub fn width(&self) -> (w: usize)
        ensures
            w == self.width,
    {
        self.width
    }

    /// Entry `(row, col)` as the slice of its `d` coefficients.
    pub fn element(&self, row: usize, col: usize) -> (e: &[u64])
        requires
            self.wf(),
            row < self.height,
            col < self.width,
        ensures
            e@ == self.entry(row as int, col as int),
            e@.len() == self.vec.d,
    {
        proof {
            lemma_flat(row as int, col as int, self.width as int, self.height as int);
        }
        self.vec.element(row * self.width + col)
    }
}

impl PMat {
    /// Deep copy.
    pub fn copy(&self) -> (c: Self)
        ensures
            c.height == self.height,
            c.width == self.width,
            c.vec.len == self.vec.len,
            c.vec.d == self.vec.d,
            c.vec.logd == self.vec.logd,
            c.vec.vec@ == self.vec.vec@,
    {
        PMat { height: self.height, width: self.width, vec: self.vec.copy() }
    }
}

} // verus!
