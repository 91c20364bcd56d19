//! The value of the committed multilinear polynomial at a point, computed from the witness: the
//! value an evaluation proof claims. The coefficient at index `i` multiplies the monomial of the
//! point selected by the bits of `i`, where the low `log d` bits of `i` (the ring coefficient)
//! go with the last `log d` coordinates, the next `m` bits (the element of a chunk) with the `m`
//! coordinates before them, and the high `r` bits (the chunk) with the first `r` coordinates.

use vstd::prelude::*;
use vstd::arithmetic::power2::pow2;
use crate::arithmetic::utils::{multi_lin_coeff_int, spec_multi_lin_coeff, pow2_usize};
use crate::hachi::commit::residue_witness;
use crate::hachi::setup::{Parameters, setup_ok, params_match};
use crate::stream::Stream;

verus! {

/// The point with its coordinates in the order of the bits of a coefficient's index.
pub open spec fn index_point(p: Parameters, x: Seq<u64>) -> Seq<u64> {
    x.subrange((p.r + p.m) as int, p.l as int) + x.subrange(p.r as int, (p.r + p.m) as int) + x.subrange(0, p.r as int)
}

/// `sum_{i < n} f_i mon(i) mod q`, reduced after every term, where `mon(i)` is the monomial of
/// the point selected by the bits of `i`.
pub open spec fn evaluation(p: Parameters, x: Seq<u64>, f: Seq<u64>, n: nat) -> int
    decreases n,
{
    if n == 0 {
        0
    } else {
        (evaluation(p, x, f, (n - 1) as nat) + spec_multi_lin_coeff(index_point(p, x), (n - 1) as nat, p.l as nat, p.q as int)
            * f[n - 1]) % (p.q as int)
    }
}

/// The value at `x` of the polynomial whose `2^l` coefficients `witness` holds, read from its
/// start in blocks of `d` coefficients; the stream is left past them.
pub fn evaluate<S: Stream<u64>>(witness: &mut S, params: &Parameters, x: &[u64]) -> (y: u64)
    requires
        setup_ok(params.l as nat),
        params_match(*params, params.l as nat, params.decomp_witness),
        pow2(params.l as nat) <= usize::MAX,
        old(witness).contents().len() >= pow2(params.l as nat),
        residue_witness(*params, old(witness).contents()),
        x@.len() >= params.l,
        forall|t: int| 0 <= t < params.l ==> #[trigger] x@[t] < params.q,
    ensures
        y == evaluation(*params, x@, old(witness).contents(), pow2(params.l as nat)),
        final(witness).contents() == old(witness).contents(),
{
    let ghost p = *params;
    let ghost f = witness.contents();
    let l = params.l;
    let q = params.q;
    let r = params.r;
    let m = params.m;
    proof {
        vstd::arithmetic::power2::lemma2_to64();
        if l >= 64 {
            if l > 64 {
                vstd::arithmetic::power2::lemma_pow2_strictly_increases(64, l as nat);
            }
        }
        vstd::arithmetic::power2::lemma_pow2_adds((l - 10) as nat, 10);
        vstd::arithmetic::power2::lemma_pow2_pos((l - 10) as nat);
    }
    let mut x_perm: Vec<u64> = Vec::with_capacity(l);
    let mut t: usize = r + m;
    while t < l
        invariant
            r + m <= t <= l,
            l == p.l && r == p.r && m == p.m,
            l <= x@.len(),
            x_perm@ == x@.subrange((r + m) as int, t as int),
        decreases l - t,
    {
        x_perm.push(x[t]);
        t = t + 1;
    }
    let mut t: usize = r;
    while t < r + m
        invariant
            r <= t <= r + m,
            r + m <= l <= x@.len(),
            x_perm@ == x@.subrange((r + m) as int, l as int) + x@.subrange(r as int, t as int),
        decreases r + m - t,
    {
        x_perm.push(x[t]);
        t = t + 1;
    }
    let mut t: usize = 0;
    while t < r
        invariant
            0 <= t <= r,
            r + m <= l <= x@.len(),
            x_perm@ == x@.subrange((r + m) as int, l as int) + x@.subrange(r as int, (r + m) as int) + x@.subrange(0, t as int),
        decreases r - t,
    {
        x_perm.push(x[t]);
        t = t + 1;
    }
    proof {
        assert(x_perm@ == index_point(p, x@));
        assert forall|k: int| 0 <= k < l implies #[trigger] x_perm@[k] < q by {
            if k < l - r - m {
                assert(x_perm@[k] == x@[r + m + k]);
            } else if k < l - r {
                assert(x_perm@[k] == x@[r + k - (l - r - m)]);
            } else {
                assert(x_perm@[k] == x@[k - (l - r)]);
            }
        }
    }
    witness.reset();
    let n = pow2_usize(l);
    let mut buf: Vec<u64> = vec![0u64; 1024];
    let mut y: u64 = 0;
    let mut i: usize = 0;
    while i < n
        invariant
            0 <= i <= n,
            n == pow2(l as nat),
            n == pow2((l - 10) as nat) * 1024,
            i % 1024 == 0,
            l == p.l && q == p.q && *params == p,
            l < 64,
            1 < q < 0x1_0000_0000,
            buf@.len() == 1024,
            witness.contents() == f,
            witness.position() == i,
            f.len() >= n,
            residue_witness(p, f),
            x_perm@ == index_point(p, x@),
            x_perm@.len() == l,
            forall|k: int| 0 <= k < l ==> #[trigger] x_perm@[k] < q,
            y < q,
            y == evaluation(p, x@, f, i as nat),
        decreases n - i,
    {
        proof {
            assert(i + 1024 <= n) by (nonlinear_arith)
                requires
                    i < n,
                    i % 1024 == 0,
                    n == pow2((l - 10) as nat) * 1024,
            ;
        }
        witness.read(buf.as_mut_slice());
        let mut j: usize = 0;
        while j < 1024
            invariant
                0 <= j <= 1024,
                i + 1024 <= n,
                n == pow2(l as nat),
                l == p.l && q == p.q,
                l < 64,
                1 < q < 0x1_0000_0000,
                buf@ == f.subrange(i as int, i + 1024),
                f.len() >= n,
                residue_witness(p, f),
                x_perm@ == index_point(p, x@),
                x_perm@.len() == l,
                forall|k: int| 0 <= k < l ==> #[trigger] x_perm@[k] < q,
                y < q,
                y == evaluation(p, x@, f, (i + j) as nat),
            decreases 1024 - j,
        {
            let a = multi_lin_coeff_int(x_perm.as_slice(), i + j, l, q);
            let v = buf[j];
            proof {
                assert(v == f[i + j]);
                assert(v < q);
                assert(a < q);
                assert(y + a * v < 0xffff_ffff_ffff_ffff) by (nonlinear_arith)
                    requires
                        a < q,
                        v < q,
                        y < q,
                        q < 0x1_0000_0000,
                ;
            }
            y = (y + a * v) % q;
            j = j + 1;
        }
        i = i + 1024;
    }
    y
}

} // verus!
