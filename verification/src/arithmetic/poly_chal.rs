//! Sparse challenge polynomials: ring elements with exactly `k` nonzero coefficients, each `1`
//! or `-1`, stored as their nonzero coefficients only. The entry `(e << 1) | s` encodes the
//! coefficient `+X^e` for `s = 1` and `-X^e` for `s = 0`; entries are sorted increasingly.

use vstd::prelude::*;
use vstd::multiset::*;
use vstd::arithmetic::power2::*;
use crate::arithmetic::utils::{Logarithm, rand_int, ceil_log2, lemma_ceil_log2_unique};
use crate::arithmetic::rng::{Prg, low_mask, draw_val, draw_pos};
use crate::arithmetic::field::{Fq4, fq, lift4, add4, sub4};

verus! {

broadcast use vstd::seq_lib::group_to_multiset_ensures;

/// A sparse challenge: its nonzero coefficients as `(exponent << 1) | sign`, sorted.
pub struct PChal {
    /// The nonzero coefficients as `(exponent << 1) | sign` (sign bit `1` for `+1`).
    pub coeffs: Vec<u32>,
}

/// The exponent encoded by an entry.
pub open spec fn entry_exp(c: u32) -> nat {
    (c >> 1) as nat
}

/// The sign encoded by an entry: `true` for `+1`.
pub open spec fn entry_sign(c: u32) -> bool {
    c & 1 == 1
}

/// A sequence sorted non-decreasingly.
pub open spec fn sorted_u32(s: Seq<u32>) -> bool {
    forall|x: int, y: int| 0 <= x < y < s.len() ==> s[x] <= s[y]
}

/// Sort a vector of `u32` increasingly by insertion.
fn sort_u32(v: &mut Vec<u32>)
    ensures
        final(v)@.len() == old(v)@.len(),
        sorted_u32(final(v)@),
        final(v)@.to_multiset() == old(v)@.to_multiset(),
{
    let n = v.len();
    if n == 0 {
        return;
    }
    let mut i: usize = 1;
    while i < n
        invariant
            1 <= i <= n,
            n == v@.len(),
            sorted_u32(v@.take(i as int)),
            v@.to_multiset() == old(v)@.to_multiset(),
        decreases n - i,
    {
        let mut j: usize = i;
        proof {
            assert forall|x: int, y: int| 0 <= x < y <= i && x != j && y != j implies v@[x] <= v@[y] by {
                assert(v@.take(i as int)[x] <= v@.take(i as int)[y]);
            }
        }
        while j > 0 && v[j - 1] > v[j]
            invariant
                0 <= j <= i < n,
                n == v@.len(),
                forall|x: int, y: int| 0 <= x < y <= i && x != j && y != j ==> v@[x] <= v@[y],
                forall|y: int| j < y <= i ==> v@[j as int] <= v@[y],
                v@.to_multiset() == old(v)@.to_multiset(),
            decreases j,
        {
            let a = v[j - 1];
            let b = v[j];
            let ghost s0 = v@;
            v.set(j - 1, b);
            v.set(j, a);
            proof {
                assert(v@ == s0.update(j - 1, b).update(j as int, a));
                assert(s0.update(j - 1, b).to_multiset() == s0.to_multiset().insert(b).remove(a));
                assert(v@.to_multiset() == s0.update(j - 1, b).to_multiset().insert(a).remove(b));
                assert(v@.to_multiset() =~= s0.to_multiset());
            }
            j = j - 1;
        }
        proof {
            assert forall|x: int, y: int| 0 <= x < y < i + 1 implies #[trigger] v@.take(i + 1)[x] <= #[trigger] v@.take(i + 1)[y] by {
                if y == j && x < j {
                    assert(v@[x] <= v@[j - 1]);
                }
            }
        }
        i = i + 1;
    }
    assert(v@.take(n as int) =~= v@);
}

/// The stream-position bookkeeping and array of the partial Fisher-Yates shuffle behind
/// [`PChal::rand`] after `i` of its `k` steps, started from `[0, 1, ..., d - 1]` at stream
/// position `pos`. Step `j` draws a value `val` below `2 (d - j)` by rejection sampling; its high
/// bits select the unstruck position `j + (val >> 1)`, whose value, packed with the sign
/// `val & 1`, goes to position `j`; the displaced value takes the selected position (except at
/// the last step, where nothing reads it).
pub open spec fn fy_state(d: nat, k: nat, seed: Seq<u8>, pos: nat, i: nat) -> (Seq<u32>, nat)
    decreases i,
{
    if i == 0 {
        (Seq::new(d, |t: int| t as u32), pos)
    } else {
        let prev = fy_state(d, k, seed, pos, (i - 1) as nat);
        let arr = prev.0;
        let p = prev.1;
        let j = (i - 1) as int;
        let n = (2 * (d - j)) as u64;
        let mask = low_mask(ceil_log2(n as nat));
        let val = draw_val(seed, p, n, mask) as u32;
        let index = (val >> 1u32) as int;
        let sign = val & 1u32;
        let placed = arr.update(j, (arr[j + index] << 1u32) | sign);
        let next = if j < k - 1 && index > 0 { placed.update(j + index, arr[j]) } else { placed };
        (next, draw_pos(seed, p, n, mask))
    }
}

/// The value of the shuffle array at `t` read as an exponent: positions below `i` hold packed
/// entries, the others raw exponents.
pub open spec fn fy_exp(arr: Seq<u32>, i: int, t: int) -> u32 {
    if t < i {
        arr[t] >> 1u32
    } else {
        arr[t]
    }
}

/// The sum `sum_{i < n} sign_i * alpha_pows[exp_i]` over the first `n` entries.
pub open spec fn chal_eval(coeffs: Seq<u32>, alpha_pows: Seq<Fq4>, n: nat) -> Fq4
    decreases n,
{
    if n == 0 {
        lift4(fq(0))
    } else {
        let prev = chal_eval(coeffs, alpha_pows, (n - 1) as nat);
        let c = coeffs[n - 1];
        if entry_sign(c) {
            add4(prev, alpha_pows[entry_exp(c) as int])
        } else {
            sub4(prev, alpha_pows[entry_exp(c) as int])
        }
    }
}

impl PChal {
    /// Sample a random challenge for ring dimension `d` and sparsity `k` by the partial
    /// Fisher-Yates shuffle: the `k` exponents are distinct and below `d`, with independent
    /// signs; the entries are returned sorted.
    pub fn rand(d: usize, k: usize, rng: &mut Prg) -> (c: Self)
        requires
            k <= d,
            d <= 0x8000_0000,
        ensures
            c.coeffs@.len() == k,
            sorted_u32(c.coeffs@),
            c.coeffs@.to_multiset() == fy_state(d as nat, k as nat, old(rng).seed(), old(rng).pos(), k as nat).0.take(k as int).to_multiset(),
            final(rng).pos() == fy_state(d as nat, k as nat, old(rng).seed(), old(rng).pos(), k as nat).1,
            final(rng).seed() == old(rng).seed(),
            forall|i: int| 0 <= i < k ==> entry_exp(#[trigger] c.coeffs@[i]) < d,
            forall|i: int, j: int| 0 <= i < j < k ==> entry_exp(#[trigger] c.coeffs@[i]) != entry_exp(#[trigger] c.coeffs@[j]),
    {
        let ghost seed = rng.seed();
        let ghost p0 = rng.pos();
        let mut arr: Vec<u32> = Vec::with_capacity(d);
        let mut t: usize = 0;
        while t < d
            invariant
                0 <= t <= d,
                d <= 0x8000_0000,
                arr@ == Seq::new(t as nat, |x: int| x as u32),
            decreases d - t,
        {
            arr.push(t as u32);
            t = t + 1;
        }
        let mut i: usize = 0;
        while i < k
            invariant
                0 <= i <= k <= d,
                d <= 0x8000_0000,
                arr@.len() == d,
                rng.seed() == seed,
                (arr@, rng.pos()) == fy_state(d as nat, k as nat, seed, p0, i as nat),
                forall|x: int, y: int| 0 <= x < y < i ==> (#[trigger] arr@[x] >> 1u32) != (#[trigger] arr@[y] >> 1u32),
                forall|x: int| 0 <= x < i ==> (#[trigger] arr@[x] >> 1u32) < d,
                i < k ==> forall|x: int| 0 <= x < d ==> #[trigger] fy_exp(arr@, i as int, x) < d,
                i < k ==> forall|x: int, y: int| 0 <= x < y < d ==> #[trigger] fy_exp(arr@, i as int, x) != #[trigger] fy_exp(arr@, i as int, y),
            decreases k - i,
        {
            let n: u64 = ((d - i) as u64) * 2;
            let logn = n.log();
            proof {
                lemma_ceil_log2_unique(n as nat, logn as nat);
                lemma2_to64();
                if logn > 33 {
                    lemma_pow2_strictly_increases(32, (logn - 1) as nat);
                }
            }
            let ghost arr0 = arr@;
            let ghost pos_before = rng.pos();
            let val = rand_int(n, logn, rng) as u32;
            let index = (val >> 1u32) as usize;
            let sign = val & 1u32;
            proof {
                assert(val >> 1u32 == val / 2) by (bit_vector);
                assert(sign <= 1) by (bit_vector)
                    requires
                        sign == val & 1u32,
                ;
            }
            let tmp = arr[i];
            let picked = arr[i + index];
            proof {
                // the picked value is an unstruck exponent below d
                assert(fy_exp(arr0, i as int, (i + index) as int) == picked);
                assert(picked < d);
                assert(((picked << 1u32) | sign) >> 1u32 == picked) by (bit_vector)
                    requires
                        picked < 0x8000_0000,
                        sign <= 1,
                ;
            }
            arr.set(i, (picked << 1u32) | sign);
            if i < k - 1 && index > 0 {
                arr.set(i + index, tmp);
            }
            proof {
                let na = arr@;
                assert((na, rng.pos()) == fy_state(d as nat, k as nat, seed, p0, (i + 1) as nat));
                assert(na[i as int] >> 1u32 == picked);
                // the new entry differs from every earlier one
                assert forall|x: int| 0 <= x < i implies (#[trigger] na[x] >> 1u32) != picked by {
                    assert(na[x] == arr0[x]);
                    assert(fy_exp(arr0, i as int, x) != fy_exp(arr0, i as int, (i + index) as int));
                }
                assert forall|x: int, y: int| 0 <= x < y < i + 1 implies (#[trigger] na[x] >> 1u32) != (#[trigger] na[y] >> 1u32) by {
                    if y < i {
                        assert(na[x] == arr0[x] && na[y] == arr0[y]);
                    }
                }
                assert forall|x: int| 0 <= x < i + 1 implies (#[trigger] na[x] >> 1u32) < d by {
                    if x < i {
                        assert(na[x] == arr0[x]);
                    }
                }
                if i + 1 < k {
                    // the shuffle swapped positions i and i + index of the exponent view
                    assert forall|x: int| 0 <= x < d implies #[trigger] fy_exp(na, i + 1, x) == fy_exp(arr0, i as int,
                        if x == i { (i + index) as int } else if x == i + index { i as int } else { x }) by {
                    }
                    assert forall|x: int| 0 <= x < d implies #[trigger] fy_exp(na, i + 1, x) < d by {
                        let x2 = if x == i { (i + index) as int } else if x == i + index { i as int } else { x };
                        assert(fy_exp(arr0, i as int, x2) < d);
                    }
                    assert forall|x: int, y: int| 0 <= x < y < d implies #[trigger] fy_exp(na, i + 1, x) != #[trigger] fy_exp(na, i + 1, y) by {
                        let x2 = if x == i { (i + index) as int } else if x == i + index { i as int } else { x };
                        let y2 = if y == i { (i + index) as int } else if y == i + index { i as int } else { y };
                        if x2 < y2 {
                            assert(fy_exp(arr0, i as int, x2) != fy_exp(arr0, i as int, y2));
                        } else {
                            assert(fy_exp(arr0, i as int, y2) != fy_exp(arr0, i as int, x2));
                        }
                    }
                }
            }
            i = i + 1;
        }
        let mut v: Vec<u32> = Vec::with_capacity(k);
        let mut t2: usize = 0;
        while t2 < k
            invariant
                0 <= t2 <= k <= d,
                arr@.len() == d,
                v@ == arr@.take(t2 as int),
            decreases k - t2,
        {
            v.push(arr[t2]);
            t2 = t2 + 1;
        }
        let ghost taken = v@;
        sort_u32(&mut v);
        proof {
            assert(taken.no_duplicates()) by {
                assert forall|x: int, y: int| 0 <= x < taken.len() && 0 <= y < taken.len() && x != y implies taken[x] != taken[y] by {
                    if x < y {
                        assert((arr@[x] >> 1u32) != (arr@[y] >> 1u32));
                    } else {
                        assert((arr@[y] >> 1u32) != (arr@[x] >> 1u32));
                    }
                }
            }
            taken.lemma_multiset_has_no_duplicates();
            v@.lemma_multiset_has_no_duplicates_conv();
            assert forall|x: int| 0 <= x < k implies entry_exp(#[trigger] v@[x]) < d && taken.contains(v@[x]) by {
                assert(v@.to_multiset().count(v@[x]) > 0);
                assert(taken.to_multiset().count(v@[x]) > 0);
                assert(taken.contains(v@[x]));
                let w = choose|w: int| 0 <= w < taken.len() && taken[w] == v@[x];
                assert(arr@[w] >> 1u32 < d);
            }
            assert forall|x: int, y: int| 0 <= x < y < k implies entry_exp(#[trigger] v@[x]) != entry_exp(#[trigger] v@[y]) by {
                assert(v@.to_multiset().count(v@[x]) > 0);
                assert(v@.to_multiset().count(v@[y]) > 0);
                assert(taken.contains(v@[x]));
                assert(taken.contains(v@[y]));
                let w1 = choose|w: int| 0 <= w < taken.len() && taken[w] == v@[x];
                let w2 = choose|w: int| 0 <= w < taken.len() && taken[w] == v@[y];
                assert(v@[x] != v@[y]);
                assert(w1 != w2);
                if w1 < w2 {
                    assert((arr@[w1] >> 1u32) != (arr@[w2] >> 1u32));
                } else {
                    assert((arr@[w2] >> 1u32) != (arr@[w1] >> 1u32));
                }
            }
        }
        PChal { coeffs: v }
    }
}


/// The packed entry of an `(exponent, sign)` pair.
pub open spec fn pack_entry(exp: usize, sign: bool) -> u32 {
    ((exp as u32) << 1u32) | (if sign { 1u32 } else { 0u32 })
}

/// `num` challenges drawn in turn from one generator: the challenge `i` is the shuffle of
/// [`PChal::rand`] run from the position where challenge `i - 1` left the stream.
pub open spec fn chal_seq_pos(d: nat, k: nat, seed: Seq<u8>, i: nat) -> nat
    decreases i,
{
    if i == 0 {
        0
    } else {
        fy_state(d, k, seed, chal_seq_pos(d, k, seed, (i - 1) as nat), k).1
    }
}

impl PChal {
    /// Sample `num` challenges in turn from a ChaCha12 generator seeded with `seed`.
    pub fn rand_vec(num: usize, d: usize, k: usize, seed: [u8; 32]) -> (v: Vec<Self>)
        requires
            k <= d,
            d <= 0x8000_0000,
        ensures
            v@.len() == num,
            forall|i: int| 0 <= i < num ==> (#[trigger] v@[i]).coeffs@.len() == k,
            forall|i: int| 0 <= i < num ==> sorted_u32((#[trigger] v@[i]).coeffs@),
            forall|i: int| 0 <= i < num ==> (#[trigger] v@[i]).coeffs@.to_multiset()
                == fy_state(d as nat, k as nat, seed@, chal_seq_pos(d as nat, k as nat, seed@, i as nat), k as nat).0.take(k as int).to_multiset(),
            forall|i: int, t: int| 0 <= i < num && 0 <= t < k ==> entry_exp(#[trigger] v@[i].coeffs@[t]) < d,
            forall|i: int, t: int, u: int| 0 <= i < num && 0 <= t < u < k ==> entry_exp(#[trigger] v@[i].coeffs@[t])
                != entry_exp(#[trigger] v@[i].coeffs@[u]),
    {
        let mut vec: Vec<Self> = Vec::with_capacity(num);
        let mut rng = Prg::from_seed(seed);
        let mut i: usize = 0;
        while i < num
            invariant
                0 <= i <= num,
                k <= d,
                d <= 0x8000_0000,
                vec@.len() == i,
                rng.seed() == seed@,
                rng.pos() == chal_seq_pos(d as nat, k as nat, seed@, i as nat),
                forall|j: int| 0 <= j < i ==> (#[trigger] vec@[j]).coeffs@.len() == k,
                forall|j: int| 0 <= j < i ==> sorted_u32((#[trigger] vec@[j]).coeffs@),
                forall|j: int| 0 <= j < i ==> (#[trigger] vec@[j]).coeffs@.to_multiset()
                    == fy_state(d as nat, k as nat, seed@, chal_seq_pos(d as nat, k as nat, seed@, j as nat), k as nat).0.take(k as int).to_multiset(),
                forall|j: int, t: int| 0 <= j < i && 0 <= t < k ==> entry_exp(#[trigger] vec@[j].coeffs@[t]) < d,
                forall|j: int, t: int, u: int| 0 <= j < i && 0 <= t < u < k ==> entry_exp(#[trigger] vec@[j].coeffs@[t])
                    != entry_exp(#[trigger] vec@[j].coeffs@[u]),
            decreases num - i,
        {
            let c = Self::rand(d, k, &mut rng);
            vec.push(c);
            i = i + 1;
        }
        vec
    }

    /// Build a challenge from explicit `(exponent, sign)` entries, in the given order and
    /// without sorting or checking distinctness. Sign `false` means `-1`, `true` means `+1`.
    pub fn from_entries(entries: &[(usize, bool)]) -> (c: Self)
        ensures
            c.coeffs@.len() == entries@.len(),
            forall|i: int| 0 <= i < entries@.len() ==> #[trigger] c.coeffs@[i] == pack_entry(entries@[i].0, entries@[i].1),
    {
        let mut coeffs: Vec<u32> = Vec::with_capacity(entries.len());
        let mut i: usize = 0;
        while i < entries.len()
            invariant
                0 <= i <= entries@.len(),
                coeffs@.len() == i,
                forall|j: int| 0 <= j < i ==> #[trigger] coeffs@[j] == pack_entry(entries@[j].0, entries@[j].1),
            decreases entries@.len() - i,
        {
            let (exp, sign) = entries[i];
            coeffs.push(((exp as u32) << 1u32) | (if sign { 1u32 } else { 0u32 }));
            i = i + 1;
        }
        PChal { coeffs }
    }

    /// The number `k` of nonzero coefficients.
    pub fn k(&self) -> (n: usize)
        ensures
            n == self.coeffs@.len(),
    {
        self.coeffs.len()
    }

    /// The `(exponent, sign)` of the `i`-th nonzero coefficient; `true` means `+1`.
    pub fn get(&self, i: usize) -> (r: (usize, bool))
        requires
            i < self.coeffs@.len(),
        ensures
            r.0 == entry_exp(self.coeffs@[i as int]),
            r.1 == entry_sign(self.coeffs@[i as int]),
    {
        ((self.coeffs[i] >> 1u32) as usize, (self.coeffs[i] & 1u32) == 1u32)
    }

    /// Evaluate at `alpha`: `sum_i sign_i alpha^{exp_i}` given `alpha_pows[j] = alpha^j`.
    pub fn eval(&self, alpha_pows: &[Fq4]) -> (r: Fq4)
        requires
            forall|i: int| 0 <= i < self.coeffs@.len() ==> entry_exp(#[trigger] self.coeffs@[i]) < alpha_pows@.len(),
        ensures
            r == chal_eval(self.coeffs@, alpha_pows@, self.coeffs@.len()),
    {
        let mut out = Fq4::zero();
        let mut i: usize = 0;
        while i < self.k()
            invariant
                0 <= i <= self.coeffs@.len(),
                forall|j: int| 0 <= j < self.coeffs@.len() ==> entry_exp(#[trigger] self.coeffs@[j]) < alpha_pows@.len(),
                out == chal_eval(self.coeffs@, alpha_pows@, i as nat),
            decreases self.coeffs@.len() - i,
        {
            let (exp, sign) = self.get(i);
            proof {
                assert(entry_exp(self.coeffs@[i as int]) < alpha_pows@.len());
            }
            if sign {
                out = out.plus(alpha_pows[exp]);
            } else {
                out = out.minus(alpha_pows[exp]);
            }
            i = i + 1;
        }
        out
    }
}

} // verus!
