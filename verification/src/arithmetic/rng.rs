//! The deterministic random generator behind every sampled object of the scheme: a ChaCha12
//! stream expanded from a 32-byte seed, read one `u64` at a time, and the rejection sampler of
//! uniform residues built on it.

use vstd::prelude::*;
use vstd::arithmetic::power2::*;
use rand_chacha::ChaCha12Rng;
use rand_chacha::rand_core::{RngCore, SeedableRng};

verus! {

#[verifier::external_type_specification]
#[verifier::external_body]
pub struct ExChaCha12Rng(ChaCha12Rng);

/// The `index`-th `u64` returned by `next_u64` on a ChaCha12 generator freshly created from
/// `seed` (the generator is a deterministic function of its seed).
pub uninterp spec fn chacha12_u64(seed: Seq<u8>, index: nat) -> u64;

/// A ChaCha12 generator together with the seed it was created from and the number of `u64`
/// words drawn from it so far.
pub struct Prg {
    rng: ChaCha12Rng,
    seed: [u8; 32],
    pos: Ghost<nat>,
}

impl Prg {
    /// The seed the generator was created from.
    pub closed spec fn seed(&self) -> Seq<u8> {
        self.seed@
    }

    /// The number of words drawn so far.
    pub closed spec fn pos(&self) -> nat {
        self.pos@
    }
}

/// `ChaCha12Rng::from_seed` (rand_chacha): a fresh generator for `seed`, no word drawn yet.
#[verifier::external_body]
fn chacha12_from_seed(seed: [u8; 32]) -> (r: Prg)
    ensures
        r.seed() == seed@,
        r.pos() == 0,
{
    Prg { rng: ChaCha12Rng::from_seed(seed), seed, pos: Ghost(0) }
}

/// `RngCore::next_u64` on the generator (rand_chacha): the next word of the stream, which is
/// word number `pos` of the stream of its seed; the count of drawn words grows by one.
#[verifier::external_body]
fn chacha12_next_u64(r: &mut Prg) -> (x: u64)
    ensures
        x == chacha12_u64(old(r).seed(), old(r).pos()),
        final(r).seed() == old(r).seed(),
        final(r).pos() == old(r).pos() + 1,
{
    r.rng.next_u64()
}

impl Prg {
    /// A generator seeded with `seed`.
    pub fn from_seed(seed: [u8; 32]) -> (r: Prg)
        ensures
            r.seed() == seed@,
            r.pos() == 0,
    {
        chacha12_from_seed(seed)
    }

    /// The next 64 random bits.
    pub fn next_u64(&mut self) -> (x: u64)
        ensures
            x == chacha12_u64(old(self).seed(), old(self).pos()),
            final(self).seed() == old(self).seed(),
            final(self).pos() == old(self).pos() + 1,
    {
        chacha12_next_u64(self)
    }
}

/// Number of draws after which the rejection sampler gives up.
pub open spec fn max_tries() -> nat {
    0xffff_ffff_ffff_ffff
}

/// The low-`logq`-bits mask `2^logq - 1`.
pub open spec fn low_mask(logq: nat) -> u64 {
    (pow2(logq) - 1) as u64
}

/// The position of the first word, among `budget` words from `pos` on, whose masked value is
/// below `q`.
pub open spec fn first_accept(seed: Seq<u8>, pos: nat, q: u64, mask: u64, budget: nat) -> Option<nat>
    decreases budget,
{
    if budget == 0 {
        None
    } else if chacha12_u64(seed, pos) & mask < q {
        Some(pos)
    } else {
        first_accept(seed, pos + 1, q, mask, (budget - 1) as nat)
    }
}

/// The value drawn by rejection sampling from position `pos`: the first masked word below `q`
/// (`0` in the event that `2^64 - 1` words are all rejected).
pub open spec fn draw_val(seed: Seq<u8>, pos: nat, q: u64, mask: u64) -> u64 {
    match first_accept(seed, pos, q, mask, max_tries()) {
        Some(k) => chacha12_u64(seed, k) & mask,
        None => 0,
    }
}

/// The stream position after a rejection-sampling draw from position `pos`.
pub open spec fn draw_pos(seed: Seq<u8>, pos: nat, q: u64, mask: u64) -> nat {
    match first_accept(seed, pos, q, mask, max_tries()) {
        Some(k) => k + 1,
        None => pos + max_tries(),
    }
}

/// `n` successive rejection-sampling draws from position `pos`.
pub open spec fn samples(seed: Seq<u8>, pos: nat, q: u64, mask: u64, n: nat) -> Seq<u64>
    decreases n,
{
    if n == 0 {
        Seq::empty()
    } else {
        samples(seed, pos, q, mask, (n - 1) as nat).push(
            draw_val(seed, samples_end(seed, pos, q, mask, (n - 1) as nat), q, mask),
        )
    }
}

/// The stream position after `n` successive draws from position `pos`.
pub open spec fn samples_end(seed: Seq<u8>, pos: nat, q: u64, mask: u64, n: nat) -> nat
    decreases n,
{
    if n == 0 {
        pos
    } else {
        draw_pos(seed, samples_end(seed, pos, q, mask, (n - 1) as nat), q, mask)
    }
}

} // verus!
