//! Sequential, rewindable access to the witness: the committed polynomial's coefficients are
//! read chunk by chunk, in index order, so that very large polynomials need not be held in
//! memory. A file of witness data holds one coefficient per 4-byte little-endian word.

pub mod file_stream;

use vstd::prelude::*;

verus! {

/// A sequential, rewindable source of values of type `T`.
pub trait Stream<T> {
    /// All values of the source, in order.
    spec fn contents(&self) -> Seq<T>;

    /// Number of values already read since the last rewind.
    spec fn position(&self) -> nat;

    /// Total number of values the source holds.
    fn length(&self) -> (n: usize)
        ensures
            n == self.contents().len(),
    ;

    /// Fill `arr` with the next `arr.len()` values, in order, and advance past them.
    fn read(&mut self, arr: &mut [T])
        requires
            old(self).position() + old(arr)@.len() <= old(self).contents().len(),
        ensures
            final(self).contents() == old(self).contents(),
            final(self).position() == old(self).position() + old(arr)@.len(),
            final(arr)@ == old(self).contents().subrange(
                old(self).position() as int,
                (old(self).position() + old(arr)@.len()) as int,
            ),
    ;

    /// Rewind to the first value.
    fn reset(&mut self)
        ensures
            final(self).contents() == old(self).contents(),
            final(self).position() == 0,
    ;
}

/// A stream over a slice held in memory.
pub struct SliceStream<'a> {
    data: &'a [u64],
    pos: usize,
}

impl<'a> SliceStream<'a> {
    /// A stream over `data`, positioned at its start.
    pub fn new(data: &'a [u64]) -> (s: Self)
        ensures
            s.contents() == data@,
            s.position() == 0,
    {
        SliceStream { data, pos: 0 }
    }
}

impl<'a> Stream<u64> for SliceStream<'a> {
    closed spec fn contents(&self) -> Seq<u64> {
        self.data@
    }

    closed spec fn position(&self) -> nat {
        self.pos as nat
    }

    fn length(&self) -> (n: usize) {
        self.data.len()
    }

    fn read(&mut self, arr: &mut [u64]) {
        let n = arr.len();
        let len = self.data.len();
        let mut i: usize = 0;
        while i < n
            invariant
                0 <= i <= n,
                n == arr@.len(),
                len == self.data@.len(),
                self.pos + n <= self.data@.len(),
                forall|j: int| 0 <= j < i ==> #[trigger] arr@[j] == self.data@[self.pos + j],
            decreases n - i,
        {
            arr[i] = self.data[self.pos + i];
            i = i + 1;
        }
        proof {
            assert(arr@ =~= self.data@.subrange(self.pos as int, self.pos + n));
        }
        self.pos = self.pos + n;
    }

    fn reset(&mut self) {
        self.pos = 0;
    }
}

/// The value of the 4-byte little-endian word starting at `k`.
pub open spec fn le_word(bytes: Seq<u8>, k: int) -> u64 {
    (bytes[k] + 256 * bytes[k + 1] + 65536 * bytes[k + 2] + 16777216 * bytes[k + 3]) as u64
}

/// Decode `arr.len()` consecutive 4-byte little-endian words of `bytes`, starting at byte
/// `start`, into `arr`.
pub fn read_le_words(bytes: &[u8], start: usize, arr: &mut [u64])
    requires
        start + 4 * old(arr)@.len() <= bytes@.len(),
    ensures
        final(arr)@.len() == old(arr)@.len(),
        forall|i: int| 0 <= i < old(arr)@.len() ==> #[trigger] final(arr)@[i] == le_word(bytes@, start + 4 * i),
{
    let n = arr.len();
    let len = bytes.len();
    let mut i: usize = 0;
    while i < n
        invariant
            0 <= i <= n,
            n == arr@.len(),
            len == bytes@.len(),
            start + 4 * n <= bytes@.len(),
            forall|j: int| 0 <= j < i ==> #[trigger] arr@[j] == le_word(bytes@, start + 4 * j),
        decreases n - i,
    {
        let k = start + 4 * i;
        let w = bytes[k] as u64 + 256 * (bytes[k + 1] as u64) + 65536 * (bytes[k + 2] as u64)
            + 16777216 * (bytes[k + 3] as u64);
        arr[i] = w;
        i = i + 1;
    }
}

} // verus!
