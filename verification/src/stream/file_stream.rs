//! A witness held in the bytes of a file, one coefficient per 4-byte little-endian word. The
//! file is opened and mapped into memory by the caller; the stream reads the words in order from
//! a fixed byte offset.

use vstd::prelude::*;
use crate::stream::{Stream, le_word, read_le_words};

verus! {

/// A stream of `u64` values over the bytes of a witness file.
pub struct U64FileStream<'a> {
    bytes: &'a [u8],
    cur_byte: usize,
    offset: usize,
}

impl<'a> U64FileStream<'a> {
    /// The reading position stays on a word boundary within the bytes.
    #[verifier::type_invariant]
    spec fn well_placed(&self) -> bool {
        &&& self.offset <= self.cur_byte <= self.bytes@.len()
        &&& (self.cur_byte - self.offset) % 4 == 0
    }

    /// A stream over the words of `bytes` that start `offset` bytes in, positioned at the first.
    pub fn init(bytes: &'a [u8], offset: usize) -> (s: Self)
        requires
            offset <= bytes@.len(),
        ensures
            s.contents() == Seq::new(((bytes@.len() - offset) / 4) as nat, |k: int| le_word(bytes@, offset + 4 * k)),
            s.position() == 0,
    {
        U64FileStream { bytes, cur_byte: offset, offset }
    }
}

impl<'a> Stream<u64> for U64FileStream<'a> {
    closed spec fn contents(&self) -> Seq<u64> {
        Seq::new(((self.bytes@.len() - self.offset) / 4) as nat, |k: int| le_word(self.bytes@, self.offset + 4 * k))
    }

    closed spec fn position(&self) -> nat {
        ((self.cur_byte - self.offset) / 4) as nat
    }

    fn length(&self) -> (n: usize) {
        proof {
            use_type_invariant(self);
        }
        (self.bytes.len() - self.offset) / 4
    }

    fn read(&mut self, arr: &mut [u64]) {
        proof {
            use_type_invariant(&*self);
        }
        let ghost c = self.contents();
        let ghost pos = self.position();
        let n = arr.len();
        let blen = self.bytes.len();
        proof {
            assert(self.cur_byte + 4 * n <= blen);
        }
        let next = self.cur_byte + 4 * n;
        read_le_words(self.bytes, self.cur_byte, arr);
        proof {
            assert forall|i: int| 0 <= i < n implies #[trigger] arr@[i] == c.subrange(pos as int, pos + n)[i] by {
                assert(self.cur_byte + 4 * i == self.offset + 4 * (pos + i));
            }
            assert(arr@ =~= c.subrange(pos as int, pos + n));
        }
        self.cur_byte = next;
    }

    fn reset(&mut self) {
        proof {
            use_type_invariant(&*self);
        }
        self.cur_byte = self.offset;
    }
}

} // verus!
