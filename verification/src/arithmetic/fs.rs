//! The Fiat-Shamir transcript: an append-only byte string of the serialised prover messages,
//! hashed into a 32-byte seed as `SHA256(base64(bytes))`.

use vstd::prelude::*;
use base64::{engine::general_purpose::STANDARD_NO_PAD, Engine as _};

verus! {

/// The standard base64 encoding, without padding, of `bytes` (the `base64` crate's
/// `STANDARD_NO_PAD` engine).
pub uninterp spec fn base64_no_pad(bytes: Seq<u8>) -> Seq<char>;

/// The lowercase hexadecimal SHA-256 digest of the UTF-8 encoding of `s`, as ASCII bytes (the
/// `sha256` crate's `digest`).
pub uninterp spec fn sha256_hex(s: Seq<char>) -> Seq<u8>;

/// `Engine::encode` with `STANDARD_NO_PAD` (base64): the unpadded standard base64 encoding of
/// `bytes`. The encoder panics only when the encoded length overflows a `usize`.
#[verifier::external_body]
fn b64_encode_no_pad(bytes: &[u8]) -> (s: String)
    requires
        4 * ((bytes@.len() + 2) / 3) <= usize::MAX,
    ensures
        s@ == base64_no_pad(bytes@),
{
    STANDARD_NO_PAD.encode(bytes)
}

/// `sha256::digest` on a `String` (sha256): the lowercase hexadecimal encoding of the SHA-256
/// hash of the string's bytes, 64 ASCII characters, returned as its bytes.
#[verifier::external_body]
fn sha256_digest_hex(s: String) -> (h: Vec<u8>)
    ensures
        h@ == sha256_hex(s@),
        h@.len() == 64,
        forall|i: int| 0 <= i < 64 ==> is_lower_hex(#[trigger] h@[i]),
{
    sha256::digest(s).into_bytes()
}

/// A lowercase hexadecimal digit `0-9a-f` in ASCII.
pub open spec fn is_lower_hex(c: u8) -> bool {
    (48 <= c <= 57) || (97 <= c <= 102)
}

/// A hexadecimal digit `0-9a-fA-F` in ASCII.
pub open spec fn is_hex(c: u8) -> bool {
    (48 <= c <= 57) || (97 <= c <= 102) || (65 <= c <= 70)
}

/// The value of a hexadecimal digit.
pub open spec fn hex_val(c: u8) -> int {
    if 48 <= c <= 57 {
        c - 48
    } else if 97 <= c <= 102 {
        c - 87
    } else {
        c - 55
    }
}

/// The 32 bytes written by 64 hexadecimal digits, two digits per byte, high digit first.
pub open spec fn hex_bytes(h: Seq<u8>) -> Seq<u8> {
    Seq::new(32, |i: int| (16 * hex_val(h[2 * i]) + hex_val(h[2 * i + 1])) as u8)
}

/// The value of one hexadecimal digit.
fn hex_digit(c: u8) -> (v: u8)
    requires
        is_hex(c),
    ensures
        v as int == hex_val(c),
        v < 16,
{
    if 48 <= c && c <= 57 {
        c - 48
    } else if 97 <= c && c <= 102 {
        c - 87
    } else {
        c - 55
    }
}

/// Decode 64 hexadecimal digits into 32 bytes, two digits per byte; `None` unless the first 64
/// bytes of `h` are hexadecimal digits.
pub fn seed_from_hex(h: &[u8]) -> (r: Option<[u8; 32]>)
    ensures
        r is Some <==> (h@.len() >= 64 && forall|i: int| 0 <= i < 64 ==> is_hex(#[trigger] h@[i])),
        r matches Some(s) ==> s@ == hex_bytes(h@),
{
    if h.len() < 64 {
        return None;
    }
    let mut k: usize = 0;
    while k < 64
        invariant
            0 <= k <= 64,
            h@.len() >= 64,
            forall|i: int| 0 <= i < k ==> is_hex(#[trigger] h@[i]),
        decreases 64 - k,
    {
        let c = h[k];
        if !((48 <= c && c <= 57) || (97 <= c && c <= 102) || (65 <= c && c <= 70)) {
            return None;
        }
        k = k + 1;
    }
    let mut seed = [0u8; 32];
    let mut i: usize = 0;
    while i < 32
        invariant
            0 <= i <= 32,
            h@.len() >= 64,
            forall|j: int| 0 <= j < 64 ==> is_hex(#[trigger] h@[j]),
            seed@.len() == 32,
            forall|j: int| 0 <= j < i ==> #[trigger] seed@[j] == hex_bytes(h@)[j],
        decreases 32 - i,
    {
        let hi = hex_digit(h[2 * i]);
        let lo = hex_digit(h[2 * i + 1]);
        seed[i] = 16 * hi + lo;
        i = i + 1;
    }
    proof {
        assert(seed@ =~= hex_bytes(h@));
    }
    Some(seed)
}

/// A message that can be absorbed into the transcript.
pub trait Serialise {
    /// The canonical byte encoding of the message.
    spec fn serialised(&self) -> Seq<u8>;

    /// The canonical byte encoding of the message.
    fn serialise(&self) -> (b: Vec<u8>)
        ensures
            b@ == self.serialised(),
    ;
}

/// Fiat-Shamir transcript: the concatenated serialisations of all messages pushed so far.
pub struct FS {
    bytes: Vec<u8>,
}

impl View for FS {
    type V = Seq<u8>;

    closed spec fn view(&self) -> Seq<u8> {
        self.bytes@
    }
}

/// The seed derived from a transcript: the bytes written by the hexadecimal SHA-256 digest of
/// the base64 encoding of the transcript.
pub open spec fn transcript_seed(t: Seq<u8>) -> Seq<u8> {
    hex_bytes(sha256_hex(base64_no_pad(t)))
}

/// A seed can be derived from a transcript of this length (its base64 length fits a `usize`).
pub open spec fn seed_fits(t: Seq<u8>) -> bool {
    len_fits(t.len() as int)
}

/// A seed can be derived from a transcript of `len` bytes.
pub open spec fn len_fits(len: int) -> bool {
    4 * ((len + 2) / 3) <= usize::MAX
}

/// A transcript no longer than one that fits fits too.
pub proof fn lemma_len_fits_shorter(a: int, b: int)
    requires
        0 <= a <= b,
        len_fits(b),
    ensures
        len_fits(a),
{
    vstd::arithmetic::div_mod::lemma_div_is_ordered(a + 2, b + 2, 3);
}

impl FS {
    /// Number of bytes absorbed so far.
    pub fn len(&self) -> (n: usize)
        ensures
            n == self@.len(),
    {
        self.bytes.len()
    }

    /// Whether a seed can be derived from the transcript so far.
    pub fn seed_fits(&self) -> (b: bool)
        ensures
            b == seed_fits(self@),
    {
        let n = self.bytes.len() as u128;
        4 * ((n + 2) / 3) <= usize::MAX as u128
    }

    /// An empty transcript.
    pub fn init() -> (fs: Self)
        ensures
            fs@ == Seq::<u8>::empty(),
    {
        FS { bytes: Vec::new() }
    }

    /// Append the serialisation of `a` to the transcript.
    pub fn push<T: Serialise>(&mut self, a: &T)
        ensures
            final(self)@ == old(self)@ + a.serialised(),
    {
        let mut b = a.serialise();
        self.bytes.append(&mut b);
    }

    /// Derive a 32-byte seed from the whole transcript so far: the bytes are base64-encoded
    /// (standard alphabet, no padding), hashed with SHA-256, and the hex digest is decoded.
    pub fn get_seed(&self) -> (seed: [u8; 32])
        requires
            4 * ((self@.len() + 2) / 3) <= usize::MAX,
        ensures
            seed@ == transcript_seed(self@),
    {
        let b64 = b64_encode_no_pad(self.bytes.as_slice());
        let digest = sha256_digest_hex(b64);
        match seed_from_hex(digest.as_slice()) {
            Some(seed) => seed,
            None => [0u8; 32],
        }
    }
}

} // verus!
