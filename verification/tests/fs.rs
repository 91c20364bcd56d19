use base64::{engine::general_purpose::STANDARD_NO_PAD, Engine as _};

use hachi::arithmetic::fs::{seed_from_hex, Serialise, FS};
use hachi::arithmetic::poly_vec::PVec;

fn sample_vec() -> PVec {
    let mut v = PVec::zero(2, 4);
    let s = v.mut_slice();
    for (i, c) in s.iter_mut().enumerate() {
        *c = 0x0102_0304_0506_0700 + i as u64;
    }
    v
}

#[test]
fn test_serialise_big_endian() {
    let v = sample_vec();
    let b = v.serialise();
    assert_eq!(64, b.len());
    assert_eq!(&[1u8, 2, 3, 4, 5, 6, 7, 0], &b[0..8]);
    assert_eq!(&[1u8, 2, 3, 4, 5, 6, 7, 7], &b[56..64]);
}

#[test]
fn test_seed_from_hex() {
    let h = b"000102030405060708090a0b0c0d0e0f101112131415161718191A1B1C1D1E1F";
    let s = seed_from_hex(h).unwrap();
    let expected: Vec<u8> = (0u8..32).collect();
    assert_eq!(expected.as_slice(), &s[..]);
    assert!(seed_from_hex(b"00").is_none());
    let mut bad = h.to_vec();
    bad[5] = b'g';
    assert!(seed_from_hex(&bad).is_none());
}

#[test]
fn test_fs_seed_is_hash_of_encoded_transcript() {
    let v = sample_vec();
    let w = PVec::zero(1, 4);
    let mut fs = FS::init();
    fs.push(&v);
    fs.push(&w);
    assert_eq!(96, fs.len());
    let seed = fs.get_seed();

    // the seed is the SHA-256 digest, read from its hexadecimal form, of the unpadded base64
    // encoding of the transcript bytes
    let mut bytes = v.serialise();
    bytes.extend(w.serialise());
    let hex = sha256::digest(STANDARD_NO_PAD.encode(&bytes));
    let expected = seed_from_hex(hex.as_bytes()).unwrap();
    assert_eq!(expected, seed);

    // another transcript gives another seed
    let mut fs2 = FS::init();
    fs2.push(&w);
    fs2.push(&v);
    assert_ne!(seed, fs2.get_seed());
}

#[test]
fn test_get_seed_twice_leaves_transcript() {
    let v = sample_vec();
    let mut fs = FS::init();
    fs.push(&v);
    let before = fs.len();
    let s1 = fs.get_seed();
    let s2 = fs.get_seed();
    assert_eq!(s1, s2);
    assert_eq!(before, fs.len());
}
