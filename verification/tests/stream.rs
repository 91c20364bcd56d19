use hachi::stream::file_stream::U64FileStream;
use hachi::stream::{read_le_words, SliceStream, Stream};

#[test]
fn test_read_le_words() {
    let bytes = [1u8, 0, 0, 0, 0xff, 0xff, 0xff, 0xff, 0x78, 0x56, 0x34, 0x12];
    let mut arr = [0u64; 2];
    read_le_words(&bytes, 4, &mut arr);
    assert_eq!([0xffff_ffffu64, 0x1234_5678], arr);
}

#[test]
fn test_file_stream_read_reset() {
    let values: Vec<u32> = vec![5, 4294967196, 77, 0, 123456789, 42];
    let bytes: Vec<u8> = values.iter().flat_map(|v| v.to_le_bytes()).collect();
    let mut s = U64FileStream::init(&bytes, 0);
    assert_eq!(6, s.length());

    let mut a = [0u64; 4];
    s.read(&mut a);
    assert_eq!([5, 4294967196, 77, 0], a);
    let mut b = [0u64; 2];
    s.read(&mut b);
    assert_eq!([123456789, 42], b);

    // after a rewind the same values come back
    s.reset();
    let mut c = [0u64; 6];
    s.read(&mut c);
    assert_eq!([5, 4294967196, 77, 0, 123456789, 42], c);
}

#[test]
fn test_file_stream_offset() {
    let bytes: Vec<u8> = vec![9, 9, 1, 0, 0, 0, 2, 0, 0, 0];
    let mut s = U64FileStream::init(&bytes, 2);
    assert_eq!(2, s.length());
    let mut a = [0u64; 2];
    s.read(&mut a);
    assert_eq!([1, 2], a);
}

#[test]
fn test_slice_stream() {
    let data = [3u64, 1, 4, 1, 5];
    let mut s = SliceStream::new(&data);
    assert_eq!(5, s.length());
    let mut a = [0u64; 3];
    s.read(&mut a);
    assert_eq!([3, 1, 4], a);
    s.reset();
    let mut b = [0u64; 5];
    s.read(&mut b);
    assert_eq!(data, b);
}
