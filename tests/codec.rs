use raf_serialize::error::Error;
use raf_serialize::persist::{read_value, write_all_at, write_value};
use raf_serialize::serialize::Serialize;
use raf_serialize::store::{MemFile, RandomAccessFile};

fn encode<T: Serialize>(v: &T) -> Vec<u8> {
    let mut out = Vec::new();
    v.serialize(&mut out);
    out
}

#[test]
fn it_works() {
    let mut raf: MemFile = RandomAccessFile::new("test.txt").unwrap();
    write_value(&mut raf, 0, &65u64).unwrap();
    let t = read_value::<MemFile, u64>(&mut raf, 0).unwrap();
    assert!(t == 65)
}

#[test]
fn text_round_trip_through_store() {
    let mut raf = MemFile::new("text").unwrap();
    let n = write_value(&mut raf, 0, &"12345").unwrap();
    assert_eq!(n, 13);
    let t = read_value::<MemFile, String>(&mut raf, 0).unwrap();
    assert_eq!(t, "12345");
    let owned = String::from("12345");
    let bytes = encode(&owned);
    assert_eq!(bytes, encode(&"12345"));
    let (back, end) = String::deserialize(&bytes, 0).unwrap();
    assert_eq!(back, "12345");
    assert_eq!(end, 13);
}

#[test]
fn empty_sequence_is_just_the_count() {
    let v: Vec<i32> = Vec::new();
    assert_eq!(v.serialized_len(), 8);
    let bytes = encode(&v);
    assert_eq!(bytes, vec![0u8; 8]);
    let (back, end) = Vec::<i32>::deserialize(&bytes, 0).unwrap();
    assert!(back.is_empty());
    assert_eq!(end, 8);
}

#[test]
fn integer_bytes_are_least_significant_first() {
    assert_eq!(encode(&65u64), vec![65, 0, 0, 0, 0, 0, 0, 0]);
    assert_eq!(encode(&0x0102_0304u32), vec![4, 3, 2, 1]);
    assert_eq!(encode(&0x0102u16), vec![2, 1]);
    assert_eq!(encode(&-1i16), vec![255, 255]);
    assert_eq!(encode(&-2i8), vec![254]);
    assert_eq!(encode(&i32::MIN), vec![0, 0, 0, 128]);
    assert_eq!(encode(&-1i64), vec![255; 8]);
    assert_eq!(encode(&7usize), vec![7, 0, 0, 0, 0, 0, 0, 0]);
    assert_eq!(encode(&200u8), vec![200]);
}

#[test]
fn primitives_round_trip() {
    for v in [0u8, 1, 127, 128, 255] {
        assert_eq!(u8::deserialize(&encode(&v), 0).unwrap(), (v, 1));
    }
    for v in [0u16, 1, 0x1234, u16::MAX] {
        assert_eq!(u16::deserialize(&encode(&v), 0).unwrap(), (v, 2));
    }
    for v in [0u32, 1, 0xdead_beef, u32::MAX] {
        assert_eq!(u32::deserialize(&encode(&v), 0).unwrap(), (v, 4));
    }
    for v in [0u64, 65, u64::MAX] {
        assert_eq!(u64::deserialize(&encode(&v), 0).unwrap(), (v, 8));
    }
    for v in [0usize, 42, usize::MAX] {
        assert_eq!(usize::deserialize(&encode(&v), 0).unwrap(), (v, 8));
    }
    for v in [0i8, -1, i8::MIN, i8::MAX] {
        assert_eq!(i8::deserialize(&encode(&v), 0).unwrap(), (v, 1));
    }
    for v in [0i16, -300, i16::MIN, i16::MAX] {
        assert_eq!(i16::deserialize(&encode(&v), 0).unwrap(), (v, 2));
    }
    for v in [0i32, -70000, i32::MIN, i32::MAX] {
        assert_eq!(i32::deserialize(&encode(&v), 0).unwrap(), (v, 4));
    }
    for v in [0i64, -5_000_000_000, i64::MIN, i64::MAX] {
        assert_eq!(i64::deserialize(&encode(&v), 0).unwrap(), (v, 8));
    }
}

#[test]
fn sequences_round_trip() {
    let v: Vec<i16> = vec![1, -2, 300, i16::MIN];
    let bytes = encode(&v);
    assert_eq!(bytes.len() as u64, v.serialized_len());
    assert_eq!(bytes.len(), 8 + 2 * 4);
    assert_eq!(&bytes[0..8], &[4, 0, 0, 0, 0, 0, 0, 0]);
    let (back, end) = Vec::<i16>::deserialize(&bytes, 0).unwrap();
    assert_eq!(back, v);
    assert_eq!(end, bytes.len());

    let s: &[u32] = &[7, 8, 9];
    let sb = encode(&s);
    assert_eq!(s.serialized_len(), 20);
    assert_eq!(sb.len(), 20);
    let (back, _) = <&[u32]>::deserialize(&sb, 0).unwrap();
    assert_eq!(back, vec![7, 8, 9]);
}

#[test]
fn values_follow_one_another() {
    let mut out = Vec::new();
    5u32.serialize(&mut out);
    "ab".serialize(&mut out);
    (-9i64).serialize(&mut out);
    let (a, p) = u32::deserialize(&out, 0).unwrap();
    let (b, q) = String::deserialize(&out, p).unwrap();
    let (c, r) = i64::deserialize(&out, q).unwrap();
    assert_eq!((a, b.as_str(), c), (5, "ab", -9));
    assert_eq!(r, out.len());
}

#[test]
fn serialized_len_matches_bytes_written() {
    assert_eq!(3u8.serialized_len(), encode(&3u8).len() as u64);
    assert_eq!(3i64.serialized_len(), 8);
    assert_eq!("héllo".serialized_len(), 8 + 6);
    assert_eq!(encode(&"héllo").len(), 14);
    let v: Vec<u64> = vec![1, 2, 3];
    assert_eq!(v.serialized_len(), 32);
    assert_eq!(encode(&v).len(), 32);
}

#[test]
fn short_primitive_read_fails() {
    assert!(matches!(u32::deserialize(&[1, 2, 3], 0), Err(Error::UnexpectedEof)));
    assert!(matches!(u64::deserialize(&[0; 10], 3), Err(Error::UnexpectedEof)));
    assert!(matches!(u8::deserialize(&[], 0), Err(Error::UnexpectedEof)));
}

#[test]
fn lying_count_fails_without_partial_result() {
    let mut bytes = encode(&vec![1u32, 2]);
    bytes[0] = 5;
    assert!(matches!(Vec::<u32>::deserialize(&bytes, 0), Err(Error::UnexpectedEof)));
    assert!(matches!(Vec::<u8>::deserialize(&[1, 0, 0], 0), Err(Error::UnexpectedEof)));
    let huge = encode(&u64::MAX);
    assert!(matches!(String::deserialize(&huge, 0), Err(Error::UnexpectedEof)));
}

#[test]
fn invalid_text_is_replaced_not_refused() {
    let bytes = encode(&vec![0x61u8, 0xff, 0x62]);
    let (t, end) = String::deserialize(&bytes, 0).unwrap();
    assert_eq!(t, "a\u{fffd}b");
    assert_eq!(end, 11);
    let (u, _) = <&str>::deserialize(&encode(&"żółw"), 0).unwrap();
    assert_eq!(u, "żółw");
}

#[test]
fn reading_past_the_end_of_the_bytes_fails() {
    let bytes = encode(&7u16);
    assert!(matches!(u16::deserialize(&bytes, 5), Err(Error::UnexpectedEof)));
    assert!(matches!(u8::deserialize(&bytes, 2), Err(Error::UnexpectedEof)));
    assert!(matches!(Vec::<u8>::deserialize(&bytes, 9), Err(Error::UnexpectedEof)));
    assert!(matches!(String::deserialize(&bytes, usize::MAX), Err(Error::UnexpectedEof)));
    assert_eq!(u8::deserialize(&bytes, 1).unwrap(), (0, 2));
}
