use raf_serialize::error::Error;
use raf_serialize::persist::{advance_write, read_tail, read_value, write_all_at, write_value};
use raf_serialize::store::{byte_from_read, MemFile, RandomAccessFile};

#[test]
fn append_then_read_at_gives_the_tail() {
    let mut f = MemFile::new("d").unwrap();
    let data: Vec<u8> = (0u8..10).collect();
    f.append(&data).unwrap();
    assert_eq!(f.len(), 10);
    let mut buf = [0u8; 8];
    let n = f.read_at(5, &mut buf[0..5]).unwrap();
    assert_eq!(n, 5);
    assert_eq!(&buf[0..5], &data[5..10]);
    assert_eq!(&buf[5..8], &[0, 0, 0]);
}

#[test]
fn append_grows_by_the_data_length() {
    let mut f = MemFile::new("g").unwrap();
    f.append(&[1, 2, 3]).unwrap();
    let old = f.len();
    f.append(&[9, 8]).unwrap();
    assert_eq!(f.len(), old + 2);
    let mut buf = [0u8; 2];
    assert_eq!(f.read_at(old, &mut buf).unwrap(), 2);
    assert_eq!(buf, [9, 8]);
}

#[test]
fn write_at_twice_is_write_at_once() {
    let mut once = MemFile::new("a").unwrap();
    let mut twice = MemFile::new("b").unwrap();
    once.append(&[1, 2, 3, 4]).unwrap();
    twice.append(&[1, 2, 3, 4]).unwrap();
    assert_eq!(once.write_at(2, &[7, 7, 7]).unwrap(), 3);
    twice.write_at(2, &[7, 7, 7]).unwrap();
    twice.write_at(2, &[7, 7, 7]).unwrap();
    assert_eq!(once.len(), 5);
    assert_eq!(twice.len(), 5);
    assert_eq!(read_tail(&mut once, 0).unwrap(), vec![1, 2, 7, 7, 7]);
    assert_eq!(read_tail(&mut twice, 0).unwrap(), vec![1, 2, 7, 7, 7]);
}

#[test]
fn write_past_the_end_fills_the_gap_with_zeros() {
    let mut f = MemFile::new("z").unwrap();
    f.append(&[5]).unwrap();
    f.write_at(3, &[9]).unwrap();
    assert_eq!(read_tail(&mut f, 0).unwrap(), vec![5, 0, 0, 9]);
    assert_eq!(f.write_at(10, &[]).unwrap(), 0);
    assert_eq!(f.len(), 4);
}

#[test]
fn write_reaching_past_the_address_space_is_refused() {
    let mut f = MemFile::new("o").unwrap();
    assert!(matches!(f.write_at(usize::MAX, &[1, 2]), Err(Error::OutOfRange)));
    assert_eq!(f.len(), 0);
    assert!(matches!(write_all_at(&mut f, usize::MAX - 1, &[1, 2, 3]), Err(Error::OutOfRange)));
}

#[test]
fn read_past_the_end() {
    let mut f = MemFile::new("r").unwrap();
    f.append(&[1, 2, 3]).unwrap();
    let mut buf = [0u8; 4];
    assert_eq!(f.read_at(1, &mut buf).unwrap(), 2);
    assert_eq!(&buf[0..2], &[2, 3]);
    assert_eq!(f.read_at(3, &mut buf).unwrap(), 0);
    assert_eq!(f.read_at(100, &mut buf).unwrap(), 0);
    assert_eq!(f.at(2).unwrap(), 3);
    assert!(matches!(f.at(3), Err(Error::UnexpectedEof)));
    assert_eq!(read_tail(&mut f, 7).unwrap(), Vec::<u8>::new());
}

#[test]
fn values_at_offsets() {
    let mut f = MemFile::new("v").unwrap();
    let n = write_value(&mut f, 0, &vec![1u16, 2, 3]).unwrap();
    assert_eq!(n, 14);
    write_value(&mut f, n, &-4i32).unwrap();
    assert_eq!(read_value::<MemFile, Vec<u16>>(&mut f, 0).unwrap(), vec![1, 2, 3]);
    assert_eq!(read_value::<MemFile, i32>(&mut f, 14).unwrap(), -4);
    assert!(matches!(read_value::<MemFile, u64>(&mut f, 14), Err(Error::UnexpectedEof)));
    assert!(matches!(read_value::<MemFile, u8>(&mut f, 99), Err(Error::UnexpectedEof)));
}

#[test]
fn large_values_cross_read_chunks() {
    let mut f = MemFile::new("big").unwrap();
    let v: Vec<u32> = (0u32..5000).collect();
    write_value(&mut f, 3, &v).unwrap();
    assert_eq!(f.len(), 3 + 8 + 4 * 5000);
    assert_eq!(read_value::<MemFile, Vec<u32>>(&mut f, 3).unwrap(), v);
}

#[test]
fn bytes_of_a_value_read_one_at_a_time() {
    let mut f = MemFile::new("bytes").unwrap();
    write_value(&mut f, 0, &65u64).unwrap();
    assert_eq!(f.at(0).unwrap(), 65);
    for i in 1..8 {
        assert_eq!(f.at(i).unwrap(), 0);
    }
    assert!(matches!(f.at(8), Err(Error::UnexpectedEof)));
    write_value(&mut f, 8, &-3i8).unwrap();
    assert_eq!(f.at(8).unwrap(), 253);
}

#[test]
fn writing_no_bytes_succeeds_anywhere() {
    let mut f = MemFile::new("e").unwrap();
    write_all_at(&mut f, 50, &[]).unwrap();
    assert_eq!(f.len(), 0);
    write_all_at(&mut f, usize::MAX, &[]).unwrap();
    assert_eq!(f.len(), 0);
}

#[test]
fn one_byte_read_outcomes() {
    assert!(matches!(byte_from_read(Ok(0), 9), Err(Error::UnexpectedEof)));
    assert_eq!(byte_from_read(Ok(1), 9).unwrap(), 9);
    let failed = Err(Error::Io(std::io::Error::new(std::io::ErrorKind::Other, "device")));
    assert!(matches!(byte_from_read(failed, 9), Err(Error::Io(_))));
}

#[test]
fn write_step_outcomes() {
    assert!(matches!(advance_write(4, 6, Ok(0)), Err(Error::WriteZero)));
    assert_eq!(advance_write(4, 6, Ok(2)).unwrap(), 6);
    assert_eq!(advance_write(0, 6, Ok(6)).unwrap(), 6);
    assert!(matches!(advance_write(4, 6, Err(Error::OutOfRange)), Err(Error::OutOfRange)));
}
