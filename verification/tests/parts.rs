use stack_db::base::codec::{get_u64, put_bytes, put_u64, read_record, REWIND_IDX};
use stack_db::base::interval::intersect;
use stack_db::base::layer::mapper::{bytes_of, Mapper};
use stack_db::base::layer::until_err;
use stack_db::errors::Error;
use std::borrow::Cow;

#[test]
fn rewind_index_is_the_header_length() {
    assert_eq!(REWIND_IDX, 24);
    assert_eq!(stack_db::base::layer::REWIND_IDX, 24);
}

#[test]
fn get_u64_reads_big_endian() {
    let buffer = [0x01, 0x02, 0x03, 0x04, 0x05, 0x06, 0x07, 0x08, 0x09];
    assert_eq!(get_u64(&buffer, 0..8), Ok(0x0102_0304_0506_0708));
    assert_eq!(get_u64(&buffer, 1..9), Ok(0x0203_0405_0607_0809));
    assert_eq!(get_u64(&[0xFF; 8], 0..8), Ok(u64::MAX));
    assert_eq!(get_u64(&[0; 8], 0..8), Ok(0));
}

#[test]
fn get_u64_refuses_other_ranges() {
    let buffer = [0u8; 9];
    let corrupt = Error::DBCorrupt(Box::new(Error::InvalidLayer));
    assert_eq!(get_u64(&buffer, 0..7), Err(Error::DBCorrupt(Box::new(Error::InvalidLayer))));
    assert_eq!(get_u64(&buffer, 0..9).unwrap_err(), corrupt);
    assert_eq!(get_u64(&buffer, 2..10).unwrap_err(), corrupt);
    assert_eq!(get_u64(&buffer, 8..0).unwrap_err(), corrupt);
    assert_eq!(get_u64(&[], 0..8).unwrap_err(), corrupt);
}

#[test]
fn put_u64_appends_big_endian() {
    let mut out = vec![0xAA];
    put_u64(&mut out, 0x0102_0304_0506_0708);
    assert_eq!(out, vec![0xAA, 1, 2, 3, 4, 5, 6, 7, 8]);
    put_u64(&mut out, 0);
    put_u64(&mut out, u64::MAX);
    assert_eq!(&out[9..17], &[0; 8]);
    assert_eq!(&out[17..], &[0xFF; 8]);
}

#[test]
fn put_and_get_agree_with_std() {
    for x in [0u64, 1, 255, 256, 0xDEAD_BEEF, 1 << 56, u64::MAX - 1, 0x8000_0000_0000_0000] {
        let mut out = Vec::new();
        put_u64(&mut out, x);
        assert_eq!(out, x.to_be_bytes().to_vec());
        assert_eq!(get_u64(&out, 0..8), Ok(x));
    }
}

#[test]
fn put_bytes_appends() {
    let mut out = vec![1, 2];
    put_bytes(&mut out, &[3, 4, 5]);
    put_bytes(&mut out, &[]);
    assert_eq!(out, vec![1, 2, 3, 4, 5]);
}

#[test]
fn read_record_gives_range_and_payload() {
    let mut stream = vec![9, 9];
    stream.extend_from_slice(&5u64.to_be_bytes());
    stream.extend_from_slice(&8u64.to_be_bytes());
    stream.extend_from_slice(b"xyz!");
    let (range, data) = read_record(&stream, 2, 3).unwrap();
    assert_eq!(range, 5..8);
    assert_eq!(data, b"xyz");
    let corrupt = Error::DBCorrupt(Box::new(Error::InvalidSection));
    // more payload than is owed
    assert_eq!(read_record(&stream, 2, 2).unwrap_err(), corrupt);
    // cut short
    assert_eq!(read_record(&stream[..20], 2, 3).unwrap_err(), corrupt);
    assert_eq!(read_record(&stream[..17], 2, 3).unwrap_err(), corrupt);
    assert_eq!(read_record(&stream, stream.len(), 3).unwrap_err(), corrupt);
}

#[test]
fn intersect_takes_later_start_and_earlier_end() {
    assert_eq!(intersect(&(5..15), &(0..10)), 5..10);
    assert_eq!(intersect(&(0..10), &(5..15)), 5..10);
    assert_eq!(intersect(&(0..100), &(20..30)), 20..30);
    assert_eq!(intersect(&(0..5), &(5..9)), 5..5);
}

#[test]
fn until_err_keeps_the_error() {
    let mut err: Result<(), Error> = Ok(());
    assert_eq!(until_err(&mut &mut err, Ok::<u8, Error>(7)), Some(7));
    assert_eq!(err, Ok(()));
    assert_eq!(until_err(&mut &mut err, Err::<u8, Error>(Error::OutOfBounds)), None);
    assert_eq!(err, Err(Error::OutOfBounds));
    assert_eq!(until_err(&mut &mut err, Ok::<u8, Error>(8)), Some(8));
    assert_eq!(err, Err(Error::OutOfBounds));
    assert_eq!(until_err(&mut &mut err, Err::<u8, Error>(Error::ReadOnly)), None);
    assert_eq!(err, Err(Error::ReadOnly));
}

#[test]
fn bytes_of_borrowed_and_owned() {
    assert_eq!(bytes_of(&Cow::Borrowed(&b"abc"[..])), b"abc");
    assert_eq!(bytes_of(&Cow::Owned(vec![1, 2])), &[1, 2]);
}

#[test]
fn mapper_in_memory_hands_out_its_writer() {
    let mut mapper = Mapper::new();
    {
        let (sections, cursor) = mapper.get_writer().unwrap();
        assert!(sections.is_empty());
        assert_eq!(*cursor, (0, 0));
        sections.insert(0, (3..5, Cow::Borrowed(&b"ab"[..])));
        *cursor = (5, 1);
    }
    let (sections, cursor) = mapper.get_writer().unwrap();
    assert_eq!(sections.len(), 1);
    assert_eq!(*cursor, (5, 1));
}

#[test]
fn mapper_on_disk_is_read_only() {
    let mut mapper = Mapper::Disk;
    assert_eq!(mapper.get_writer().unwrap_err(), Error::ReadOnly);
}

#[test]
fn walk_in_memory_can_be_started_again() {
    let mut mapper = Mapper::new();
    {
        let (sections, _) = mapper.get_writer().unwrap();
        sections.push((0..2, Cow::Borrowed(&b"ab"[..])));
        sections.push((4..5, Cow::Owned(vec![b'c'])));
    }
    for _ in 0..2 {
        let mut walk = mapper.iter(&[], 0, REWIND_IDX);
        assert_eq!(walk.next(), Some(Ok((0..2, Cow::Borrowed(&b"ab"[..])))));
        assert_eq!(walk.next(), Some(Ok((4..5, Cow::Borrowed(&b"c"[..])))));
        assert_eq!(walk.next(), None);
        assert_eq!(walk.next(), None);
    }
}

#[test]
fn walk_on_disk_reads_the_stream() {
    let mut stream = vec![0u8; 24];
    stream.extend_from_slice(&7u64.to_be_bytes());
    stream.extend_from_slice(&9u64.to_be_bytes());
    stream.extend_from_slice(b"hi");
    stream.extend_from_slice(&9u64.to_be_bytes());
    stream.extend_from_slice(&10u64.to_be_bytes());
    let mapper = Mapper::Disk;
    let mut walk = mapper.iter(&stream, 3, REWIND_IDX);
    assert_eq!(walk.next(), Some(Ok((7..9, Cow::Borrowed(&b"hi"[..])))));
    assert_eq!(walk.next(), Some(Err(Error::DBCorrupt(Box::new(Error::InvalidSection)))));
    assert_eq!(walk.next(), None);
    // a walk that is owed nothing reads nothing
    let mut walk = mapper.iter(&stream, 0, REWIND_IDX);
    assert_eq!(walk.next(), None);
    // a walk from behind the end of the stream
    let mut walk = mapper.iter(&stream, 3, 1000);
    assert_eq!(walk.next(), Some(Err(Error::DBCorrupt(Box::new(Error::InvalidSection)))));
    assert_eq!(walk.next(), None);
}
