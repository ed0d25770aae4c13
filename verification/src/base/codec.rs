//! The persisted form of a layer. All integers are 64 bits wide and
//! big-endian:
//!
//! ```text
//! offset 0    size            payload bytes of all sections together
//! offset 8    bounds.start
//! offset 16   bounds.end
//! offset 24   first section: start, end, then end - start payload bytes
//! ...         further sections, ascending, until `size` bytes of payload
//!             have been seen
//! ```
use crate::base::section::{all_sound, payload, reachable, sound, Record};
use crate::base::section::{lemma_payload_concat, lemma_payload_one};
use crate::base::section::{lemma_reachable_first, lemma_reachable_none};
use crate::errors::{corrupt_layer, corrupt_section, Error};
use core::ops::Range;
use vstd::prelude::*;

verus! {

/// Length of the header, and so the offset of the first section record.
pub const REWIND_IDX: u64 = 24;

/// Length of the two integers in front of a section's payload.
pub const RECORD_HEAD: usize = 16;

/// The integer that eight bytes spell, most significant byte first.
#[verifier::opaque]
pub open spec fn be_u64(bytes: Seq<u8>) -> u64
    recommends
        bytes.len() == 8,
{
    (bytes[0] * 0x100_0000_0000_0000 + bytes[1] * 0x1_0000_0000_0000 + bytes[2] * 0x100_0000_0000
        + bytes[3] * 0x1_0000_0000 + bytes[4] * 0x100_0000 + bytes[5] * 0x1_0000 + bytes[6] * 0x100
        + bytes[7]) as u64
}

/// The eight bytes that spell `x`, most significant byte first.
#[verifier::opaque]
pub open spec fn be_bytes(x: u64) -> Seq<u8> {
    seq![
        (x / 0x100_0000_0000_0000) as u8,
        (x / 0x1_0000_0000_0000 % 0x100) as u8,
        (x / 0x100_0000_0000 % 0x100) as u8,
        (x / 0x1_0000_0000 % 0x100) as u8,
        (x / 0x100_0000 % 0x100) as u8,
        (x / 0x1_0000 % 0x100) as u8,
        (x / 0x100 % 0x100) as u8,
        (x % 0x100) as u8,
    ]
}

/// The header of a layer with the given payload size and bounds.
pub open spec fn header_image(size: u64, bounds: Range<u64>) -> Seq<u8> {
    be_bytes(size) + be_bytes(bounds.start) + be_bytes(bounds.end)
}

/// One section on disk: start, end, payload.
pub open spec fn record_image(record: Record) -> Seq<u8> {
    be_bytes(record.range.start) + be_bytes(record.range.end) + record.data
}

/// The sections on disk, one after the other.
pub open spec fn records_image(records: Seq<Record>) -> Seq<u8>
    decreases records.len(),
{
    if records.len() == 0 {
        Seq::empty()
    } else {
        records_image(records.drop_last()) + record_image(records.last())
    }
}

/// A whole layer on disk: the header, then the sections.
pub open spec fn layer_image(size: u64, bounds: Range<u64>, records: Seq<Record>) -> Seq<u8> {
    header_image(size, bounds) + records_image(records)
}

/// The payload size that a header declares.
pub open spec fn header_size(bytes: Seq<u8>) -> u64
    recommends
        bytes.len() >= 24,
{
    be_u64(bytes.subrange(0, 8))
}

/// The bounds that a header declares.
pub open spec fn header_bounds(bytes: Seq<u8>) -> Range<u64>
    recommends
        bytes.len() >= 24,
{
    Range { start: be_u64(bytes.subrange(8, 16)), end: be_u64(bytes.subrange(16, 24)) }
}

/// What a scan of `bytes` yields from offset `at` on while `left` bytes of
/// payload are still owed: the records it reads in full, and the error that
/// ends it, if one does. The scan ends without error as soon as nothing is
/// owed. It ends with an error at a record whose two integers or whose
/// payload are cut short by the end of `bytes`, whose end lies before its
/// start, or whose payload is larger than what is owed.
pub open spec fn scan(bytes: Seq<u8>, at: int, left: int) -> (Seq<Record>, Option<Error>)
    decreases bytes.len() - at,
{
    if left == 0 {
        (Seq::empty(), None)
    } else if at < 0 || bytes.len() - at < 16 {
        (Seq::empty(), Some(corrupt_section()))
    } else {
        let start = be_u64(bytes.subrange(at, at + 8));
        let end = be_u64(bytes.subrange(at + 8, at + 16));
        let len = end - start;
        if len < 0 || len > left || bytes.len() - at - 16 < len {
            (Seq::empty(), Some(corrupt_section()))
        } else {
            let record = Record {
                range: Range { start, end },
                data: bytes.subrange(at + 16, at + 16 + len),
            };
            let rest = scan(bytes, at + 16 + len, left - len);
            (seq![record] + rest.0, rest.1)
        }
    }
}

/// Dividing by a power of 256 is dividing by 256 that many times over.
proof fn lemma_nested_quotients(x: u64)
    ensures
        x / 0x1_0000 == x / 0x100 / 0x100,
        x / 0x100_0000 == x / 0x1_0000 / 0x100,
        x / 0x1_0000_0000 == x / 0x100_0000 / 0x100,
        x / 0x100_0000_0000 == x / 0x1_0000_0000 / 0x100,
        x / 0x1_0000_0000_0000 == x / 0x100_0000_0000 / 0x100,
        x / 0x100_0000_0000_0000 == x / 0x1_0000_0000_0000 / 0x100,
        x / 0x100_0000_0000_0000 < 0x100,
{
}

/// Spelling an integer and reading it back gives the integer.
pub proof fn lemma_be_round_trip(x: u64)
    ensures
        be_bytes(x).len() == 8,
        be_u64(be_bytes(x)) == x,
{
    reveal(be_u64);
    reveal(be_bytes);
    lemma_nested_quotients(x);
    let q1 = x / 0x100;
    let q2 = x / 0x1_0000;
    let q3 = x / 0x100_0000;
    let q4 = x / 0x1_0000_0000;
    let q5 = x / 0x100_0000_0000;
    let q6 = x / 0x1_0000_0000_0000;
    let q7 = x / 0x100_0000_0000_0000;
    assert(x == q1 * 0x100 + x % 0x100);
    assert(q1 == q2 * 0x100 + q1 % 0x100);
    assert(q2 == q3 * 0x100 + q2 % 0x100);
    assert(q3 == q4 * 0x100 + q3 % 0x100);
    assert(q4 == q5 * 0x100 + q4 % 0x100);
    assert(q5 == q6 * 0x100 + q5 % 0x100);
    assert(q6 == q7 * 0x100 + q6 % 0x100);
}

/// Reads the integer at `at`.
fn be_u64_at(buffer: &[u8], at: usize) -> (value: u64)
    requires
        at + 8 <= buffer@.len(),
    ensures
        value == be_u64(buffer@.subrange(at as int, at + 8)),
{
    proof {
        reveal(be_u64);
    }
    let b0: u64 = buffer[at] as u64;
    let b1: u64 = buffer[at + 1] as u64;
    let b2: u64 = buffer[at + 2] as u64;
    let b3: u64 = buffer[at + 3] as u64;
    let b4: u64 = buffer[at + 4] as u64;
    let b5: u64 = buffer[at + 5] as u64;
    let b6: u64 = buffer[at + 6] as u64;
    let b7: u64 = buffer[at + 7] as u64;
    b0 * 0x100_0000_0000_0000 + b1 * 0x1_0000_0000_0000 + b2 * 0x100_0000_0000 + b3
        * 0x1_0000_0000 + b4 * 0x100_0000 + b5 * 0x1_0000 + b6 * 0x100 + b7
}

/// Grabs a big-endian integer from `buffer`. The range must lie within the
/// buffer and be eight bytes long; any other range is reported as a damaged
/// header.
pub fn get_u64(buffer: &[u8], range: Range<usize>) -> (res: Result<u64, Error>)
    ensures
        match res {
            Ok(value) => {
                &&& range.start <= range.end <= buffer@.len()
                &&& range.end - range.start == 8
                &&& value == be_u64(buffer@.subrange(range.start as int, range.end as int))
            },
            Err(e) => {
                &&& !(range.start <= range.end <= buffer@.len() && range.end - range.start == 8)
                &&& e == corrupt_layer()
            },
        },
{
    if range.start <= range.end && range.end <= buffer.len() && range.end - range.start == 8 {
        Ok(be_u64_at(buffer, range.start))
    } else {
        Err(Error::DBCorrupt(Box::new(Error::InvalidLayer)))
    }
}

/// Appends the eight bytes of `x` to `out`.
pub fn put_u64(out: &mut Vec<u8>, x: u64)
    ensures
        final(out)@ == old(out)@ + be_bytes(x),
{
    proof {
        reveal(be_bytes);
    }
    out.push((x / 0x100_0000_0000_0000) as u8);
    out.push((x / 0x1_0000_0000_0000 % 0x100) as u8);
    out.push((x / 0x100_0000_0000 % 0x100) as u8);
    out.push((x / 0x1_0000_0000 % 0x100) as u8);
    out.push((x / 0x100_0000 % 0x100) as u8);
    out.push((x / 0x1_0000 % 0x100) as u8);
    out.push((x / 0x100 % 0x100) as u8);
    out.push((x % 0x100) as u8);
    assert(out@ =~= old(out)@ + be_bytes(x));
}

/// Appends `bytes` to `out`.
pub fn put_bytes(out: &mut Vec<u8>, bytes: &[u8])
    ensures
        final(out)@ == old(out)@ + bytes@,
{
    let mut i: usize = 0;
    while i < bytes.len()
        invariant
            i <= bytes@.len(),
            out@ == old(out)@ + bytes@.take(i as int),
        decreases bytes@.len() - i,
    {
        out.push(bytes[i]);
        assert(bytes@.take(i + 1) =~= bytes@.take(i as int).push(bytes@[i as int]));
        i += 1;
    }
    assert(bytes@.take(i as int) =~= bytes@);
}

/// Reads the section record at offset `at` of `stream` while `left` bytes of
/// payload are owed. Gives the range and the payload of the record, or the
/// error that a scan ends with there.
pub fn read_record<'a>(stream: &'a [u8], at: usize, left: u64) -> (res: Result<
    (Range<u64>, &'a [u8]),
    Error,
>)
    requires
        at <= stream@.len(),
        left > 0,
    ensures
        match res {
            Ok((range, data)) => {
                &&& stream@.len() - at >= 16
                &&& range.start == be_u64(stream@.subrange(at as int, at + 8))
                &&& range.end == be_u64(stream@.subrange(at + 8, at + 16))
                &&& range.start <= range.end
                &&& range.end - range.start <= left
                &&& range.end - range.start <= stream@.len() - at - 16
                &&& data@ == stream@.subrange(at + 16, at + 16 + (range.end - range.start))
                &&& scan(stream@, at as int, left as int) == ({
                    let rest = scan(
                        stream@,
                        at + 16 + (range.end - range.start),
                        left - (range.end - range.start),
                    );
                    (seq![Record { range, data: data@ }] + rest.0, rest.1)
                })
            },
            Err(e) => scan(stream@, at as int, left as int) == (
                Seq::<Record>::empty(),
                Some(e),
            ),
        },
{
    let avail: usize = stream.len() - at;
    if avail < RECORD_HEAD {
        return Err(Error::DBCorrupt(Box::new(Error::InvalidSection)));
    }
    let start: u64 = be_u64_at(stream, at);
    let end: u64 = be_u64_at(stream, at + 8);
    if end < start {
        return Err(Error::DBCorrupt(Box::new(Error::InvalidSection)));
    }
    let len: u64 = end - start;
    if len > left || len > (avail - RECORD_HEAD) as u64 {
        return Err(Error::DBCorrupt(Box::new(Error::InvalidSection)));
    }
    let from: usize = at + RECORD_HEAD;
    let data = vstd::slice::slice_subrange(stream, from, from + len as usize);
    Ok((start..end, data))
}

/// A scan that ends with an error ends with the one for a damaged section
/// record.
pub proof fn lemma_scan_error(bytes: Seq<u8>, at: int, left: int)
    ensures
        scan(bytes, at, left).1 is Some ==> scan(bytes, at, left).1 == Some(corrupt_section()),
    decreases bytes.len() - at,
{
    if left != 0 && !(at < 0 || bytes.len() - at < 16) {
        let start = be_u64(bytes.subrange(at, at + 8));
        let end = be_u64(bytes.subrange(at + 8, at + 16));
        let len = end - start;
        if !(len < 0 || len > left || bytes.len() - at - 16 < len) {
            lemma_scan_error(bytes, at + 16 + len, left - len);
        }
    }
}

/// Every record that a scan reads has a range that runs forward and a payload
/// of the range's length.
pub proof fn lemma_scan_sound(bytes: Seq<u8>, at: int, left: int)
    ensures
        all_sound(scan(bytes, at, left).0),
    decreases bytes.len() - at,
{
    if left != 0 && !(at < 0 || bytes.len() - at < 16) {
        let start = be_u64(bytes.subrange(at, at + 8));
        let end = be_u64(bytes.subrange(at + 8, at + 16));
        let len = end - start;
        if !(len < 0 || len > left || bytes.len() - at - 16 < len) {
            lemma_scan_sound(bytes, at + 16 + len, left - len);
            let record = Record {
                range: Range { start, end },
                data: bytes.subrange(at + 16, at + 16 + len),
            };
            let rest = scan(bytes, at + 16 + len, left - len);
            assert(sound(record));
            assert forall|i: int| 0 <= i < (seq![record] + rest.0).len() implies sound(
                #[trigger] (seq![record] + rest.0)[i],
            ) by {
                if i > 0 {
                    assert((seq![record] + rest.0)[i] == rest.0[i - 1]);
                }
            }
        }
    }
}

/// The image of two runs of records is the image of the first followed by
/// that of the second.
pub proof fn lemma_image_concat(a: Seq<Record>, b: Seq<Record>)
    ensures
        records_image(a + b) == records_image(a) + records_image(b),
    decreases b.len(),
{
    if b.len() == 0 {
        assert(a + b =~= a);
        assert(records_image(a) + records_image(b) =~= records_image(a));
    } else {
        assert((a + b).drop_last() =~= a + b.drop_last());
        lemma_image_concat(a, b.drop_last());
        assert(records_image(a + b) =~= records_image(a) + records_image(b));
    }
}

/// The image of a single record.
pub proof fn lemma_image_one(record: Record)
    ensures
        records_image(seq![record]) == record_image(record),
{
    assert(seq![record].drop_last() =~= Seq::<Record>::empty());
    assert(records_image(Seq::<Record>::empty()) =~= Seq::<u8>::empty());
    assert(records_image(seq![record]) =~= record_image(record));
}

/// A scan does not look past the records it reads: where `bytes` holds the
/// image of sound records at `at`, a scan that is owed their payload reads
/// back every record up to the last one that carries a byte, and ends
/// without error, whatever follows the image.
pub proof fn lemma_scan_image(bytes: Seq<u8>, at: int, records: Seq<Record>)
    requires
        all_sound(records),
        0 <= at,
        at + records_image(records).len() <= bytes.len(),
        bytes.subrange(at, at + records_image(records).len()) == records_image(records),
    ensures
        scan(bytes, at, payload(records) as int) == (reachable(records), None::<Error>),
    decreases records.len(),
{
    if payload(records) == 0 {
        lemma_reachable_none(records);
    } else {
        let first = records[0];
        let others = records.drop_first();
        assert(records =~= seq![first] + others);
        lemma_payload_concat(seq![first], others);
        lemma_payload_one(first);
        lemma_image_concat(seq![first], others);
        lemma_image_one(first);
        lemma_reachable_first(first, others);
        assert(sound(records[0]));
        let image = records_image(records);
        let head = record_image(first);
        let len = first.data.len() as int;
        lemma_be_round_trip(first.range.start);
        lemma_be_round_trip(first.range.end);
        assert(head.len() == 16 + len);
        assert(image =~= head + records_image(others));
        assert(bytes.subrange(at, at + 8) =~= be_bytes(first.range.start)) by {
            assert forall|k: int| 0 <= k < 8 implies bytes[at + k] == be_bytes(
                first.range.start,
            )[k] by {
                assert(bytes[at + k] == bytes.subrange(at, at + image.len())[k]);
                assert(image[k] == head[k]);
            }
        }
        assert(bytes.subrange(at + 8, at + 16) =~= be_bytes(first.range.end)) by {
            assert forall|k: int| 0 <= k < 8 implies bytes[at + 8 + k] == be_bytes(
                first.range.end,
            )[k] by {
                assert(bytes[at + 8 + k] == bytes.subrange(at, at + image.len())[8 + k]);
                assert(image[8 + k] == head[8 + k]);
            }
        }
        assert(bytes.subrange(at + 16, at + 16 + len) =~= first.data) by {
            assert forall|k: int| 0 <= k < len implies bytes[at + 16 + k] == first.data[k] by {
                assert(bytes[at + 16 + k] == bytes.subrange(at, at + image.len())[16 + k]);
                assert(image[16 + k] == head[16 + k]);
            }
        }
        let next = at + 16 + len;
        assert(bytes.subrange(next, next + records_image(others).len()) =~= records_image(
            others,
        )) by {
            assert forall|k: int| 0 <= k < records_image(others).len() implies bytes[next + k]
                == records_image(others)[k] by {
                assert(bytes[next + k] == bytes.subrange(at, at + image.len())[16 + len + k]);
            }
        }
        assert(all_sound(others)) by {
            assert forall|i: int| 0 <= i < others.len() implies sound(#[trigger] others[i]) by {
                assert(others[i] == records[i + 1]);
            }
        }
        lemma_scan_image(bytes, next, others);
        let parsed = Record {
            range: Range { start: first.range.start, end: first.range.end },
            data: bytes.subrange(at + 16, at + 16 + len),
        };
        assert(parsed == first);
    }
}

} // verus!
