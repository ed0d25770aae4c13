//! Sections: a range of addresses together with the bytes stored there.
use crate::base::interval::{ascending, clear_of, covers, first_where, holds, overlaps};
use crate::base::interval::{lemma_first_where, lemma_first_where_unique};
use core::ops::Range;
use std::borrow::Cow;
use vstd::prelude::*;

verus! {

/// A stored section: its address range and its payload, borrowed from the
/// writer or owned.
pub type Section<'l> = (Range<u64>, Cow<'l, [u8]>);

/// What a section is in contracts: its range and its bytes.
pub struct Record {
    pub range: Range<u64>,
    pub data: Seq<u8>,
}

/// The record that a section stands for.
pub open spec fn record_of(section: Section<'_>) -> Record {
    Record { range: section.0, data: section.1@ }
}

/// The records that a collection of sections stands for, in order.
pub open spec fn records_of(sections: Seq<Section<'_>>) -> Seq<Record> {
    sections.map_values(|s: Section<'_>| record_of(s))
}

/// The ranges of the records, in order.
pub open spec fn ranges_of(records: Seq<Record>) -> Seq<Range<u64>> {
    records.map_values(|r: Record| r.range)
}

/// A record is sound when its range runs forward and its payload has exactly
/// the length of the range.
pub open spec fn sound(record: Record) -> bool {
    &&& record.range.start <= record.range.end
    &&& record.data.len() == record.range.end - record.range.start
}

/// Every record is sound.
pub open spec fn all_sound(records: Seq<Record>) -> bool {
    forall|i: int| 0 <= i < records.len() ==> sound(#[trigger] records[i])
}

/// Every record holds at least one byte.
pub open spec fn all_filled(records: Seq<Record>) -> bool {
    forall|i: int| 0 <= i < records.len() ==> (#[trigger] records[i]).data.len() > 0
}

/// The number of payload bytes in all records together.
pub open spec fn payload(records: Seq<Record>) -> nat
    decreases records.len(),
{
    if records.len() == 0 {
        0
    } else {
        payload(records.drop_last()) + records.last().data.len()
    }
}

/// `bounds` is the tight enclosing interval of the records: nothing for no
/// records, otherwise from the least start to the greatest end.
pub open spec fn tight(bounds: Option<Range<u64>>, records: Seq<Record>) -> bool {
    match bounds {
        None => records.len() == 0,
        Some(b) => {
            &&& forall|i: int|
                0 <= i < records.len() ==> b.start <= (#[trigger] records[i]).range.start
                    && records[i].range.end <= b.end
            &&& exists|i: int| 0 <= i < records.len() && (#[trigger] records[i]).range.start == b.start
            &&& exists|i: int| 0 <= i < records.len() && (#[trigger] records[i]).range.end == b.end
        },
    }
}

/// The bounds after one more range has been stored: the range itself at
/// first, and from then on the old bounds widened to take it in.
pub open spec fn widened(bounds: Option<Range<u64>>, range: Range<u64>) -> Range<u64> {
    match bounds {
        None => range,
        Some(b) => Range {
            start: if b.start <= range.start { b.start } else { range.start },
            end: if b.end >= range.end { b.end } else { range.end },
        },
    }
}

/// The records up to the last one that carries a byte. A scan of a persisted
/// layer ends once it has seen all the payload, so it reaches these and not
/// the empty records behind them.
pub open spec fn reachable(records: Seq<Record>) -> Seq<Record>
    decreases records.len(),
{
    if records.len() == 0 || records.last().data.len() > 0 {
        records
    } else {
        reachable(records.drop_last())
    }
}

/// The write cursor `(address, index)` sits between the records that end at
/// or before the address and those that start at or after it.
pub open spec fn cursor_fits(cursor: (u64, usize), records: Seq<Record>) -> bool {
    &&& cursor.1 <= records.len()
    &&& forall|i: int| 0 <= i < cursor.1 ==> (#[trigger] records[i]).range.end <= cursor.0
    &&& forall|i: int|
        cursor.1 <= i < records.len() ==> cursor.0 <= (#[trigger] records[i]).range.start
}

/// The records run in ascending order without colliding, and the write
/// cursor sits where a write at its address belongs.
pub open spec fn in_order(cursor: (u64, usize), records: Seq<Record>) -> bool {
    ascending(ranges_of(records)) && cursor_fits(cursor, records)
}

/// The index at which a write at `addr` is put: the cursor's index if the
/// cursor remembers `addr`, otherwise the index of the first record that
/// starts beyond `addr`, or the end if none does.
pub open spec fn slot(cursor: (u64, usize), records: Seq<Record>, addr: u64) -> int {
    if cursor.0 == addr {
        cursor.1 as int
    } else {
        first_where(ranges_of(records), |r: Range<u64>| r.start > addr)
    }
}

/// A write of `len` bytes at `addr` lands on the wrong side of a record that
/// starts at the same address. This takes an empty interval: either bytes are
/// written through the cursor although an empty record at `addr` lies at or
/// behind the cursor's index, or nothing is written, not through the cursor,
/// at the start of a record that holds bytes.
pub open spec fn misplaced(cursor: (u64, usize), records: Seq<Record>, addr: u64, len: nat) -> bool {
    if cursor.0 == addr {
        len > 0 && exists|i: int|
            cursor.1 <= i < records.len() && (#[trigger] records[i]).range.start == addr
                && records[i].range.end == addr
    } else {
        len == 0 && exists|i: int|
            0 <= i < records.len() && (#[trigger] records[i]).range.start == addr
                && records[i].range.end > addr
    }
}

/// What a read of `addr` finds: in the first record whose range fully
/// contains `addr`, where `addr` starts and ends counted from the record's
/// start, and the record's payload; nothing where no record contains `addr`.
pub open spec fn lookup(records: Seq<Record>, addr: Range<u64>) -> Option<(int, int, Seq<u8>)> {
    let k = first_where(ranges_of(records), |r: Range<u64>| covers(r, addr));
    if k < records.len() {
        Some(
            (
                addr.start - records[k].range.start,
                addr.end - records[k].range.start,
                records[k].data,
            ),
        )
    } else {
        None
    }
}

/// A read found its place in a record without a byte.
pub open spec fn in_empty_record(found: Option<(int, int, Seq<u8>)>) -> bool {
    match found {
        Some((_, _, data)) => data.len() == 0,
        None => false,
    }
}

/// The byte stored at the address `addr`: in the first record whose range
/// holds `addr`, the byte at that place; nothing where no record holds it.
pub open spec fn byte_at(records: Seq<Record>, addr: int) -> Option<u8> {
    let k = first_where(ranges_of(records), |r: Range<u64>| holds(r, addr));
    if k < records.len() {
        Some(records[k].data[addr - records[k].range.start])
    } else {
        None
    }
}

/// The payload of two runs of records is the sum of their payloads.
pub proof fn lemma_payload_concat(a: Seq<Record>, b: Seq<Record>)
    ensures
        payload(a + b) == payload(a) + payload(b),
    decreases b.len(),
{
    if b.len() == 0 {
        assert(a + b =~= a);
    } else {
        assert((a + b).drop_last() =~= a + b.drop_last());
        lemma_payload_concat(a, b.drop_last());
    }
}

/// The payload of a single record is its length.
pub proof fn lemma_payload_one(record: Record)
    ensures
        payload(seq![record]) == record.data.len(),
{
    assert(seq![record].drop_last() =~= Seq::<Record>::empty());
    assert(payload(Seq::<Record>::empty()) == 0);
}

/// A record put into the collection adds its length to the payload.
pub proof fn lemma_payload_insert(records: Seq<Record>, at: int, record: Record)
    requires
        0 <= at <= records.len(),
    ensures
        payload(records.insert(at, record)) == payload(records) + record.data.len(),
{
    let front = records.subrange(0, at);
    let back = records.subrange(at, records.len() as int);
    assert(records =~= front + back);
    assert(records.insert(at, record) =~= (front + seq![record]) + back);
    lemma_payload_concat(front, back);
    lemma_payload_concat(front + seq![record], back);
    lemma_payload_concat(front, seq![record]);
    lemma_payload_one(record);
}

/// A sound record put among sound records leaves all records sound.
pub proof fn lemma_sound_insert(records: Seq<Record>, at: int, record: Record)
    requires
        all_sound(records),
        sound(record),
        0 <= at <= records.len(),
    ensures
        all_sound(records.insert(at, record)),
{
    let after = records.insert(at, record);
    assert forall|i: int| 0 <= i < after.len() implies sound(#[trigger] after[i]) by {
        if i < at {
            assert(after[i] == records[i]);
        } else if i > at {
            assert(after[i] == records[i - 1]);
        }
    }
}

/// A record with a byte put among records with a byte leaves no record
/// empty.
pub proof fn lemma_filled_insert(records: Seq<Record>, at: int, record: Record)
    requires
        all_filled(records),
        record.data.len() > 0,
        0 <= at <= records.len(),
    ensures
        all_filled(records.insert(at, record)),
{
    let after = records.insert(at, record);
    assert forall|i: int| 0 <= i < after.len() implies (#[trigger] after[i]).data.len() > 0 by {
        if i < at {
            assert(after[i] == records[i]);
        } else if i > at {
            assert(after[i] == records[i - 1]);
        }
    }
}

/// A record put into the collection widens tight bounds into tight bounds.
pub proof fn lemma_tight_insert(
    bounds: Option<Range<u64>>,
    records: Seq<Record>,
    at: int,
    record: Record,
)
    requires
        tight(bounds, records),
        0 <= at <= records.len(),
    ensures
        tight(Some(widened(bounds, record.range)), records.insert(at, record)),
{
    let after = records.insert(at, record);
    let wide = widened(bounds, record.range);
    assert(after[at] == record);
    assert forall|i: int| 0 <= i < after.len() implies wide.start <= (#[trigger] after[i]).range.start
        && after[i].range.end <= wide.end by {
        if i < at {
            assert(after[i] == records[i]);
        } else if i > at {
            assert(after[i] == records[i - 1]);
        }
    }
    match bounds {
        None => {},
        Some(b) => {
            let lo = choose|i: int| 0 <= i < records.len() && (#[trigger] records[i]).range.start == b.start;
            let hi = choose|i: int| 0 <= i < records.len() && (#[trigger] records[i]).range.end == b.end;
            let lo_after = if lo < at { lo } else { lo + 1 };
            let hi_after = if hi < at { hi } else { hi + 1 };
            assert(after[lo_after] == records[lo]);
            assert(after[hi_after] == records[hi]);
        },
    }
}

/// The ranges of the records after one was put in are the ranges from
/// before with the new range put in at the same index.
pub proof fn lemma_ranges_insert(records: Seq<Record>, at: int, record: Record)
    requires
        0 <= at <= records.len(),
    ensures
        ranges_of(records.insert(at, record)) == ranges_of(records).insert(at, record.range),
{
    assert(ranges_of(records.insert(at, record)) =~= ranges_of(records).insert(at, record.range));
}

/// A write that collides with nothing and is not misplaced keeps the records
/// in order, and leaves the write cursor where the next write behind it
/// belongs.
pub proof fn lemma_write_keeps_order(
    cursor: (u64, usize),
    records: Seq<Record>,
    addr: u64,
    data: Seq<u8>,
)
    requires
        in_order(cursor, records),
        records.len() < usize::MAX,
        addr + data.len() <= u64::MAX,
        clear_of(ranges_of(records), Range { start: addr, end: (addr + data.len()) as u64 }),
        !misplaced(cursor, records, addr, data.len()),
    ensures
        0 <= slot(cursor, records, addr) <= records.len(),
        in_order(
            ((addr + data.len()) as u64, (slot(cursor, records, addr) + 1) as usize),
            records.insert(
                slot(cursor, records, addr),
                Record { range: Range { start: addr, end: (addr + data.len()) as u64 }, data },
            ),
        ),
{
    let range = Range { start: addr, end: (addr + data.len()) as u64 };
    let record = Record { range, data };
    let at = slot(cursor, records, addr);
    let ranges = ranges_of(records);
    let beyond = |r: Range<u64>| r.start > addr;
    lemma_first_where(ranges, beyond);
    // every record in front of the slot ends at or before the write, and
    // every record behind it starts at or behind the write's end
    assert forall|i: int| 0 <= i < at implies (#[trigger] records[i]).range.end <= addr by {
        assert(ranges[i] == records[i].range);
        assert(!overlaps(ranges[i], range));
        if cursor.0 != addr {
            assert(!beyond(ranges[i]));
        }
    }
    assert forall|i: int| at <= i < records.len() implies range.end <= (
    #[trigger] records[i]).range.start by {
        assert(ranges[i] == records[i].range);
        assert(!overlaps(ranges[i], range));
        assert(ranges[i].start <= ranges[i].end);
        if cursor.0 != addr {
            if i > at {
                assert(ranges[at].end <= ranges[i].start);
                assert(ranges[at].start <= ranges[at].end);
            }
            assert(beyond(ranges[at]));
        }
    }
    let after = records.insert(at, record);
    lemma_ranges_insert(records, at, record);
    let after_ranges = ranges_of(after);
    assert forall|i: int| 0 <= i < after_ranges.len() implies (#[trigger] after_ranges[i]).start
        <= after_ranges[i].end by {
        if i < at {
            assert(after_ranges[i] == ranges[i]);
        } else if i > at {
            assert(after_ranges[i] == ranges[i - 1]);
        }
    }
    assert forall|i: int, j: int| 0 <= i < j < after_ranges.len() implies (
    #[trigger] after_ranges[i]).end <= (#[trigger] after_ranges[j]).start by {
        let i0 = if i < at { i } else { i - 1 };
        let j0 = if j < at { j } else { j - 1 };
        if i != at {
            assert(after_ranges[i] == ranges[i0]);
            assert(ranges[i0] == records[i0].range);
        }
        if j != at {
            assert(after_ranges[j] == ranges[j0]);
            assert(ranges[j0] == records[j0].range);
        }
        if i != at && j != at {
            assert(ranges[i0].end <= ranges[j0].start);
        }
    }
    assert forall|i: int| 0 <= i < at + 1 implies (#[trigger] after[i]).range.end <= range.end by {
        if i < at {
            assert(after[i] == records[i]);
        }
    }
    assert forall|i: int| at + 1 <= i < after.len() implies range.end <= (
    #[trigger] after[i]).range.start by {
        assert(after[i] == records[i - 1]);
    }
}

/// A misplaced write leaves the records out of order: the condition leaves
/// out no write that would have kept them in order.
pub proof fn lemma_misplaced_breaks_order(
    cursor: (u64, usize),
    records: Seq<Record>,
    addr: u64,
    data: Seq<u8>,
)
    requires
        in_order(cursor, records),
        addr + data.len() <= u64::MAX,
        misplaced(cursor, records, addr, data.len()),
    ensures
        !ascending(
            ranges_of(
                records.insert(
                    slot(cursor, records, addr),
                    Record { range: Range { start: addr, end: (addr + data.len()) as u64 }, data },
                ),
            ),
        ),
{
    let range = Range { start: addr, end: (addr + data.len()) as u64 };
    let record = Record { range, data };
    let at = slot(cursor, records, addr);
    let ranges = ranges_of(records);
    let beyond = |r: Range<u64>| r.start > addr;
    lemma_first_where(ranges, beyond);
    lemma_ranges_insert(records, at, record);
    let after_ranges = ranges_of(records.insert(at, record));
    if cursor.0 == addr {
        let i = choose|i: int|
            cursor.1 <= i < records.len() && (#[trigger] records[i]).range.start == addr
                && records[i].range.end == addr;
        assert(after_ranges[at] == range);
        assert(after_ranges[i + 1] == ranges[i]);
        assert(ranges[i] == records[i].range);
        assert(after_ranges[at].end > after_ranges[i + 1].start);
    } else {
        let i = choose|i: int|
            0 <= i < records.len() && (#[trigger] records[i]).range.start == addr
                && records[i].range.end > addr;
        assert(ranges[i] == records[i].range);
        if i >= at {
            if i > at {
                assert(ranges[at].end <= ranges[i].start);
                assert(ranges[at].start <= ranges[at].end);
            }
            assert(beyond(ranges[at]));
        }
        assert(after_ranges[i] == ranges[i]);
        assert(after_ranges[at] == range);
        assert(after_ranges[i].end > after_ranges[at].start);
    }
}

/// Records that run in ascending order without colliding hold no more bytes
/// than lie between the first start and the last end.
pub proof fn lemma_payload_fits(records: Seq<Record>)
    requires
        all_sound(records),
        ascending(ranges_of(records)),
        records.len() > 0,
    ensures
        payload(records) <= records.last().range.end - records[0].range.start,
    decreases records.len(),
{
    let front = records.drop_last();
    let ranges = ranges_of(records);
    assert(ranges[records.len() - 1] == records.last().range);
    assert(ranges[0] == records[0].range);
    if front.len() > 0 {
        assert(ascending(ranges_of(front))) by {
            assert forall|i: int| 0 <= i < front.len() implies #[trigger] ranges_of(front)[i]
                == ranges[i] by {}
        }
        lemma_payload_fits(front);
        assert(ranges[front.len() - 1] == front.last().range);
        assert(ranges[front.len() - 1].end <= ranges[records.len() - 1].start);
        assert(sound(records[records.len() - 1]));
    } else {
        assert(payload(front) == 0);
        assert(sound(records[0]));
    }
}

/// Records without a byte have nothing that a scan would reach.
pub proof fn lemma_reachable_none(records: Seq<Record>)
    requires
        payload(records) == 0,
    ensures
        reachable(records) == Seq::<Record>::empty(),
    decreases records.len(),
{
    if records.len() > 0 {
        lemma_reachable_none(records.drop_last());
    } else {
        assert(records =~= Seq::empty());
    }
}

/// While a byte is left behind the first record, a scan reaches the first
/// record and then whatever it reaches of the others.
pub proof fn lemma_reachable_first(first: Record, others: Seq<Record>)
    requires
        payload(seq![first] + others) > 0,
    ensures
        reachable(seq![first] + others) == seq![first] + reachable(others),
    decreases others.len(),
{
    let all = seq![first] + others;
    lemma_payload_concat(seq![first], others);
    lemma_payload_one(first);
    if others.len() == 0 {
        assert(all =~= seq![first]);
        assert(reachable(others) =~= Seq::<Record>::empty());
        assert(seq![first] + reachable(others) =~= seq![first]);
    } else if others.last().data.len() > 0 {
        assert(all.last() == others.last());
    } else {
        assert(all.last() == others.last());
        assert(all.drop_last() =~= seq![first] + others.drop_last());
        lemma_payload_concat(seq![first], others.drop_last());
        lemma_reachable_first(first, others.drop_last());
    }
}

/// What a scan reaches is a leading part of the records, and holds every
/// record that carries a byte.
pub proof fn lemma_reachable_prefix(records: Seq<Record>)
    ensures
        reachable(records).len() <= records.len(),
        reachable(records) == records.take(reachable(records).len() as int),
        forall|i: int|
            reachable(records).len() <= i < records.len() ==> (#[trigger] records[i]).data.len()
                == 0,
    decreases records.len(),
{
    if records.len() == 0 || records.last().data.len() > 0 {
        assert(records.take(records.len() as int) =~= records);
    } else {
        let front = records.drop_last();
        lemma_reachable_prefix(front);
        let n = reachable(front).len() as int;
        assert(front.take(n) =~= records.take(n));
        assert forall|i: int| n <= i < records.len() implies (#[trigger] records[i]).data.len()
            == 0 by {
            if i < front.len() {
                assert(front[i] == records[i]);
            }
        }
    }
}

/// A read finds the same in the records a scan reaches as in all records,
/// with one exception: a read of no address at all that found its place in
/// an empty record behind the last record that holds a byte finds nothing.
pub proof fn lemma_lookup_reachable(records: Seq<Record>, addr: Range<u64>)
    requires
        all_sound(records),
    ensures
        lookup(reachable(records), addr) == lookup(records, addr) || (addr.start >= addr.end
            && lookup(reachable(records), addr) is None && in_empty_record(
            lookup(records, addr),
        )),
        addr.start < addr.end ==> lookup(reachable(records), addr) == lookup(records, addr),
{
    lemma_reachable_prefix(records);
    let reach = reachable(records);
    let wanted = |r: Range<u64>| covers(r, addr);
    lemma_first_where(ranges_of(records), wanted);
    lemma_first_where(ranges_of(reach), wanted);
    let k = first_where(ranges_of(records), wanted);
    if k < records.len() {
        assert(ranges_of(records)[k] == records[k].range);
        assert(sound(records[k]));
        if addr.start < addr.end {
            assert(k < reach.len());
        }
    }
    let bound = if k < reach.len() { k } else { reach.len() as int };
    assert forall|i: int| 0 <= i < bound implies !wanted(#[trigger] ranges_of(reach)[i]) by {
        assert(ranges_of(reach)[i] == ranges_of(records)[i]);
    }
    if k < reach.len() {
        assert(ranges_of(reach)[k] == ranges_of(records)[k]);
    }
    lemma_first_where_unique(ranges_of(reach), wanted, bound);
    if k < reach.len() {
        assert(reach[k] == records[k]);
    }
}

/// A read finds a record exactly if some record contains the range.
pub proof fn lemma_lookup_iff_covered(records: Seq<Record>, addr: Range<u64>)
    ensures
        lookup(records, addr) is Some <==> exists|i: int|
            0 <= i < records.len() && covers((#[trigger] records[i]).range, addr),
{
    let wanted = |r: Range<u64>| covers(r, addr);
    lemma_first_where(ranges_of(records), wanted);
    let k = first_where(ranges_of(records), wanted);
    if k < records.len() {
        assert(ranges_of(records)[k] == records[k].range);
    }
    if exists|i: int| 0 <= i < records.len() && covers((#[trigger] records[i]).range, addr) {
        let i = choose|i: int| 0 <= i < records.len() && covers((#[trigger] records[i]).range, addr);
        assert(wanted(ranges_of(records)[i]));
    }
}

/// The records a scan reaches store the same byte at every address as all
/// records do.
pub proof fn lemma_byte_at_reachable(records: Seq<Record>, addr: int)
    requires
        all_sound(records),
    ensures
        byte_at(reachable(records), addr) == byte_at(records, addr),
{
    lemma_reachable_prefix(records);
    let reach = reachable(records);
    let wanted = |r: Range<u64>| holds(r, addr);
    lemma_first_where(ranges_of(records), wanted);
    lemma_first_where(ranges_of(reach), wanted);
    let k = first_where(ranges_of(records), wanted);
    if k < records.len() {
        assert(ranges_of(records)[k] == records[k].range);
        assert(sound(records[k]));
        assert(k < reach.len());
    }
    let bound = if k < reach.len() { k } else { reach.len() as int };
    assert forall|i: int| 0 <= i < bound implies !wanted(#[trigger] ranges_of(reach)[i]) by {
        assert(ranges_of(reach)[i] == ranges_of(records)[i]);
    }
    if k < reach.len() {
        assert(ranges_of(reach)[k] == ranges_of(records)[k]);
    }
    lemma_first_where_unique(ranges_of(reach), wanted, bound);
    if k < reach.len() {
        assert(reach[k] == records[k]);
    }
}

/// What a read finds lies within the payload it returns, has the length of
/// the range that was asked for, and holds at each address the byte stored
/// there.
pub proof fn lemma_read_is_stored(records: Seq<Record>, addr: Range<u64>, a: int)
    requires
        all_sound(records),
        ascending(ranges_of(records)),
        addr.start <= addr.end,
        lookup(records, addr) is Some,
    ensures
        ({
            let (from, to, data) = lookup(records, addr)->0;
            &&& 0 <= from <= to <= data.len()
            &&& to - from == addr.end - addr.start
            &&& addr.start <= a < addr.end ==> byte_at(records, a) == Some(
                data[from + (a - addr.start)],
            )
        }),
{
    let ranges = ranges_of(records);
    let wanted = |r: Range<u64>| covers(r, addr);
    lemma_first_where(ranges, wanted);
    let k = first_where(ranges, wanted);
    assert(ranges[k] == records[k].range);
    assert(sound(records[k]));
    if addr.start <= a < addr.end {
        let holding = |r: Range<u64>| holds(r, a);
        lemma_first_where(ranges, holding);
        let h = first_where(ranges, holding);
        if h > k {
            assert(!holding(ranges[k]));
        }
        if h < k {
            assert(ranges[h].end <= ranges[k].start);
        }
        assert(h == k);
    }
}

/// A record written where nothing collides with it stores its bytes at its
/// addresses and leaves every other address as it was.
pub proof fn lemma_write_sets_bytes(records: Seq<Record>, at: int, record: Record, a: int)
    requires
        0 <= at <= records.len(),
        clear_of(ranges_of(records), record.range),
    ensures
        byte_at(records.insert(at, record), a) == if holds(record.range, a) {
            Some(record.data[a - record.range.start])
        } else {
            byte_at(records, a)
        },
{
    let ranges = ranges_of(records);
    let after = records.insert(at, record);
    lemma_ranges_insert(records, at, record);
    let after_ranges = ranges_of(after);
    let holding = |r: Range<u64>| holds(r, a);
    lemma_first_where(ranges, holding);
    let h = first_where(ranges, holding);
    if holds(record.range, a) {
        assert forall|i: int| 0 <= i < at implies !holding(#[trigger] after_ranges[i]) by {
            assert(after_ranges[i] == ranges[i]);
            assert(!overlaps(ranges[i], record.range));
        }
        assert(after_ranges[at] == record.range);
        lemma_first_where_unique(after_ranges, holding, at);
    } else {
        let moved = if h < at { h } else { h + 1 };
        assert forall|i: int| 0 <= i < moved implies !holding(#[trigger] after_ranges[i]) by {
            if i < at {
                assert(after_ranges[i] == ranges[i]);
            } else if i > at {
                assert(after_ranges[i] == ranges[i - 1]);
            }
        }
        if h < records.len() {
            assert(after_ranges[moved] == ranges[h]);
            assert(after[moved] == records[h]);
        }
        lemma_first_where_unique(after_ranges, holding, moved);
    }
}

} // verus!
