//! What holds of a layer across its operations: writes that keep it in
//! order, collision checks that split a range into taken and free, reads that
//! give back what was written, and a persisted image that reads like the
//! layer it was made from.
use crate::base::codec::{be_bytes, header_bounds, header_image, header_size, layer_image};
use crate::base::codec::{lemma_be_round_trip, lemma_scan_image, lemma_scan_sound, records_image};
use crate::base::codec::{lemma_scan_error, REWIND_IDX};
use crate::base::interval::{ascending, collisions, covers, gaps, holds, inside, overlaps};
use crate::base::interval::{lemma_gaps_span, span, touches};
use crate::base::interval::{lemma_ascending_sorted, lemma_collisions_ascending};
use crate::base::interval::lemma_collisions_none;
use crate::base::interval::{lemma_collisions_touch, lemma_first_where, lemma_gaps_ascending};
use crate::base::interval::{lemma_gaps_clear_of_stored, lemma_gaps_complement};
use crate::base::layer::{written_over, LayerView};
use crate::base::section::{all_filled, all_sound, byte_at, in_empty_record, lookup, misplaced};
use crate::base::section::{payload, ranges_of, reachable, slot, sound, tight, Record};
use crate::base::section::{lemma_byte_at_reachable, lemma_lookup_iff_covered};
use crate::base::section::{lemma_filled_insert, lemma_lookup_reachable, lemma_payload_fits};
use crate::base::section::{lemma_payload_insert, lemma_sound_insert};
use crate::base::section::{lemma_read_is_stored, lemma_reachable_prefix, lemma_tight_insert};
use crate::base::section::{lemma_write_keeps_order, lemma_write_sets_bytes};
use crate::errors::{corrupt_section, Error};
use core::ops::Range;
use vstd::prelude::*;

verus! {

/// Every record that can be read from a well-formed layer is sound, in
/// memory and on disk.
pub proof fn lemma_records_sound(layer: LayerView)
    requires
        layer.wf(),
    ensures
        all_sound(layer.records()),
{
    if !layer.heap {
        lemma_scan_sound(layer.stream, REWIND_IDX as int, layer.size as int);
    }
}

/// A walk over the sections fails only on disk, and only with the error for
/// a damaged section record. So a collision check fails with no other error,
/// and a read with no other but out of bounds.
pub proof fn lemma_fault_is_corruption(layer: LayerView)
    ensures
        layer.fault() is Some ==> !layer.heap && layer.fault() == Some(corrupt_section()),
        forall|range: Range<u64>|
            (#[trigger] layer.taken(range)) is Err ==> layer.taken(range) == Err::<
                Seq<Range<u64>>,
                Error,
            >(corrupt_section()),
        forall|addr: Range<u64>|
            (#[trigger] layer.read(addr)) is Err ==> layer.read(addr) == Err::<
                (int, int, Seq<u8>),
                Error,
            >(corrupt_section()) || layer.read(addr) == Err::<(int, int, Seq<u8>), Error>(
                Error::OutOfBounds,
            ),
{
    if !layer.heap {
        lemma_scan_error(layer.stream, REWIND_IDX as int, layer.size as int);
    }
}

/// A write that fits leaves a well-formed layer in memory well formed: its
/// bounds are tight and its size is its payload, wherever the section went.
pub proof fn lemma_written_wf(before: LayerView, idx: u64, data: Seq<u8>)
    requires
        before.wf(),
        before.heap,
        before.resident.len() < usize::MAX,
        idx + data.len() <= u64::MAX,
        before.size + data.len() <= u64::MAX,
    ensures
        before.written(idx, data).wf(),
        before.written(idx, data).heap,
{
    let record = Record { range: Range { start: idx, end: (idx + data.len()) as u64 }, data };
    let at = slot(before.write_cursor, before.resident, idx);
    lemma_first_where(ranges_of(before.resident), |r: Range<u64>| r.start > idx);
    lemma_payload_insert(before.resident, at, record);
    lemma_tight_insert(before.bounds, before.resident, at, record);
    lemma_sound_insert(before.resident, at, record);
}

/// A write into a layer in memory that is in order, at addresses where
/// nothing is stored, and not misplaced, fits: the size does not overflow,
/// the layer stays well formed, with tight bounds and the size of its
/// payload, and the layer stays in order.
pub proof fn lemma_write_in_order(before: LayerView, idx: u64, data: Seq<u8>)
    requires
        before.wf(),
        before.heap,
        before.ordered(),
        before.resident.len() < usize::MAX,
        idx + data.len() <= u64::MAX,
        before.free(idx, data.len()),
        !misplaced(before.write_cursor, before.resident, idx, data.len()),
    ensures
        before.size + data.len() <= u64::MAX,
        before.written(idx, data).wf(),
        before.written(idx, data).ordered(),
{
    let record = Record { range: Range { start: idx, end: (idx + data.len()) as u64 }, data };
    let at = slot(before.write_cursor, before.resident, idx);
    let after = before.resident.insert(at, record);
    lemma_write_keeps_order(before.write_cursor, before.resident, idx, data);
    lemma_payload_insert(before.resident, at, record);
    lemma_sound_insert(before.resident, at, record);
    lemma_payload_fits(after);
    lemma_written_wf(before, idx, data);
}

/// The layer after a run of writes, each given by its address and its bytes.
pub open spec fn after_writes(start: LayerView, writes: Seq<(u64, Seq<u8>)>) -> LayerView
    decreases writes.len(),
{
    if writes.len() == 0 {
        start
    } else {
        after_writes(start, writes.drop_last()).written(writes.last().0, writes.last().1)
    }
}

/// Every write of the run is one that keeps to the rule for writes: when its
/// turn comes it stays within the addresses, the size of the layer does not
/// overflow, the collection has room for one more section, and nothing
/// stored collides with it.
pub open spec fn writes_allowed(start: LayerView, writes: Seq<(u64, Seq<u8>)>) -> bool
    decreases writes.len(),
{
    writes.len() == 0 || {
        let before = after_writes(start, writes.drop_last());
        let (idx, data) = writes.last();
        &&& writes_allowed(start, writes.drop_last())
        &&& before.resident.len() < usize::MAX
        &&& idx + data.len() <= u64::MAX
        &&& before.size + data.len() <= u64::MAX
        &&& before.free(idx, data.len())
    }
}

/// No write of the run is misplaced when its turn comes.
pub open spec fn none_misplaced(start: LayerView, writes: Seq<(u64, Seq<u8>)>) -> bool
    decreases writes.len(),
{
    writes.len() == 0 || {
        let before = after_writes(start, writes.drop_last());
        let (idx, data) = writes.last();
        &&& none_misplaced(start, writes.drop_last())
        &&& !misplaced(before.write_cursor, before.resident, idx, data.len())
    }
}

/// The sections that a run of writes stores, in the order of the writes.
pub open spec fn records_written(writes: Seq<(u64, Seq<u8>)>) -> Seq<Record> {
    writes.map_values(
        |w: (u64, Seq<u8>)|
            Record { range: Range { start: w.0, end: (w.0 + w.1.len()) as u64 }, data: w.1 },
    )
}

/// After any run of writes into a fresh layer the books are right: the
/// layer is well formed, its size is the number of bytes written, and its
/// bounds run from the least start to the greatest end of the sections
/// written, or are nothing if nothing was written.
pub proof fn lemma_writes_keep_books(start: LayerView, writes: Seq<(u64, Seq<u8>)>)
    requires
        start.wf(),
        start.heap,
        start.resident.len() == 0,
        writes_allowed(start, writes),
    ensures
        after_writes(start, writes).wf(),
        after_writes(start, writes).heap,
        after_writes(start, writes).size == payload(records_written(writes)),
        tight(after_writes(start, writes).bounds, records_written(writes)),
    decreases writes.len(),
{
    if writes.len() == 0 {
        assert(records_written(writes) =~= Seq::<Record>::empty());
        assert(start.resident =~= Seq::<Record>::empty());
    } else {
        let earlier = writes.drop_last();
        let (idx, data) = writes.last();
        let before = after_writes(start, earlier);
        lemma_writes_keep_books(start, earlier);
        lemma_written_wf(before, idx, data);
        let record = Record { range: Range { start: idx, end: (idx + data.len()) as u64 }, data };
        let stored = records_written(earlier);
        assert(records_written(writes) =~= stored.push(record));
        assert(stored.push(record).drop_last() =~= stored);
        assert(stored.push(record) =~= stored.insert(stored.len() as int, record));
        lemma_tight_insert(before.bounds, stored, stored.len() as int, record);
    }
}

/// Any run of writes where nothing is stored, none of them misplaced, keeps
/// a layer in order: its sections stay sorted by their starts, and no two of
/// them collide.
pub proof fn lemma_writes_keep_order(start: LayerView, writes: Seq<(u64, Seq<u8>)>)
    requires
        start.wf(),
        start.heap,
        start.ordered(),
        writes_allowed(start, writes),
        none_misplaced(start, writes),
    ensures
        after_writes(start, writes).wf(),
        after_writes(start, writes).heap,
        after_writes(start, writes).ordered(),
        ({
            let stored = ranges_of(after_writes(start, writes).resident);
            &&& forall|i: int, j: int|
                0 <= i < j < stored.len() ==> (#[trigger] stored[i]).start <= (
                #[trigger] stored[j]).start
            &&& forall|i: int, j: int|
                0 <= i < stored.len() && 0 <= j < stored.len() && i != j ==> !overlaps(
                    #[trigger] stored[i],
                    #[trigger] stored[j],
                )
        }),
    decreases writes.len(),
{
    if writes.len() > 0 {
        let earlier = writes.drop_last();
        let (idx, data) = writes.last();
        lemma_writes_keep_order(start, earlier);
        lemma_write_in_order(after_writes(start, earlier), idx, data);
    }
    lemma_ascending_sorted(ranges_of(after_writes(start, writes).resident));
}

/// On a well-formed layer in memory the look at the bounds changes nothing:
/// a collision check gives the collisions of the range with the records.
pub proof fn lemma_bounds_filter_exact(layer: LayerView, range: Range<u64>)
    requires
        layer.wf(),
        layer.heap,
    ensures
        layer.taken(range) == Ok::<Seq<Range<u64>>, Error>(
            collisions(ranges_of(layer.resident), range),
        ),
{
    let ranges = ranges_of(layer.resident);
    match layer.bounds {
        None => {
            lemma_collisions_none(ranges, range);
        },
        Some(b) => {
            if !overlaps(b, range) {
                assert forall|i: int| 0 <= i < ranges.len() implies !overlaps(
                    #[trigger] ranges[i],
                    range,
                ) by {
                    assert(ranges[i] == layer.resident[i].range);
                    assert(sound(layer.resident[i]));
                }
                lemma_collisions_none(ranges, range);
            }
        },
    }
}

/// A collision check finds what is stored: on a well-formed layer in
/// memory, an address lies in one of the collisions of a range exactly if it
/// lies in the range and in a stored section.
pub proof fn lemma_taken_is_stored(layer: LayerView, range: Range<u64>, addr: int)
    requires
        layer.wf(),
        layer.heap,
    ensures
        touches(layer.taken(range)->Ok_0, addr) <==> holds(range, addr) && touches(
            ranges_of(layer.resident),
            addr,
        ),
{
    lemma_bounds_filter_exact(layer, range);
    lemma_collisions_touch(ranges_of(layer.resident), range, addr);
}

/// What a collision check finds in a range, and the free space around it,
/// split the range between them. On a layer with its sections in ascending
/// order, for a range that runs forward: the collisions are sorted, collide
/// with nothing among themselves and lie within the range; so does the free
/// space, which has no empty stretch; and every address of the range lies in
/// exactly one of the two, so that the two together have as many addresses as
/// the range.
pub proof fn lemma_taken_and_free_split(layer: LayerView, range: Range<u64>)
    requires
        ascending(ranges_of(layer.records())),
        range.start <= range.end,
        layer.taken(range) is Ok,
    ensures
        ({
            let taken = layer.taken(range)->Ok_0;
            let free = gaps(range.start, range.end, taken);
            &&& ascending(taken)
            &&& inside(taken, range)
            &&& ascending(free)
            &&& inside(free, range)
            &&& forall|k: int| 0 <= k < free.len() ==> (#[trigger] free[k]).start < free[k].end
            &&& forall|addr: int|
                holds(range, addr) ==> (#[trigger] touches(taken, addr)) != touches(free, addr)
            &&& span(taken) + span(free) == range.end - range.start
        }),
{
    let taken = layer.taken(range)->Ok_0;
    let free = gaps(range.start, range.end, taken);
    if taken.len() > 0 {
        lemma_collisions_ascending(ranges_of(layer.records()), range);
    }
    lemma_gaps_ascending(range.start, range.end, taken);
    lemma_gaps_span(range.start, range.end, taken);
    assert forall|addr: int| holds(range, addr) implies (#[trigger] touches(taken, addr))
        != touches(free, addr) by {
        lemma_gaps_complement(range.start, range.end, taken, addr);
    }
}

/// What the two checks report as free can be written: on a well-formed layer
/// in memory with its sections in ascending order, nothing stored collides
/// with any part of a gap between the collisions of a range.
pub proof fn lemma_free_space_is_free(
    layer: LayerView,
    range: Range<u64>,
    k: int,
    idx: u64,
    len: nat,
)
    requires
        layer.wf(),
        layer.heap,
        ascending(ranges_of(layer.resident)),
        range.start <= range.end,
        0 <= k < gaps(range.start, range.end, layer.taken(range)->Ok_0).len(),
        idx + len <= u64::MAX,
        covers(
            gaps(range.start, range.end, layer.taken(range)->Ok_0)[k],
            Range { start: idx, end: (idx + len) as u64 },
        ),
    ensures
        layer.free(idx, len),
{
    lemma_bounds_filter_exact(layer, range);
    lemma_gaps_clear_of_stored(
        ranges_of(layer.resident),
        range,
        k,
        Range { start: idx, end: (idx + len) as u64 },
    );
}

/// Writing what the two checks report as free keeps a layer in order. On a
/// well-formed layer in memory that is in order and has no empty section, a
/// write of at least one byte into a gap between the collisions of a range
/// is a write where nothing is stored and is not misplaced; after it the
/// layer is well formed and in order, and still has no empty section.
pub proof fn lemma_gap_write_in_order(
    before: LayerView,
    range: Range<u64>,
    k: int,
    idx: u64,
    data: Seq<u8>,
)
    requires
        before.wf(),
        before.heap,
        before.ordered(),
        all_filled(before.resident),
        before.resident.len() < usize::MAX,
        range.start <= range.end,
        0 <= k < gaps(range.start, range.end, before.taken(range)->Ok_0).len(),
        data.len() > 0,
        idx + data.len() <= u64::MAX,
        covers(
            gaps(range.start, range.end, before.taken(range)->Ok_0)[k],
            Range { start: idx, end: (idx + data.len()) as u64 },
        ),
    ensures
        before.free(idx, data.len()),
        !misplaced(before.write_cursor, before.resident, idx, data.len()),
        before.size + data.len() <= u64::MAX,
        before.written(idx, data).wf(),
        before.written(idx, data).ordered(),
        all_filled(before.written(idx, data).resident),
{
    lemma_free_space_is_free(before, range, k, idx, data.len());
    if before.write_cursor.0 == idx {
        if misplaced(before.write_cursor, before.resident, idx, data.len()) {
            let i = choose|i: int|
                before.write_cursor.1 <= i < before.resident.len() && (
                #[trigger] before.resident[i]).range.start == idx && before.resident[i].range.end
                    == idx;
            assert(sound(before.resident[i]));
        }
    }
    lemma_write_in_order(before, idx, data);
    lemma_write_keeps_order(before.write_cursor, before.resident, idx, data);
    lemma_filled_insert(
        before.resident,
        slot(before.write_cursor, before.resident, idx),
        Record { range: Range { start: idx, end: (idx + data.len()) as u64 }, data },
    );
}

/// A read succeeds exactly if some section contains all of the range. On a
/// layer on disk the sections are those that a walk yields before it ends.
pub proof fn lemma_read_succeeds_iff_covered(layer: LayerView, addr: Range<u64>)
    ensures
        layer.read(addr) is Ok <==> exists|i: int|
            0 <= i < layer.records().len() && covers((#[trigger] layer.records()[i]).range, addr),
{
    lemma_lookup_iff_covered(layer.records(), addr);
}

/// A read of addresses that were just written gives back the bytes written
/// there: the place it returns, applied to the payload it returns, is the
/// part of `data` at those addresses.
pub proof fn lemma_read_back(before: LayerView, idx: u64, data: Seq<u8>, addr: Range<u64>)
    requires
        before.wf(),
        before.heap,
        before.ordered(),
        before.resident.len() < usize::MAX,
        idx + data.len() <= u64::MAX,
        before.free(idx, data.len()),
        !misplaced(before.write_cursor, before.resident, idx, data.len()),
        addr.start <= addr.end,
        covers(Range { start: idx, end: (idx + data.len()) as u64 }, addr),
    ensures
        before.written(idx, data).read(addr) is Ok,
        ({
            let (from, to, payload) = before.written(idx, data).read(addr)->Ok_0;
            &&& 0 <= from <= to <= payload.len()
            &&& payload.subrange(from, to) == data.subrange(addr.start - idx, addr.end - idx)
        }),
{
    let range = Range { start: idx, end: (idx + data.len()) as u64 };
    let record = Record { range, data };
    let at = slot(before.write_cursor, before.resident, idx);
    let after = before.written(idx, data);
    lemma_write_in_order(before, idx, data);
    lemma_write_keeps_order(before.write_cursor, before.resident, idx, data);
    assert(after.resident[at] == record);
    lemma_lookup_iff_covered(after.resident, addr);
    let (from, to, payload) = lookup(after.resident, addr)->0;
    lemma_read_is_stored(after.resident, addr, addr.start as int);
    let got = payload.subrange(from, to);
    let put = data.subrange(addr.start - idx, addr.end - idx);
    assert forall|k: int| 0 <= k < to - from implies #[trigger] got[k] == put[k] by {
        let a = addr.start + k;
        lemma_read_is_stored(after.resident, addr, a);
        lemma_write_sets_bytes(before.resident, at, record, a);
    }
    assert(got =~= put);
}

/// A write where nothing is stored puts its bytes at its addresses and
/// changes nothing at the others: every byte stored before is stored after,
/// and no other address gets one.
pub proof fn lemma_write_keeps_bytes(before: LayerView, idx: u64, data: Seq<u8>, a: int)
    requires
        before.wf(),
        before.heap,
        idx + data.len() <= u64::MAX,
        before.free(idx, data.len()),
    ensures
        byte_at(before.written(idx, data).records(), a) == if idx <= a < idx + data.len() {
            Some(data[a - idx])
        } else {
            byte_at(before.records(), a)
        },
{
    let range = Range { start: idx, end: (idx + data.len()) as u64 };
    let record = Record { range, data };
    let at = slot(before.write_cursor, before.resident, idx);
    lemma_first_where(ranges_of(before.resident), |r: Range<u64>| r.start > idx);
    lemma_write_sets_bytes(before.resident, at, record, a);
}

/// A section outlives the writes that come after it. After any run of
/// writes that keep to the rule for writes, a section that was stored before
/// is still stored, and each of its addresses still stores the byte it
/// stored before.
pub proof fn lemma_section_survives(
    start: LayerView,
    writes: Seq<(u64, Seq<u8>)>,
    at: int,
    a: int,
)
    requires
        start.wf(),
        start.heap,
        writes_allowed(start, writes),
        0 <= at < start.resident.len(),
    ensures
        after_writes(start, writes).wf(),
        after_writes(start, writes).heap,
        exists|i: int|
            0 <= i < after_writes(start, writes).resident.len() && #[trigger] after_writes(
                start,
                writes,
            ).resident[i] == start.resident[at],
        holds(start.resident[at].range, a) ==> byte_at(after_writes(start, writes).records(), a)
            == byte_at(start.records(), a),
    decreases writes.len(),
{
    if writes.len() > 0 {
        let earlier = writes.drop_last();
        let (idx, data) = writes.last();
        let before = after_writes(start, earlier);
        let after = after_writes(start, writes);
        lemma_section_survives(start, earlier, at, a);
        lemma_written_wf(before, idx, data);
        let i = choose|i: int|
            0 <= i < before.resident.len() && #[trigger] before.resident[i] == start.resident[at];
        let put = slot(before.write_cursor, before.resident, idx);
        lemma_first_where(ranges_of(before.resident), |r: Range<u64>| r.start > idx);
        let moved = if i < put { i } else { i + 1 };
        assert(after.resident[moved] == before.resident[i]);
        if holds(start.resident[at].range, a) {
            lemma_write_keeps_bytes(before, idx, data, a);
            assert(ranges_of(before.resident)[i] == before.resident[i].range);
            assert(!overlaps(
                ranges_of(before.resident)[i],
                Range { start: idx, end: (idx + data.len()) as u64 },
            ));
        }
    }
}

/// A read gives back what was written, whatever was written afterwards.
/// After a write and any run of later writes, all where nothing is stored
/// and none misplaced, a read within the addresses of the first write
/// succeeds, and the place it returns, applied to the payload it returns, is
/// the part of `data` at those addresses.
pub proof fn lemma_read_back_after_writes(
    before: LayerView,
    idx: u64,
    data: Seq<u8>,
    later: Seq<(u64, Seq<u8>)>,
    addr: Range<u64>,
)
    requires
        before.wf(),
        before.heap,
        before.ordered(),
        before.resident.len() < usize::MAX,
        idx + data.len() <= u64::MAX,
        before.free(idx, data.len()),
        !misplaced(before.write_cursor, before.resident, idx, data.len()),
        writes_allowed(before.written(idx, data), later),
        none_misplaced(before.written(idx, data), later),
        addr.start <= addr.end,
        covers(Range { start: idx, end: (idx + data.len()) as u64 }, addr),
    ensures
        after_writes(before.written(idx, data), later).read(addr) is Ok,
        ({
            let (from, to, payload) = after_writes(before.written(idx, data), later).read(
                addr,
            )->Ok_0;
            &&& 0 <= from <= to <= payload.len()
            &&& payload.subrange(from, to) == data.subrange(addr.start - idx, addr.end - idx)
        }),
{
    let record = Record { range: Range { start: idx, end: (idx + data.len()) as u64 }, data };
    let first = before.written(idx, data);
    let last = after_writes(first, later);
    let at = slot(before.write_cursor, before.resident, idx);
    lemma_write_in_order(before, idx, data);
    lemma_write_keeps_order(before.write_cursor, before.resident, idx, data);
    assert(first.resident[at] == record);
    lemma_writes_keep_order(first, later);
    lemma_section_survives(first, later, at, addr.start as int);
    lemma_lookup_iff_covered(last.resident, addr);
    let (from, to, payload) = lookup(last.resident, addr)->0;
    lemma_read_is_stored(last.resident, addr, addr.start as int);
    let got = payload.subrange(from, to);
    let put = data.subrange(addr.start - idx, addr.end - idx);
    assert forall|k: int| 0 <= k < to - from implies #[trigger] got[k] == put[k] by {
        let a = addr.start + k;
        lemma_read_is_stored(last.resident, addr, a);
        lemma_section_survives(first, later, at, a);
        lemma_write_keeps_bytes(before, idx, data, a);
    }
    assert(got =~= put);
}

/// A successful read gives the bytes that are stored at the addresses asked
/// for. On a well-formed layer in order, in memory or on disk, the place a
/// read returns lies within the payload it returns and has the length of
/// the range, and the payload holds there, address by address, what is
/// stored.
pub proof fn lemma_read_gives_stored_bytes(layer: LayerView, addr: Range<u64>, a: int)
    requires
        layer.wf(),
        layer.ordered(),
        addr.start <= addr.end,
        layer.read(addr) is Ok,
        addr.start <= a < addr.end,
    ensures
        ({
            let (from, to, payload) = layer.read(addr)->Ok_0;
            &&& 0 <= from <= to <= payload.len()
            &&& to - from == addr.end - addr.start
            &&& byte_at(layer.records(), a) == Some(payload[from + (a - addr.start)])
        }),
{
    lemma_records_sound(layer);
    lemma_read_is_stored(layer.records(), addr, a);
}

/// The header of an image declares the size and the bounds it was written
/// with, whatever follows it.
pub proof fn lemma_header_round_trip(size: u64, bounds: Range<u64>, bytes: Seq<u8>)
    requires
        bytes.len() >= 24,
        bytes.subrange(0, 24) == header_image(size, bounds),
    ensures
        header_size(bytes) == size,
        header_bounds(bytes) == bounds,
{
    lemma_be_round_trip(size);
    lemma_be_round_trip(bounds.start);
    lemma_be_round_trip(bounds.end);
    let header = header_image(size, bounds);
    assert(bytes.subrange(0, 8) =~= be_bytes(size)) by {
        assert forall|k: int| 0 <= k < 8 implies bytes[k] == be_bytes(size)[k] by {
            assert(bytes[k] == bytes.subrange(0, 24)[k]);
            assert(header[k] == be_bytes(size)[k]);
        }
    }
    assert(bytes.subrange(8, 16) =~= be_bytes(bounds.start)) by {
        assert forall|k: int| 0 <= k < 8 implies bytes[8 + k] == be_bytes(bounds.start)[k] by {
            assert(bytes[8 + k] == bytes.subrange(0, 24)[8 + k]);
            assert(header[8 + k] == be_bytes(bounds.start)[k]);
        }
    }
    assert(bytes.subrange(16, 24) =~= be_bytes(bounds.end)) by {
        assert forall|k: int| 0 <= k < 8 implies bytes[16 + k] == be_bytes(bounds.end)[k] by {
            assert(bytes[16 + k] == bytes.subrange(0, 24)[16 + k]);
            assert(header[16 + k] == be_bytes(bounds.end)[k]);
        }
    }
}

/// A flushed layer reads like the layer it was made from, and so does the
/// layer that is loaded from its image. For a well-formed layer in memory
/// that has bounds: bounds and size come back as they were; a walk over the
/// sections ends without error and yields every record up to the last one
/// that holds a byte; every read of at least one address gives what it gave
/// before; a read of no address gives what it gave before, or is out of
/// bounds now if it found its place in an empty section; and every address
/// stores the byte it stored before.
pub proof fn lemma_flush_load_round_trip(before: LayerView)
    requires
        before.wf(),
        before.heap,
        before.bounds is Some,
    ensures
        before.flushed().wf(),
        LayerView::loaded(before.flushed().stream).wf(),
        LayerView::loaded(before.flushed().stream) == (LayerView {
            read_cursor: (0, 0),
            ..before.flushed()
        }),
        LayerView::loaded(before.flushed().stream).bounds == before.bounds,
        LayerView::loaded(before.flushed().stream).size == before.size,
        before.flushed().walk() == (reachable(before.resident), None::<Error>),
        LayerView::loaded(before.flushed().stream).walk() == before.flushed().walk(),
        forall|addr: Range<u64>|
            addr.start < addr.end ==> #[trigger] LayerView::loaded(before.flushed().stream).read(
                addr,
            ) == before.read(addr),
        forall|addr: Range<u64>|
            addr.start < addr.end ==> #[trigger] before.flushed().read(addr) == before.read(addr),
        forall|addr: Range<u64>|
            #[trigger] before.flushed().read(addr) == before.read(addr) || (addr.start >= addr.end
                && before.flushed().read(addr) == Err::<(int, int, Seq<u8>), Error>(
                Error::OutOfBounds,
            ) && in_empty_record(lookup(before.resident, addr))),
        forall|a: int|
            #[trigger] byte_at(LayerView::loaded(before.flushed().stream).records(), a) == byte_at(
                before.records(),
                a,
            ),
{
    let bounds = before.bounds->0;
    let header = header_image(before.size, bounds);
    let body = records_image(before.resident);
    let image = layer_image(before.size, bounds, before.resident);
    let bytes = written_over(before.stream, image);
    let flushed = before.flushed();
    let loaded = LayerView::loaded(bytes);
    lemma_be_round_trip(before.size);
    lemma_be_round_trip(bounds.start);
    lemma_be_round_trip(bounds.end);
    assert(header.len() == 24);
    assert(bytes.subrange(0, image.len() as int) =~= image);
    assert(bytes.subrange(0, 24) =~= header);
    lemma_header_round_trip(before.size, bounds, bytes);
    assert(bytes.subrange(24, 24 + body.len() as int) =~= body);
    lemma_scan_image(bytes, 24, before.resident);
    assert(loaded.walk() == (reachable(before.resident), None::<Error>));
    assert forall|addr: Range<u64>| addr.start < addr.end implies #[trigger] loaded.read(addr)
        == before.read(addr) by {
        lemma_lookup_reachable(before.resident, addr);
    }
    assert forall|addr: Range<u64>| addr.start < addr.end implies #[trigger] flushed.read(addr)
        == before.read(addr) by {
        lemma_lookup_reachable(before.resident, addr);
    }
    assert forall|addr: Range<u64>|
        #[trigger] flushed.read(addr) == before.read(addr) || (addr.start >= addr.end
            && flushed.read(addr) == Err::<(int, int, Seq<u8>), Error>(Error::OutOfBounds)
            && in_empty_record(lookup(before.resident, addr))) by {
        lemma_lookup_reachable(before.resident, addr);
    }
    assert forall|a: int| #[trigger] byte_at(loaded.records(), a) == byte_at(
        before.records(),
        a,
    ) by {
        lemma_byte_at_reachable(before.resident, a);
    }
}

/// A layer that is in order in memory is in order on disk.
pub proof fn lemma_flush_keeps_order(before: LayerView)
    requires
        before.wf(),
        before.ordered(),
    ensures
        before.flushed().ordered(),
{
    if before.heap && before.bounds is Some {
        lemma_flush_load_round_trip(before);
        lemma_reachable_prefix(before.resident);
        let reach = reachable(before.resident);
        assert forall|i: int| 0 <= i < reach.len() implies #[trigger] ranges_of(reach)[i]
            == ranges_of(before.resident)[i] by {}
    }
}

} // verus!
