//! A layer: one generation of the database. It takes writes while it lives
//! in memory, and is read-only once it has been flushed to its persisted
//! form.
pub mod mapper;
pub mod proofs;

use crate::base::codec::{get_u64, header_bounds, header_image, header_size, layer_image};
use crate::base::codec::{lemma_scan_sound, put_bytes, put_u64, record_image, records_image, scan};
pub use crate::base::codec::REWIND_IDX;
use crate::base::interval::{ascending, clear_of, collisions, covers, gaps, holds, inside};
use crate::base::interval::{intersect, lemma_collision_sources, overlaps, touches};
use crate::base::interval::{lemma_collisions_empty, lemma_collisions_push};
use crate::base::interval::{lemma_first_where_unique, lemma_gaps_ascending, lemma_gaps_complement};
use crate::base::layer::mapper::{bytes_of, lemma_payload_addressable, Mapper};
use crate::base::layer::proofs::{lemma_bounds_filter_exact, lemma_taken_and_free_split};
use crate::base::layer::proofs::{lemma_fault_is_corruption, lemma_written_wf};
use crate::base::section::{all_sound, in_order, lemma_write_keeps_order, lookup, misplaced};
use crate::base::section::{payload, ranges_of, record_of, records_of, slot, sound, tight};
use crate::base::section::{widened, Record};
use crate::errors::{corrupt_layer, corrupt_section, Error};
use core::ops::Range;
use std::borrow::Cow;
use vstd::prelude::*;

verus! {

/// One generation of the database: the sections written to it, their tight
/// bounds and total payload, and the bytes of its persisted form.
#[derive(Debug)]
pub struct Layer<'l> {
    /// The tight enclosing interval of all sections; nothing while the layer
    /// is empty.
    pub bounds: Option<Range<u64>>,
    /// Where the sections live: in memory, or in the persisted image.
    mapper: Mapper<'l>,
    /// The payload bytes of all sections together.
    pub size: u64,
    /// Reserved for faster sequential reads; no operation consults it.
    pub read_cursor: (u64, usize),
    /// The persisted image.
    stream: Vec<u8>,
}

/// Keeps the first error of a walk: hands on the item of `Ok`, and for `Err`
/// stores the error where `err` points and hands on nothing. `err` still
/// points to the same place afterwards.
#[inline]
pub fn until_err<T, E>(err: &mut &mut Result<(), E>, item: Result<T, E>) -> (out: Option<T>)
    ensures
        *final(*final(err)) == *final(*old(err)),
        match item {
            Ok(value) => out == Some(value) && **final(err) == **old(err),
            Err(e) => out is None && **final(err) == Err::<(), E>(e),
        },
{
    match item {
        Ok(item) => Some(item),
        Err(e) => {
            **err = Err(e);
            None
        },
    }
}

/// `Vec::into_boxed_slice`: the box holds the elements of the vector, in
/// order.
#[verifier::external_body]
fn into_boxed_slice<T>(items: Vec<T>) -> (boxed: Box<[T]>)
    ensures
        boxed@ == items@,
{
    items.into_boxed_slice()
}

/// `image` written over `stream` from its start: the image, and behind it
/// what `stream` held beyond the image's length.
pub open spec fn written_over(stream: Seq<u8>, image: Seq<u8>) -> Seq<u8> {
    if image.len() < stream.len() {
        image + stream.skip(image.len() as int)
    } else {
        image
    }
}

/// What a layer is in contracts.
pub struct LayerView {
    /// The bounds: the field `bounds`.
    pub bounds: Option<Range<u64>>,
    /// The payload size: the field `size`.
    pub size: u64,
    /// The read cursor: the field `read_cursor`.
    pub read_cursor: (u64, usize),
    /// The layer lives in memory and takes writes.
    pub heap: bool,
    /// The records held in memory; none once the layer is on disk.
    pub resident: Seq<Record>,
    /// Where the last write ended: the address behind it, and the index
    /// behind the section it stored.
    pub write_cursor: (u64, usize),
    /// The bytes of the persisted image: the field `stream`.
    pub stream: Seq<u8>,
}

impl LayerView {
    /// What a walk over the sections yields: the records, and the error that
    /// ends it, if one does. In memory these are the resident records; on
    /// disk, what a scan of the image reads behind the header.
    pub open spec fn walk(self) -> (Seq<Record>, Option<Error>) {
        if self.heap {
            (self.resident, None)
        } else {
            scan(self.stream, REWIND_IDX as int, self.size as int)
        }
    }

    /// The records that can be read from the layer.
    pub open spec fn records(self) -> Seq<Record> {
        self.walk().0
    }

    /// The error that a full walk over the sections ends with, if any.
    pub open spec fn fault(self) -> Option<Error> {
        self.walk().1
    }

    /// The layer is well formed. In memory: every record is sound, the write
    /// cursor's index is within the records, `size` is their payload and
    /// `bounds` their tight enclosing interval. On disk: nothing is resident,
    /// and a header was read or written, so there are bounds.
    pub open spec fn wf(self) -> bool {
        if self.heap {
            &&& all_sound(self.resident)
            &&& self.write_cursor.1 <= self.resident.len()
            &&& self.size == payload(self.resident)
            &&& tight(self.bounds, self.resident)
        } else {
            &&& self.bounds is Some
            &&& self.resident == Seq::<Record>::empty()
            &&& self.write_cursor == (0u64, 0usize)
        }
    }

    /// The sections are sorted and none collides with another; in memory the
    /// write cursor also sits where a write at its address belongs. Writers
    /// keep a layer so by writing only where nothing is stored.
    pub open spec fn ordered(self) -> bool {
        if self.heap {
            in_order(self.write_cursor, self.resident)
        } else {
            ascending(ranges_of(self.records()))
        }
    }

    /// What a collision check of `range` gives. A layer without bounds, or
    /// with bounds that `range` does not collide with, has no collisions and
    /// is not walked: this is so where the bounds end at or before the start
    /// of the range, or start at or behind its end. Otherwise the walk's
    /// error, if it ends with one, or the collisions of `range` with the
    /// records.
    pub open spec fn taken(self, range: Range<u64>) -> Result<Seq<Range<u64>>, Error> {
        match self.bounds {
            None => Ok(Seq::empty()),
            Some(b) => if !overlaps(b, range) {
                Ok(Seq::empty())
            } else {
                match self.fault() {
                    Some(e) => Err(e),
                    None => Ok(collisions(ranges_of(self.records()), range)),
                }
            },
        }
    }

    /// What a read of `addr` gives: what lies at `addr` in the first record
    /// that contains it; where none does, the error that ends the walk, or
    /// out of bounds if the walk ends without one.
    pub open spec fn read(self, addr: Range<u64>) -> Result<(int, int, Seq<u8>), Error> {
        match lookup(self.records(), addr) {
            Some(found) => Ok(found),
            None => match self.fault() {
                Some(e) => Err(e),
                None => Err(Error::OutOfBounds),
            },
        }
    }

    /// The layer after `data` has been written at `idx`: the record is put
    /// into its slot, the write cursor moves behind it, the size grows by its
    /// length and the bounds widen to take it in.
    pub open spec fn written(self, idx: u64, data: Seq<u8>) -> LayerView {
        let range = Range { start: idx, end: (idx + data.len()) as u64 };
        let at = slot(self.write_cursor, self.resident, idx);
        LayerView {
            bounds: Some(widened(self.bounds, range)),
            size: (self.size + data.len()) as u64,
            resident: self.resident.insert(at, Record { range, data }),
            write_cursor: (range.end, (at + 1) as usize),
            ..self
        }
    }

    /// Nothing stored collides with the `len` bytes from `idx` on.
    pub open spec fn free(self, idx: u64, len: nat) -> bool {
        clear_of(ranges_of(self.records()), Range { start: idx, end: (idx + len) as u64 })
    }

    /// The layer opened from the persisted image `bytes`: on disk, holding
    /// `bytes`, with the size and the bounds that the header of `bytes`
    /// declares.
    pub open spec fn loaded(bytes: Seq<u8>) -> LayerView {
        LayerView {
            bounds: Some(header_bounds(bytes)),
            size: header_size(bytes),
            read_cursor: (0, 0),
            heap: false,
            resident: Seq::empty(),
            write_cursor: (0, 0),
            stream: bytes,
        }
    }

    /// The layer after a flush. A layer on disk, or without bounds, stays as
    /// it is. Any other layer goes to disk: its header and all its sections
    /// are written over its image from the start, and nothing stays
    /// resident.
    pub open spec fn flushed(self) -> LayerView {
        if self.heap && self.bounds is Some {
            LayerView {
                heap: false,
                resident: Seq::empty(),
                write_cursor: (0, 0),
                stream: written_over(
                    self.stream,
                    layer_image(self.size, self.bounds->0, self.resident),
                ),
                ..self
            }
        } else {
            self
        }
    }
}

impl<'l> View for Layer<'l> {
    type V = LayerView;

    closed spec fn view(&self) -> LayerView {
        LayerView {
            bounds: self.bounds,
            size: self.size,
            read_cursor: self.read_cursor,
            heap: self.mapper is Heap,
            resident: self.mapper.resident(),
            write_cursor: self.mapper.cursor(),
            stream: self.stream@,
        }
    }
}

impl<'l> Layer<'l> {
    /// A fresh, empty layer in memory, to be persisted in `stream`.
    #[inline]
    pub fn new(stream: Vec<u8>) -> (layer: Self)
        ensures
            layer@ == (LayerView {
                bounds: None,
                size: 0,
                read_cursor: (0, 0),
                heap: true,
                resident: Seq::empty(),
                write_cursor: (0, 0),
                stream: stream@,
            }),
            layer@.wf(),
            layer@.ordered(),
    {
        let layer = Self { bounds: None, mapper: Mapper::new(), size: 0, read_cursor: (0, 0), stream };
        assert(ranges_of(layer@.resident) =~= Seq::<Range<u64>>::empty());
        layer
    }

    /// Opens a persisted layer. Only the 24-byte header is read: the payload
    /// size and the bounds. The sections are read when they are asked for. A
    /// stream shorter than the header is reported as a damaged layer.
    #[inline]
    pub fn load(stream: Vec<u8>) -> (res: Result<Self, Error>)
        ensures
            match res {
                Ok(layer) => stream@.len() >= REWIND_IDX && layer@ == LayerView::loaded(stream@)
                    && layer@.wf(),
                Err(e) => stream@.len() < REWIND_IDX && e == corrupt_layer(),
            },
    {
        if stream.len() < REWIND_IDX as usize {
            return Err(Error::DBCorrupt(Box::new(Error::InvalidLayer)));
        }
        let size: u64 = match get_u64(stream.as_slice(), 0..8) {
            Ok(value) => value,
            Err(e) => return Err(e),
        };
        let start: u64 = match get_u64(stream.as_slice(), 8..16) {
            Ok(value) => value,
            Err(e) => return Err(e),
        };
        let end: u64 = match get_u64(stream.as_slice(), 16..24) {
            Ok(value) => value,
            Err(e) => return Err(e),
        };
        Ok(Self { bounds: Some(start..end), mapper: Mapper::Disk, size, read_cursor: (0, 0), stream })
    }

    /// The tight enclosing interval of all sections.
    pub fn bounds(&self) -> (bounds: &Option<Range<u64>>)
        ensures
            *bounds == self@.bounds,
    {
        &self.bounds
    }

    /// The payload bytes of all sections together.
    pub fn size(&self) -> (size: u64)
        ensures
            size == self@.size,
    {
        self.size
    }

    /// The read cursor, reserved for faster sequential reads.
    pub fn read_cursor(&self) -> (cursor: (u64, usize))
        ensures
            cursor == self@.read_cursor,
    {
        self.read_cursor
    }

    /// The persisted image, as far as it has been written.
    pub fn stream(&self) -> (bytes: &[u8])
        ensures
            bytes@ == self@.stream,
    {
        self.stream.as_slice()
    }

    /// The layer lives in memory and takes writes.
    pub fn is_writable(&self) -> (heap: bool)
        ensures
            heap == self@.heap,
    {
        match &self.mapper {
            Mapper::Heap { .. } => true,
            Mapper::Disk => false,
        }
    }

    /// Checks for collisions of `range` with the sections of this layer.
    /// Gives, in stored order, the part of `range` under each section that
    /// collides with it. Fails only on disk, where a section record is
    /// damaged. Where the sections are in ascending order these
    /// parts are sorted, collide with nothing among themselves and lie within
    /// the range.
    #[inline]
    pub fn check_collisions(&mut self, range: &Range<u64>) -> (res: Result<Box<[Range<u64>]>, Error>)
        ensures
            final(self)@ == old(self)@,
            match res {
                Ok(found) => old(self)@.taken(*range) == Ok::<Seq<Range<u64>>, Error>(found@),
                Err(e) => old(self)@.taken(*range) == Err::<Seq<Range<u64>>, Error>(e)
                    && !old(self)@.heap && e == corrupt_section(),
            },
            ascending(ranges_of(old(self)@.records())) && range.start <= range.end ==> match res {
                Ok(found) => ascending(found@) && inside(found@, *range),
                Err(_) => true,
            },
    {
        proof {
            if ascending(ranges_of(self@.records())) && range.start <= range.end && self@.taken(
                *range,
            ) is Ok {
                lemma_taken_and_free_split(self@, *range);
            }
            lemma_fault_is_corruption(self@);
        }
        // a layer without bounds, or with bounds off the range, has nothing to collide with
        let off: bool = match &self.bounds {
            Some(bounds) => bounds.end <= range.start || range.end <= bounds.start,
            None => true,
        };
        if off {
            return Ok(into_boxed_slice(Vec::new()));
        }
        let mut err: Result<(), Error> = Ok(());
        let mut out: Vec<Range<u64>> = Vec::new();
        let mut sections = self.mapper.iter(self.stream.as_slice(), self.size, REWIND_IDX);
        let ghost all = sections.rest();
        let ghost mut seen: Seq<Record> = Seq::empty();
        proof {
            lemma_collisions_empty(*range);
            assert(ranges_of(seen) =~= Seq::<Range<u64>>::empty());
            assert(seen + sections.rest().0 =~= all.0);
        }
        loop
            invariant_except_break
                err is Ok,
                seen + sections.rest().0 == all.0,
                sections.rest().1 == all.1,
            invariant
                sections.inv(),
                out@ == collisions(ranges_of(seen), *range),
            ensures
                match err {
                    Ok(_) => all == (seen, None::<Error>),
                    Err(e) => all.1 == Some(e),
                },
            decreases sections.rest().0.len(),
        {
            let ghost rest = sections.rest();
            let mut first_err = &mut err;
            let next = match sections.next() {
                Some(item) => until_err(&mut first_err, item),
                None => None,
            };
            let section = match next {
                Some(section) => section,
                None => {
                    assert(seen + Seq::<Record>::empty() =~= seen);
                    break ;
                },
            };
            if range.start < section.0.end && section.0.start < range.end {
                out.push(intersect(range, &section.0));
            }
            proof {
                let record = record_of(section);
                lemma_collisions_push(ranges_of(seen), record.range, *range);
                assert(ranges_of(seen.push(record)) =~= ranges_of(seen).push(record.range));
                assert(seen.push(record) + rest.0.drop_first() =~= seen + rest.0);
                seen = seen.push(record);
            }
        }
        match err {
            Err(e) => Err(e),
            Ok(_) => Ok(into_boxed_slice(out)),
        }
    }

    /// Reads from the layer without splitting the read: `addr` must run
    /// forward, and the read succeeds only where one section contains all of
    /// it. Gives the payload of the first such section, borrowed and not
    /// copied, and the place of `addr` in it, counted from the section's
    /// start.
    #[inline]
    pub fn read_unchecked(&mut self, addr: &Range<u64>) -> (res: Result<
        (Range<usize>, Cow<'_, [u8]>),
        Error,
    >)
        requires
            old(self)@.wf(),
            addr.start <= addr.end,
        ensures
            final(self)@ == old(self)@,
            match res {
                Ok((place, data)) => data is Borrowed && old(self)@.read(*addr) == Ok::<
                    (int, int, Seq<u8>),
                    Error,
                >((place.start as int, place.end as int, data@)),
                Err(e) => old(self)@.read(*addr) == Err::<(int, int, Seq<u8>), Error>(e) && (e
                    == Error::OutOfBounds || (!old(self)@.heap && e == corrupt_section())),
            },
    {
        proof {
            lemma_fault_is_corruption(self@);
        }
        let mut err: Result<(), Error> = Ok(());
        let mut out: Option<(Range<usize>, Cow<'_, [u8]>)> = None;
        let mut sections = self.mapper.iter(self.stream.as_slice(), self.size, REWIND_IDX);
        let ghost all = sections.rest();
        let ghost mut seen: Seq<Record> = Seq::empty();
        let ghost wanted = |r: Range<u64>| covers(r, *addr);
        proof {
            assert(seen + sections.rest().0 =~= all.0);
            if !self@.heap {
                lemma_scan_sound(self@.stream, REWIND_IDX as int, self@.size as int);
            }
        }
        loop
            invariant_except_break
                err is Ok,
                out is None,
                seen + sections.rest().0 == all.0,
                sections.rest().1 == all.1,
                forall|i: int| 0 <= i < seen.len() ==> !covers((#[trigger] seen[i]).range, *addr),
            invariant
                sections.inv(),
                all_sound(all.0),
                addr.start <= addr.end,
                wanted == |r: Range<u64>| covers(r, *addr),
            ensures
                match err {
                    Err(e) => all.1 == Some(e) && lookup(all.0, *addr) is None,
                    Ok(_) => match out {
                        Some((place, data)) => data is Borrowed && lookup(all.0, *addr) == Some(
                            (place.start as int, place.end as int, data@),
                        ),
                        None => all.1 is None && lookup(all.0, *addr) is None,
                    },
                },
            decreases sections.rest().0.len(),
        {
            let ghost rest = sections.rest();
            let mut first_err = &mut err;
            let next = match sections.next() {
                Some(item) => until_err(&mut first_err, item),
                None => None,
            };
            let section = match next {
                Some(section) => section,
                None => {
                    // the walk is over, and no section contained the range
                    proof {
                        assert(seen + Seq::<Record>::empty() =~= seen);
                        lemma_first_where_unique(ranges_of(all.0), wanted, all.0.len() as int);
                    }
                    break ;
                },
            };
            proof {
                assert(all.0[seen.len() as int] == rest.0[0]);
                assert(sound(all.0[seen.len() as int]));
            }
            // a read must lie within one section
            if section.0.start <= addr.start && addr.end <= section.0.end {
                proof {
                    lemma_payload_addressable(section.1);
                }
                let from: usize = (addr.start - section.0.start) as usize;
                let to: usize = (addr.end - section.0.start) as usize;
                proof {
                    assert forall|i: int| 0 <= i < seen.len() implies !wanted(
                        #[trigger] ranges_of(all.0)[i],
                    ) by {
                        assert(all.0[i] == seen[i]);
                    }
                    lemma_first_where_unique(ranges_of(all.0), wanted, seen.len() as int);
                }
                out = Some((from..to, section.1));
                break ;
            }
            proof {
                let record = record_of(section);
                assert(seen.push(record) + rest.0.drop_first() =~= seen + rest.0);
                seen = seen.push(record);
            }
        }
        match err {
            Err(e) => {
                return Err(e);
            },
            Ok(_) => {},
        }
        match out {
            Some(found) => Ok(found),
            None => Err(Error::OutOfBounds),
        }
    }

    /// The free parts of `range`, given its collisions in ascending order:
    /// what lies before the first collision, between one collision and the
    /// next, and behind the last. Where the collisions are sorted, collide
    /// with nothing among themselves and lie within the range, the free parts
    /// do so too, none of them is empty or collides with a collision, and
    /// every address of the range lies either in a collision or in a free
    /// part, never in both.
    #[inline]
    pub fn check_non_collisions(&self, range: &Range<u64>, collisions: &[Range<u64>]) -> (res: Box<
        [Range<u64>],
    >)
        ensures
            res@ == gaps(range.start, range.end, collisions@),
            range.start <= range.end && ascending(collisions@) && inside(collisions@, *range) ==> ({
                &&& ascending(res@)
                &&& inside(res@, *range)
                &&& forall|k: int| 0 <= k < res@.len() ==> (#[trigger] res@[k]).start < res@[k].end
                &&& forall|k: int| 0 <= k < res@.len() ==> clear_of(collisions@, #[trigger] res@[k])
                &&& forall|addr: int|
                    holds(*range, addr) ==> (#[trigger] touches(collisions@, addr)) != touches(
                        res@,
                        addr,
                    )
            }),
    {
        proof {
            if range.start <= range.end && ascending(collisions@) && inside(collisions@, *range) {
                lemma_gaps_ascending(range.start, range.end, collisions@);
                assert forall|addr: int| holds(*range, addr) implies (#[trigger] touches(
                    collisions@,
                    addr,
                )) != touches(gaps(range.start, range.end, collisions@), addr) by {
                    lemma_gaps_complement(range.start, range.end, collisions@, addr);
                }
            }
        }
        let mut output: Vec<Range<u64>> = Vec::new();
        let mut last_end: u64 = range.start;
        let mut i: usize = 0;
        proof {
            assert(collisions@.skip(0) =~= collisions@);
            assert(output@ + gaps(last_end, range.end, collisions@.skip(0)) =~= gaps(
                range.start,
                range.end,
                collisions@,
            ));
        }
        while i < collisions.len()
            invariant
                i <= collisions@.len(),
                output@ + gaps(last_end, range.end, collisions@.skip(i as int)) == gaps(
                    range.start,
                    range.end,
                    collisions@,
                ),
            decreases collisions@.len() - i,
        {
            let r = &collisions[i];
            proof {
                let later = collisions@.skip(i as int);
                assert(later[0] == collisions@[i as int]);
                assert(later.drop_first() =~= collisions@.skip(i + 1));
                let rest = gaps(r.end, range.end, collisions@.skip(i + 1));
                if r.start > last_end {
                    assert(output@.push(Range { start: last_end, end: r.start }) + rest =~= output@
                        + (seq![Range { start: last_end, end: r.start }] + rest));
                }
            }
            if r.start > last_end {
                output.push(last_end..r.start);
            }
            last_end = r.end;
            i += 1;
        }
        proof {
            assert(collisions@.skip(i as int) =~= Seq::<Range<u64>>::empty());
            if last_end != range.end {
                assert(output@.push(Range { start: last_end, end: range.end }) =~= output@
                    + seq![Range { start: last_end, end: range.end }]);
            } else {
                assert(output@ + Seq::<Range<u64>>::empty() =~= output@);
            }
        }
        if last_end != range.end {
            output.push(last_end..range.end);
        }
        into_boxed_slice(output)
    }

    /// Writes `data` at the address `idx` without checking for collisions:
    /// it is for the caller to make sure that nothing is stored in those
    /// addresses. A layer on disk is read-only and refuses the write.
    ///
    /// The section is put in at the write cursor's index if the cursor
    /// remembers `idx`, that is, if the last write ended there; otherwise in
    /// front of the first section that starts beyond `idx`, or at the end.
    /// The layer stays in order if nothing stored collides with the write and
    /// the write is not misplaced, which takes an empty section at `idx`. A
    /// write that collides is stored all the same, and leaves the layer out
    /// of order.
    #[inline]
    pub fn write_unchecked(&mut self, idx: u64, data: Cow<'l, [u8]>) -> (res: Result<(), Error>)
        requires
            old(self)@.wf(),
            old(self)@.heap ==> idx + data@.len() <= u64::MAX,
            old(self)@.heap ==> old(self)@.size + data@.len() <= u64::MAX,
        ensures
            match res {
                Ok(_) => old(self)@.heap && final(self)@ == old(self)@.written(idx, data@),
                Err(e) => !old(self)@.heap && e == Error::ReadOnly && final(self)@ == old(self)@,
            },
            final(self)@.wf(),
            old(self)@.ordered() && old(self)@.free(idx, data@.len()) && !misplaced(
                old(self)@.write_cursor,
                old(self)@.resident,
                idx,
                data@.len(),
            ) ==> final(self)@.ordered(),
    {
        let ghost before = self@;
        // cannot write on read-only
        let (mapper, write_cursor) = match self.mapper.get_writer() {
            Ok(writer) => writer,
            Err(e) => {
                return Err(e);
            },
        };
        let len: u64 = bytes_of(&data).len() as u64;
        let end: u64 = idx + len;
        let ghost record = Record { range: Range { start: idx, end }, data: data@ };

        // get the index in the map to insert at
        let map_idx: usize = if write_cursor.0 == idx {
            write_cursor.1
        } else {
            let mut i: usize = 0;
            while i < mapper.len() && mapper[i].0.start <= idx
                invariant
                    i <= mapper@.len(),
                    forall|j: int| 0 <= j < i ==> (#[trigger] mapper@[j]).0.start <= idx,
                decreases mapper@.len() - i,
            {
                i += 1;
            }
            proof {
                let ranges = ranges_of(records_of(mapper@));
                assert forall|j: int| 0 <= j < i implies !(#[trigger] ranges[j].start > idx) by {
                    assert(ranges[j] == mapper@[j].0);
                }
                if i < mapper@.len() {
                    assert(ranges[i as int] == mapper@[i as int].0);
                }
                lemma_first_where_unique(ranges, |r: Range<u64>| r.start > idx, i as int);
            }
            i
        };
        assert(map_idx == slot(before.write_cursor, before.resident, idx));

        // insert the data into the map and move the write cursor behind it
        mapper.insert(map_idx, (idx..end, data));
        assert(mapper@.len() == before.resident.len() + 1);
        assert(mapper.len() == mapper@.len());
        *write_cursor = (end, map_idx + 1);
        proof {
            assert(records_of(mapper@) =~= before.resident.insert(map_idx as int, record));
        }
        self.size = self.size + len;

        // widen the bounds
        let bounds: Range<u64> = match &self.bounds {
            Some(x) => {
                let lo: u64 = if x.start <= idx { x.start } else { idx };
                let hi: u64 = if x.end >= end { x.end } else { end };
                lo..hi
            },
            None => idx..end,
        };
        self.bounds = Some(bounds);
        proof {
            lemma_written_wf(before, idx, data@);
            assert(self@ == before.written(idx, data@));
            if before.ordered() && before.free(idx, data@.len()) && !misplaced(
                before.write_cursor,
                before.resident,
                idx,
                data@.len(),
            ) {
                lemma_write_keeps_order(before.write_cursor, before.resident, idx, data@);
            }
        }
        Ok(())
    }

    /// Writes `data` at the address `idx` if that can be done: if the write
    /// stays within the addresses, the size of the layer does not overflow,
    /// and nothing stored collides with the write. Says whether it wrote, and
    /// leaves the layer as it was if it did not. A layer on disk is read-only
    /// and refuses the write.
    pub fn write_checked(&mut self, idx: u64, data: Cow<'l, [u8]>) -> (res: Result<bool, Error>)
        requires
            old(self)@.wf(),
        ensures
            match res {
                Ok(done) => {
                    &&& old(self)@.heap
                    &&& done == (idx + data@.len() <= u64::MAX && old(self)@.size + data@.len()
                        <= u64::MAX && old(self)@.free(idx, data@.len()))
                    &&& final(self)@ == if done {
                        old(self)@.written(idx, data@)
                    } else {
                        old(self)@
                    }
                },
                Err(e) => !old(self)@.heap && e == Error::ReadOnly && final(self)@ == old(self)@,
            },
            final(self)@.wf(),
            old(self)@.ordered() && !misplaced(
                old(self)@.write_cursor,
                old(self)@.resident,
                idx,
                data@.len(),
            ) ==> final(self)@.ordered(),
    {
        if !self.is_writable() {
            return Err(Error::ReadOnly);
        }
        let len: u64 = bytes_of(&data).len() as u64;
        let end: u64 = match idx.checked_add(len) {
            Some(end) => end,
            None => {
                return Ok(false);
            },
        };
        if self.size.checked_add(len).is_none() {
            return Ok(false);
        }
        let range: Range<u64> = idx..end;
        let taken = match self.check_collisions(&range) {
            Ok(taken) => taken,
            Err(e) => {
                return Err(e);
            },
        };
        proof {
            lemma_bounds_filter_exact(self@, range);
            let stored = ranges_of(self@.resident);
            let src = lemma_collision_sources(stored, range);
            if taken@.len() == 0 {
                assert forall|i: int| 0 <= i < stored.len() implies !overlaps(
                    #[trigger] stored[i],
                    range,
                ) by {
                    if overlaps(stored[i], range) {
                        let k = choose|k: int| 0 <= k < src.len() && #[trigger] src[k] == i;
                    }
                }
            } else {
                assert(overlaps(stored[src[0]], range));
            }
        }
        if taken.len() != 0 {
            return Ok(false);
        }
        match self.write_unchecked(idx, data) {
            Ok(_) => Ok(true),
            Err(e) => Err(e),
        }
    }

    /// The persisted form that a flush would write: the header and every
    /// section, in stored order. Nothing for an empty layer and for a layer
    /// that is on disk already.
    pub fn image(&self) -> (res: Option<Vec<u8>>)
        ensures
            match res {
                Some(bytes) => {
                    &&& self@.heap
                    &&& self@.bounds is Some
                    &&& bytes@ == layer_image(self@.size, self@.bounds->0, self@.resident)
                },
                None => !(self@.heap && self@.bounds is Some),
            },
    {
        // don't flush if it's an empty layer or in read-only mode
        let (start, end): (u64, u64) = match &self.bounds {
            Some(bounds) => (bounds.start, bounds.end),
            None => {
                return None;
            },
        };
        let sections = match &self.mapper {
            Mapper::Heap { mapper, .. } => mapper,
            Mapper::Disk => {
                return None;
            },
        };
        let ghost records = records_of(sections@);
        let mut file: Vec<u8> = Vec::new();

        // write the size and the bounds of the layer
        put_u64(&mut file, self.size);
        put_u64(&mut file, start);
        put_u64(&mut file, end);
        assert(file@ =~= header_image(self.size, Range { start, end }) + records_image(
            records.take(0),
        ));

        // the map is sorted already
        let mut i: usize = 0;
        while i < sections.len()
            invariant
                i <= sections@.len(),
                records == records_of(sections@),
                file@ == header_image(self.size, Range { start, end }) + records_image(
                    records.take(i as int),
                ),
            decreases sections@.len() - i,
        {
            let ghost front = file@;
            let section = &sections[i];
            put_u64(&mut file, section.0.start);
            put_u64(&mut file, section.0.end);
            put_bytes(&mut file, bytes_of(&section.1));
            proof {
                let upto = records.take(i + 1);
                assert(upto.drop_last() =~= records.take(i as int));
                assert(upto.last() == record_of(sections@[i as int]));
                assert(file@ =~= front + record_image(upto.last()));
                assert(file@ =~= header_image(self.size, Range { start, end }) + records_image(
                    upto,
                ));
            }
            i += 1;
        }
        assert(records.take(i as int) =~= records);
        Some(file)
    }

    /// Moves the layer from memory to disk: writes the header and every
    /// section, in stored order, over the persisted image from its start, and
    /// makes the layer read-only. An empty layer and a layer already on disk
    /// are left as they are.
    pub fn flush(&mut self) -> (res: Result<(), Error>)
        ensures
            res is Ok,
            final(self)@ == old(self)@.flushed(),
            old(self)@.wf() ==> final(self)@.wf(),
    {
        let mut file: Vec<u8> = match self.image() {
            Some(file) => file,
            None => {
                return Ok(());
            },
        };

        // keep what the stream holds behind the image
        let ghost image = file@;
        let image_len: usize = file.len();
        if image_len < self.stream.len() {
            let mut k: usize = image_len;
            assert(file@ =~= image + self.stream@.subrange(image_len as int, k as int));
            while k < self.stream.len()
                invariant
                    image_len <= k <= self.stream@.len(),
                    file@ == image + self.stream@.subrange(image_len as int, k as int),
                decreases self.stream@.len() - k,
            {
                file.push(self.stream[k]);
                assert(file@ =~= image + self.stream@.subrange(image_len as int, k + 1));
                k += 1;
            }
            assert(self.stream@.subrange(image_len as int, k as int) =~= self.stream@.skip(
                image_len as int,
            ));
        }

        // switch to the layer on disk
        self.stream = file;
        self.mapper = Mapper::Disk;
        Ok(())
    }
}

} // verus!
