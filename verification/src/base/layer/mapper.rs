//! Where the sections of a layer live: in memory while the layer is being
//! written, in the persisted image once it has been flushed.
use crate::base::codec::{read_record, scan, RECORD_HEAD};
use crate::base::section::{record_of, records_of, Record, Section};
use crate::errors::Error;
use core::ops::Range;
use std::borrow::Cow;
use vstd::prelude::*;

verus! {

/// The backing store of a layer's sections.
#[derive(Debug)]
pub enum Mapper<'l> {
    /// Sections held in memory, in ascending order, with the place where the
    /// last write ended: the next address and the index behind that write.
    Heap { write_cursor: (u64, usize), mapper: Vec<Section<'l>> },
    /// Sections are read from the persisted image whenever they are asked
    /// for.
    Disk,
}

/// One walk over the sections of a layer.
pub struct Sections<'a, 'l> {
    mapper: &'a Mapper<'l>,
    stream: &'a [u8],
    at: usize,
    left: u64,
}

/// The bytes of a payload.
pub fn bytes_of<'a, 'l>(data: &'a Cow<'l, [u8]>) -> (bytes: &'a [u8])
    ensures
        bytes@ == data@,
{
    match data {
        Cow::Borrowed(borrowed) => borrowed,
        Cow::Owned(owned) => owned.as_slice(),
    }
}

/// A payload in memory is no longer than memory can address.
pub proof fn lemma_payload_addressable(data: Cow<'_, [u8]>)
    ensures
        data@.len() <= usize::MAX,
{
    match data {
        Cow::Borrowed(borrowed) => {
            assert(borrowed@.len() == borrowed.len());
        },
        Cow::Owned(owned) => {
            assert(owned@.len() == owned.len());
        },
    }
}

impl<'l> Mapper<'l> {
    /// The records held in memory; none for a mapper on disk.
    pub open spec fn resident(self) -> Seq<Record> {
        match self {
            Mapper::Heap { mapper, .. } => records_of(mapper@),
            Mapper::Disk => Seq::empty(),
        }
    }

    /// The write cursor; `(0, 0)` for a mapper on disk.
    pub open spec fn cursor(self) -> (u64, usize) {
        match self {
            Mapper::Heap { write_cursor, .. } => write_cursor,
            Mapper::Disk => (0, 0),
        }
    }

    /// What a walk over the sections yields: the records, and the error that
    /// ends the walk, if one does. In memory these are the resident records.
    /// On disk they are what a scan of `stream` reads from `rewind_idx` on
    /// until it has seen `size` bytes of payload.
    pub open spec fn yields(self, stream: Seq<u8>, size: u64, rewind_idx: u64) -> (
        Seq<Record>,
        Option<Error>,
    ) {
        match self {
            Mapper::Heap { .. } => (self.resident(), None),
            Mapper::Disk => scan(stream, rewind_idx as int, size as int),
        }
    }

    /// An empty mapper in memory.
    pub fn new() -> (mapper: Self)
        ensures
            mapper is Heap,
            mapper.resident() == Seq::<Record>::empty(),
            mapper.cursor() == (0u64, 0usize),
    {
        let mapper = Mapper::Heap { write_cursor: (0, 0), mapper: Vec::new() };
        assert(mapper.resident() =~= Seq::<Record>::empty());
        mapper
    }

    /// The sections in memory and the write cursor, to be changed in place;
    /// refused for a mapper on disk, which is read-only.
    pub fn get_writer(&mut self) -> (res: Result<
        (&mut Vec<Section<'l>>, &mut (u64, usize)),
        Error,
    >)
        ensures
            match res {
                Ok((sections, cursor)) => {
                    &&& *old(self) is Heap
                    &&& *sections == (*old(self))->mapper
                    &&& *cursor == (*old(self))->write_cursor
                    &&& *final(self) == (Mapper::Heap {
                        write_cursor: *final(cursor),
                        mapper: *final(sections),
                    })
                },
                Err(e) => {
                    &&& *old(self) is Disk
                    &&& e == Error::ReadOnly
                    &&& *final(self) == *old(self)
                },
            },
    {
        match self {
            Mapper::Heap { write_cursor, mapper } => Ok((mapper, write_cursor)),
            Mapper::Disk => Err(Error::ReadOnly),
        }
    }

    /// Starts a walk over the sections. A mapper in memory walks its own
    /// sections. A mapper on disk reads them from `stream`, from offset
    /// `rewind_idx` on, until it has seen `size` bytes of payload.
    pub fn iter<'a>(&'a self, stream: &'a [u8], size: u64, rewind_idx: u64) -> (sections: Sections<
        'a,
        'l,
    >)
        ensures
            sections.inv(),
            sections.rest() == self.yields(stream@, size, rewind_idx),
    {
        match self {
            Mapper::Heap { mapper, .. } => {
                assert(records_of(mapper@).skip(0) =~= records_of(mapper@));
                Sections { mapper: self, stream, at: 0, left: 0 }
            },
            Mapper::Disk => {
                let at: usize = if rewind_idx <= stream.len() as u64 {
                    rewind_idx as usize
                } else {
                    stream.len()
                };
                Sections { mapper: self, stream, at, left: size }
            },
        }
    }
}

impl<'a, 'l> Sections<'a, 'l> {
    /// The position is within what is walked over.
    pub closed spec fn inv(self) -> bool {
        match *self.mapper {
            Mapper::Heap { mapper, .. } => self.at <= mapper@.len(),
            Mapper::Disk => self.at <= self.stream@.len(),
        }
    }

    /// What the walk has yet to yield: the records, and the error that ends
    /// it, if one does.
    pub closed spec fn rest(self) -> (Seq<Record>, Option<Error>) {
        match *self.mapper {
            Mapper::Heap { mapper, .. } => (records_of(mapper@).skip(self.at as int), None),
            Mapper::Disk => scan(self.stream@, self.at as int, self.left as int),
        }
    }

    /// The next section of the walk, its payload borrowed, or the error that
    /// ends the walk, or nothing once it is over. After an error the walk is
    /// over.
    pub fn next(&mut self) -> (item: Option<Result<Section<'a>, Error>>)
        requires
            old(self).inv(),
        ensures
            final(self).inv(),
            match item {
                None => {
                    &&& old(self).rest() == (Seq::<Record>::empty(), None::<Error>)
                    &&& final(self).rest() == old(self).rest()
                },
                Some(Ok(section)) => {
                    &&& section.1 is Borrowed
                    &&& old(self).rest().0.len() > 0
                    &&& record_of(section) == old(self).rest().0[0]
                    &&& final(self).rest() == (old(self).rest().0.drop_first(), old(self).rest().1)
                },
                Some(Err(e)) => {
                    &&& old(self).rest() == (Seq::<Record>::empty(), Some(e))
                    &&& final(self).rest() == (Seq::<Record>::empty(), None::<Error>)
                },
            },
    {
        match self.mapper {
            Mapper::Heap { mapper, .. } => {
                if self.at < mapper.len() {
                    let section = &mapper[self.at];
                    let range: Range<u64> = section.0.start..section.0.end;
                    let data = bytes_of(&section.1);
                    proof {
                        let records = records_of(mapper@);
                        assert(records.skip(self.at as int)[0] == records[self.at as int]);
                        assert(records.skip(self.at as int).drop_first() =~= records.skip(
                            self.at + 1,
                        ));
                    }
                    self.at = self.at + 1;
                    Some(Ok((range, Cow::Borrowed(data))))
                } else {
                    assert(records_of(mapper@).skip(self.at as int) =~= Seq::<Record>::empty());
                    None
                }
            },
            Mapper::Disk => {
                if self.left == 0 {
                    assert(scan(self.stream@, self.at as int, 0) == (
                        Seq::<Record>::empty(),
                        None::<Error>,
                    ));
                    return None;
                }
                match read_record(self.stream, self.at, self.left) {
                    Ok((range, data)) => {
                        let len: u64 = range.end - range.start;
                        assert(self.stream.len() == self.stream@.len());
                        proof {
                            let rest = scan(
                                self.stream@,
                                self.at + 16 + len,
                                self.left - len,
                            );
                            assert((seq![Record { range, data: data@ }] + rest.0).drop_first()
                                =~= rest.0);
                        }
                        self.at = self.at + RECORD_HEAD + len as usize;
                        self.left = self.left - len;
                        Some(Ok((range, Cow::Borrowed(data))))
                    },
                    Err(e) => {
                        self.left = 0;
                        assert(scan(self.stream@, self.at as int, 0) == (
                            Seq::<Record>::empty(),
                            None::<Error>,
                        ));
                        Some(Err(e))
                    },
                }
            },
        }
    }
}

} // verus!
