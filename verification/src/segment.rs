use vstd::prelude::*;
use vstd::bytes::lemma_auto_spec_u64_to_from_le_bytes;
use vstd::slice::{slice_subrange, slice_to_vec};
use crate::entry::{spec_decode_at, spec_encode, Entry, RECORD_HEADER_BYTES};
use crate::errors::CaskError;

verus! {

/// The mathematical shape of a log segment: its id and its bytes.
pub ghost struct SegmentView {
    pub id: u64,
    pub data: Seq<u8>,
}

/// One append-only log segment, identified by a monotonically increasing
/// id and persisted as one file per id. Exactly one segment is active
/// (open for appends) at a time; the rest are sealed and read-only. The
/// core holds the segment's bytes; the embedding program mirrors them to
/// the segment's file.
pub struct Segment {
    id: u64,
    data: Vec<u8>,
}

impl View for Segment {
    type V = SegmentView;

    closed spec fn view(&self) -> SegmentView {
        SegmentView { id: self.id, data: self.data@ }
    }
}

impl Segment {
    /// A fresh empty segment with the given id.
    pub fn new(id: u64) -> (s: Segment)
        ensures
            s@.id == id,
            s@.data == Seq::<u8>::empty(),
    {
        Segment { id, data: Vec::new() }
    }

    /// A segment rebuilt from the bytes of an existing file, as recovery
    /// receives it from the embedding program.
    pub fn from_bytes(id: u64, data: Vec<u8>) -> (s: Segment)
        ensures
            s@.id == id,
            s@.data == data@,
    {
        Segment { id, data }
    }

    /// The segment id.
    pub fn id(&self) -> (r: u64)
        ensures
            r == self@.id,
    {
        self.id
    }

    /// How many bytes the segment holds.
    pub fn len(&self) -> (r: usize)
        ensures
            r == self@.data.len(),
    {
        self.data.len()
    }

    /// The raw segment bytes.
    pub fn data(&self) -> (r: &Vec<u8>)
        ensures
            r@ == self@.data,
    {
        &self.data
    }

    /// Append the encoded record at the current end of the segment and
    /// return the byte offset at which the value begins, the offset the
    /// keydir stores. The write is append-only: every byte already in the
    /// segment stays where it was.
    pub fn append(&mut self, e: &Entry) -> (pos: u64)
        requires
            old(self)@.data.len() + RECORD_HEADER_BYTES + e@.key.len() + e@.value.len()
                <= usize::MAX,
        ensures
            final(self)@.id == old(self)@.id,
            final(self)@.data == old(self)@.data + spec_encode(e@),
            pos == old(self)@.data.len() + RECORD_HEADER_BYTES + e@.key.len(),
            pos + e@.value.len() == final(self)@.data.len(),
            final(self)@.data.subrange(pos as int, pos + e@.value.len()) == e@.value,
    {
        proof {
            lemma_auto_spec_u64_to_from_le_bytes();
        }
        let base = self.data.len();
        let klen = e.key().len();
        let mut enc = e.encode();
        self.data.append(&mut enc);
        let pos = (base + RECORD_HEADER_BYTES + klen) as u64;
        proof {
            let v = e@.value;
            assert(self.data@.subrange(pos as int, pos + v.len() as int) =~= v);
        }
        pos
    }

    /// Read the record that starts at byte position `offset`, returning
    /// it and the number of bytes it occupies, so that repeated calls
    /// starting from offset 0 walk the segment forward record by record,
    /// as recovery and merge replay it; restarting is starting over at 0.
    /// Fails with `CorruptRecord` exactly when no complete record starts
    /// there: at the clean end of a segment, and at a torn tail.
    pub fn next_entry(&self, offset: usize) -> (r: Result<(Entry, usize), CaskError>)
        ensures
            spec_decode_at(self@.data, offset as int) matches Some(p) ==> r matches Ok(q)
                && q.0@ == p.0 && q.1 as int == p.1,
            spec_decode_at(self@.data, offset as int) is None ==> r == Err::<
                (Entry, usize),
                CaskError,
            >(CaskError::CorruptRecord),
    {
        Entry::decode(self.data.as_slice(), offset)
    }

    /// Read exactly `size` bytes at `offset`. Fails with `CorruptRecord`
    /// exactly when the segment is shorter than the requested range,
    /// which signals corruption or a stale keydir entry and is surfaced,
    /// never papered over.
    pub fn read_value(&self, offset: u64, size: u64) -> (r: Result<Vec<u8>, CaskError>)
        ensures
            offset + size <= self@.data.len() ==> (r matches Ok(v) && v@ == self@.data.subrange(
                offset as int,
                offset + size,
            )),
            offset + size > self@.data.len() ==> r == Err::<Vec<u8>, CaskError>(
                CaskError::CorruptRecord,
            ),
    {
        let n = self.data.len();
        if offset > n as u64 || size > n as u64 - offset {
            return Err(CaskError::CorruptRecord);
        }
        let start = offset as usize;
        let stop = start + (size as usize);
        Ok(slice_to_vec(slice_subrange(self.data.as_slice(), start, stop)))
    }
}

} // verus!
