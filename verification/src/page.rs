use vstd::prelude::*;
use vstd::bytes::{spec_u64_from_le_bytes, spec_u64_to_le_bytes, u64_from_le_bytes, u64_to_le_bytes};
use vstd::slice::{slice_index_get, slice_subrange, slice_to_vec};
use crate::errors::CaskError;

verus! {

/// Width of the page header: one eight-byte little-endian integer at
/// offset 0 that stores the current free-boundary offset of the page.
pub const PAGE_HEADER_BYTES: usize = 8;

/// Width of the length prefix that precedes every record in a page.
pub const PAGE_LEN_PREFIX_BYTES: usize = 8;

/// A fixed-size block that stores serialized keydir records compactly.
///
/// The block fills from the high end toward the low end: each write
/// computes its start by subtracting the record length and its length
/// prefix from the current free boundary. The first eight bytes of the
/// block always hold the boundary, so a loader can read the header and
/// know where valid data begins without scanning. A write that would run
/// past the header fails with `PageFull` instead of overflowing.
///
/// The boundary of a fresh page sits at `block_size - 1`, so the block's
/// last byte is never occupied and the usable capacity is one byte less
/// than the block minus its header; `write`'s contract states the exact
/// rule.
pub struct Page {
    block_size: u64,
    block_start_pos: usize,
    contents: Vec<u8>,
}

impl Page {
    /// The block size this page was created with.
    pub closed spec fn spec_block_size(self) -> u64 {
        self.block_size
    }

    /// The current free boundary: records occupy bytes above it.
    pub closed spec fn boundary(self) -> int {
        self.block_start_pos as int
    }

    /// The raw bytes of the block.
    pub closed spec fn bytes(self) -> Seq<u8> {
        self.contents@
    }

    /// Well-formedness: the buffer has exactly `block_size` bytes and the
    /// boundary lies inside the block.
    pub closed spec fn wf(self) -> bool {
        &&& self.contents@.len() == self.block_size
        &&& 1 <= self.block_size
        &&& self.block_start_pos < self.block_size
    }

    /// Bounds that well-formedness gives: the buffer is exactly one block
    /// and the boundary lies inside it.
    pub proof fn lemma_wf_bounds(self)
        requires
            self.wf(),
        ensures
            self.bytes().len() == self.spec_block_size(),
            1 <= self.spec_block_size(),
            0 <= self.boundary() < self.spec_block_size(),
    {
    }

    /// A fresh page whose boundary sits at the top of the block: the rest
    /// of the block is zeroed, and the header at offset 0 already stores
    /// the boundary, so even a page flushed before any write loads back
    /// as the empty page it is. A block too small to hold the header gets
    /// no header; such a page can hold no record either.
    pub fn new(block_size: u64) -> (p: Page)
        requires
            1 <= block_size,
            block_size <= usize::MAX as u64,
        ensures
            p.wf(),
            p.spec_block_size() == block_size,
            p.boundary() == block_size - 1,
            p.bytes().len() == block_size,
            block_size >= 8 ==> p.bytes().subrange(0, 8) == spec_u64_to_le_bytes(
                (block_size - 1) as u64,
            ),
            forall|i: int| (if block_size >= 8 { 8int } else { 0int }) <= i < block_size
                ==> p.bytes()[i] == 0u8,
    {
        let n = block_size as usize;
        let mut contents: Vec<u8> = Vec::new();
        let mut i: usize = 0;
        while i < n
            invariant
                i <= n,
                contents@.len() == i,
                forall|m: int| 0 <= m < i ==> contents@[m] == 0u8,
            decreases n - i,
        {
            contents.push(0u8);
            i += 1;
        }
        let boundary = n - 1;
        if n >= 8 {
            let hdr = u64_to_le_bytes(boundary as u64);
            let mut j: usize = 0;
            while j < 8
                invariant
                    j <= 8,
                    n >= 8,
                    hdr@.len() == 8,
                    hdr@ == spec_u64_to_le_bytes(boundary as u64),
                    contents@.len() == n,
                    forall|m: int| 0 <= m < j ==> contents@[m] == hdr@[m],
                    forall|m: int| j <= m < n ==> contents@[m] == 0u8,
                decreases 8 - j,
            {
                let b = hdr[j];
                contents.set(j, b);
                j += 1;
            }
            proof {
                assert(contents@.subrange(0, 8) =~= spec_u64_to_le_bytes(boundary as u64));
            }
        }
        Page { block_size, block_start_pos: boundary, contents }
    }

    /// The free boundary offset.
    pub fn block_start_pos(&self) -> (r: usize)
        ensures
            r as int == self.boundary(),
    {
        self.block_start_pos
    }

    /// The block size.
    pub fn block_size(&self) -> (r: u64)
        ensures
            r == self.spec_block_size(),
    {
        self.block_size
    }

    /// The raw block bytes.
    pub fn contents(&self) -> (r: &Vec<u8>)
        ensures
            r@ == self.bytes(),
    {
        &self.contents
    }

    /// Write the length prefix of `stream` and then `stream` itself at
    /// byte position `pos` of the block, leaving every other byte alone.
    fn write_at(&mut self, stream: &[u8], pos: usize)
        requires
            old(self).wf(),
            pos + PAGE_LEN_PREFIX_BYTES + stream@.len() <= old(self).bytes().len(),
        ensures
            final(self).wf(),
            final(self).spec_block_size() == old(self).spec_block_size(),
            final(self).boundary() == old(self).boundary(),
            final(self).bytes().len() == old(self).bytes().len(),
            final(self).bytes().subrange(pos as int, pos + 8) == spec_u64_to_le_bytes(
                stream@.len() as u64,
            ),
            final(self).bytes().subrange(pos + 8, pos + 8 + stream@.len()) == stream@,
            forall|m: int|
                0 <= m < old(self).bytes().len() && !(pos <= m < pos + 8 + stream@.len())
                    ==> final(self).bytes()[m] == old(self).bytes()[m],
    {
        let len = stream.len();
        let total = self.contents.len();
        let hdr = u64_to_le_bytes(len as u64);
        let mut i: usize = 0;
        while i < 8
            invariant
                i <= 8,
                hdr@.len() == 8,
                hdr@ == spec_u64_to_le_bytes(len as u64),
                pos + 8 + len <= total,
                self.contents@.len() == total,
                self.contents@.len() == old(self).bytes().len(),
                self.block_size == old(self).spec_block_size(),
                self.block_start_pos == old(self).block_start_pos,
                forall|m: int| 0 <= m < i ==> self.contents@[pos + m] == hdr@[m],
                forall|m: int|
                    0 <= m < old(self).bytes().len() && !(pos <= m < pos + i)
                        ==> self.contents@[m] == old(self).bytes()[m],
            decreases 8 - i,
        {
            let b = hdr[i];
            self.contents.set(pos + i, b);
            i += 1;
        }
        let mut j: usize = 0;
        while j < len
            invariant
                j <= len,
                len == stream@.len(),
                pos + 8 + len <= total,
                self.contents@.len() == total,
                self.contents@.len() == old(self).bytes().len(),
                self.block_size == old(self).spec_block_size(),
                self.block_start_pos == old(self).block_start_pos,
                forall|m: int|
                    0 <= m < 8 ==> #[trigger] self.contents@[pos + m] == spec_u64_to_le_bytes(
                        len as u64,
                    )[m],
                forall|m: int| 0 <= m < j ==> self.contents@[pos + 8 + m] == stream@[m],
                forall|m: int|
                    0 <= m < old(self).bytes().len() && !(pos <= m < pos + 8 + j)
                        ==> self.contents@[m] == old(self).bytes()[m],
            decreases len - j,
        {
            let b = *slice_index_get(stream, j);
            self.contents.set(pos + 8 + j, b);
            j += 1;
        }
        proof {
            assert(self.contents@.subrange(pos as int, pos + 8) =~= spec_u64_to_le_bytes(
                stream@.len() as u64,
            ));
            assert(self.contents@.subrange(pos + 8, pos + 8 + stream@.len()) =~= stream@);
        }
    }

    /// Append one record to the page, growing from the high end toward
    /// the low end.
    ///
    /// The write fails with `PageFull` exactly when the length prefix and
    /// the payload no longer fit between the header and the boundary; a
    /// failed write leaves the page untouched. A successful write moves
    /// the boundary down by the record's footprint, stores the record
    /// there, and records the new boundary in the page header.
    pub fn write(&mut self, stream: &[u8]) -> (r: Result<(), CaskError>)
        requires
            old(self).wf(),
        ensures
            final(self).wf(),
            final(self).spec_block_size() == old(self).spec_block_size(),
            r is Err <==> old(self).boundary() < stream@.len() + 16,
            r is Err ==> r == Err::<(), CaskError>(CaskError::PageFull) && *final(self) == *old(
                self,
            ),
            r is Ok ==> {
                let nb = old(self).boundary() - 8 - stream@.len();
                &&& final(self).boundary() == nb
                &&& final(self).bytes().len() == old(self).bytes().len()
                &&& final(self).bytes().subrange(0, 8) == spec_u64_to_le_bytes(nb as u64)
                &&& final(self).bytes().subrange(nb, nb + 8) == spec_u64_to_le_bytes(
                    stream@.len() as u64,
                )
                &&& final(self).bytes().subrange(nb + 8, old(self).boundary()) == stream@
                &&& forall|m: int|
                    8 <= m < nb ==> final(self).bytes()[m] == old(self).bytes()[m]
                &&& forall|m: int|
                    old(self).boundary() <= m < old(self).bytes().len() ==> final(self).bytes()[m]
                        == old(self).bytes()[m]
            },
    {
        let len = stream.len();
        if self.block_start_pos < PAGE_HEADER_BYTES + PAGE_LEN_PREFIX_BYTES
            || self.block_start_pos - PAGE_HEADER_BYTES - PAGE_LEN_PREFIX_BYTES < len {
            return Err(CaskError::PageFull);
        }
        let start_pos = self.block_start_pos - 8 - len;
        self.write_at(stream, start_pos);
        self.block_start_pos = start_pos;
        let hdr = u64_to_le_bytes(start_pos as u64);
        let ghost mid = self.contents@;
        let mut i: usize = 0;
        while i < 8
            invariant
                i <= 8,
                hdr@.len() == 8,
                hdr@ == spec_u64_to_le_bytes(start_pos as u64),
                self.contents@.len() == mid.len(),
                8 <= start_pos,
                start_pos + 8 <= mid.len(),
                self.block_size == old(self).spec_block_size(),
                self.block_start_pos == start_pos,
                forall|m: int| 0 <= m < i ==> self.contents@[m] == hdr@[m],
                forall|m: int| i <= m < mid.len() ==> self.contents@[m] == mid[m],
            decreases 8 - i,
        {
            let b = hdr[i];
            self.contents.set(i, b);
            i += 1;
        }
        proof {
            assert(self.contents@.subrange(0, 8) =~= spec_u64_to_le_bytes(start_pos as u64));
            assert(self.contents@.subrange(start_pos as int, start_pos + 8) =~= mid.subrange(
                start_pos as int,
                start_pos + 8,
            ));
            assert(self.contents@.subrange(start_pos + 8, start_pos + 8 + stream@.len())
                =~= mid.subrange(start_pos + 8, start_pos + 8 + stream@.len()));
        }
        Ok(())
    }

    /// Read back the record whose length prefix starts at byte position
    /// `pos`, returning the payload and the position just past the
    /// record, where the next older record (if any) begins.
    ///
    /// Fails with `CorruptRecord` exactly when the prefix or the declared
    /// payload runs past the end of the block.
    pub fn record_at(&self, pos: usize) -> (r: Result<(Vec<u8>, usize), CaskError>)
        requires
            self.wf(),
        ensures
            ({
                let b = self.bytes();
                if pos + 8 > b.len() || spec_u64_from_le_bytes(b.subrange(pos as int, pos + 8))
                    > b.len() - pos - 8 {
                    r == Err::<(Vec<u8>, usize), CaskError>(CaskError::CorruptRecord)
                } else {
                    let n = spec_u64_from_le_bytes(b.subrange(pos as int, pos + 8)) as int;
                    r matches Ok(q) && q.0@ == b.subrange(pos + 8, pos + 8 + n) && q.1 == pos + 8
                        + n
                }
            }),
    {
        let total = self.contents.len();
        if pos > total || total - pos < 8 {
            return Err(CaskError::CorruptRecord);
        }
        let n64 = u64_from_le_bytes(slice_subrange(self.contents.as_slice(), pos, pos + 8));
        let rem = total - pos - 8;
        if n64 > rem as u64 {
            return Err(CaskError::CorruptRecord);
        }
        let n = n64 as usize;
        let payload = slice_to_vec(slice_subrange(self.contents.as_slice(), pos + 8, pos + 8 + n));
        Ok((payload, pos + 8 + n))
    }

    /// Write the whole fixed-size block into the byte image of a hint
    /// file at position `block_id * block_size`, extending the image when
    /// it ends exactly there and overwriting in place otherwise. Bytes of
    /// the image outside the block are left alone.
    pub fn flush(&self, file: &mut Vec<u8>, block_id: u64)
        requires
            self.wf(),
            block_id * self.spec_block_size() <= old(file)@.len(),
            (block_id + 1) * self.spec_block_size() <= usize::MAX,
        ensures
            ({
                let start = block_id * self.spec_block_size();
                let stop = start + self.spec_block_size();
                &&& final(file)@.len() == if old(file)@.len() >= stop {
                    old(file)@.len() as int
                } else {
                    stop
                }
                &&& final(file)@.subrange(start as int, stop as int) == self.bytes()
                &&& final(file)@.subrange(0, start as int) == old(file)@.subrange(0, start as int)
                &&& forall|m: int|
                    stop <= m < old(file)@.len() ==> final(file)@[m] == old(file)@[m]
            }),
    {
        proof {
            assert(block_id * self.spec_block_size() + self.spec_block_size() == (block_id + 1)
                * self.spec_block_size()) by (nonlinear_arith);
        }
        let start = (block_id * self.block_size) as usize;
        let bs = self.block_size as usize;
        let mut i: usize = 0;
        while i < bs
            invariant
                i <= bs,
                bs == self.spec_block_size(),
                self.wf(),
                start == block_id * self.spec_block_size(),
                start + bs <= usize::MAX,
                start <= old(file)@.len(),
                file@.len() == if old(file)@.len() >= start + i {
                    old(file)@.len() as int
                } else {
                    start + i
                },
                forall|m: int| 0 <= m < start ==> file@[m] == old(file)@[m],
                forall|m: int| 0 <= m < i ==> file@[start + m] == self.bytes()[m],
                forall|m: int|
                    start + i <= m < old(file)@.len() ==> file@[m] == old(file)@[m],
            decreases bs - i,
        {
            let p = start + i;
            let b = self.contents[i];
            if p < file.len() {
                file.set(p, b);
            } else {
                file.push(b);
            }
            i += 1;
        }
        proof {
            let startl = block_id * self.spec_block_size();
            let stop = startl + self.spec_block_size();
            assert(file@.subrange(startl as int, stop as int) =~= self.bytes());
            assert(file@.subrange(0, startl as int) =~= old(file)@.subrange(0, startl as int));
        }
    }

    /// Read block `block_id` back from the byte image of a hint file and
    /// reconstruct the free boundary from the block header, making the
    /// page ready for continued writing or for record extraction from the
    /// boundary forward.
    ///
    /// Fails with `CorruptRecord` exactly when the block is too small to
    /// hold a header, the image does not cover the block, or the stored
    /// boundary lies outside the block; a failed load leaves the page
    /// untouched.
    pub fn load(&mut self, file: &Vec<u8>, block_id: u64) -> (r: Result<(), CaskError>)
        requires
            old(self).wf(),
        ensures
            final(self).wf(),
            final(self).spec_block_size() == old(self).spec_block_size(),
            ({
                let start = block_id * old(self).spec_block_size();
                let stop = start + old(self).spec_block_size();
                if old(self).spec_block_size() < 8 || stop > file@.len()
                    || spec_u64_from_le_bytes(file@.subrange(start as int, start + 8))
                    >= old(self).spec_block_size() {
                    r == Err::<(), CaskError>(CaskError::CorruptRecord) && *final(self) == *old(
                        self,
                    )
                } else {
                    r is Ok && final(self).bytes() == file@.subrange(start as int, stop as int)
                        && final(self).boundary() == spec_u64_from_le_bytes(
                        file@.subrange(start as int, start + 8),
                    )
                }
            }),
    {
        if self.block_size < PAGE_HEADER_BYTES as u64 {
            return Err(CaskError::CorruptRecord);
        }
        let flen = file.len();
        proof {
            assert((block_id as int) * (self.spec_block_size() as int) <= (u64::MAX as int) * (
            u64::MAX as int)) by (nonlinear_arith)
                requires
                    block_id as int <= u64::MAX as int,
                    self.spec_block_size() as int <= u64::MAX as int,
                    0 <= block_id as int,
                    0 <= self.spec_block_size() as int,
            ;
            assert(block_id * self.spec_block_size() >= 0) by (nonlinear_arith);
        }
        let need: u128 = (block_id as u128) * (self.block_size as u128) + (self.block_size
            as u128);
        if need > flen as u128 {
            return Err(CaskError::CorruptRecord);
        }
        let start = (block_id * self.block_size) as usize;
        let bs = self.block_size as usize;
        let hdr = u64_from_le_bytes(slice_subrange(file.as_slice(), start, start + 8));
        if hdr >= self.block_size {
            return Err(CaskError::CorruptRecord);
        }
        self.contents = slice_to_vec(slice_subrange(file.as_slice(), start, start + bs));
        self.block_start_pos = hdr as usize;
        Ok(())
    }
}

} // verus!
