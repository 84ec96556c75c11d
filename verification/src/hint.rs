use vstd::prelude::*;
use vstd::bytes::{
    lemma_auto_spec_u64_to_from_le_bytes, spec_u64_from_le_bytes, spec_u64_to_le_bytes,
    u64_from_le_bytes, u64_to_le_bytes,
};
use vstd::slice::{slice_index_get, slice_subrange, slice_to_vec};
use crate::errors::CaskError;
use crate::keydir::{spec_apply, Keydir, KeydirEntry};
use crate::page::Page;

verus! {

/// Width of the fixed hint-record header: one tombstone byte, then the
/// value offset and the value size, each an eight-byte little-endian
/// integer. The key follows; the segment id is not stored, because a hint
/// file accompanies exactly one segment.
pub const HINT_HEADER_BYTES: usize = 17;

/// The exact byte string that `encode_hint` produces for a key and the
/// keydir entry `e`: tombstone byte, value offset, value size, key bytes.
pub open spec fn spec_hint_encode(k: Seq<u8>, e: KeydirEntry) -> Seq<u8> {
    seq![if e.tombstone {
        1u8
    } else {
        0u8
    }] + spec_u64_to_le_bytes(e.value_pos) + spec_u64_to_le_bytes(e.value_size) + k
}

/// The key, value offset, value size and tombstone flag that one whole
/// hint record holds, or `None` when the record is too short or its
/// leading byte is no tombstone flag.
pub open spec fn spec_hint_decode(b: Seq<u8>) -> Option<(Seq<u8>, u64, u64, bool)> {
    if b.len() < HINT_HEADER_BYTES || (b[0] != 0 && b[0] != 1) {
        None
    } else {
        Some(
            (
                b.subrange(HINT_HEADER_BYTES as int, b.len() as int),
                spec_u64_from_le_bytes(b.subrange(1, 9)),
                spec_u64_from_le_bytes(b.subrange(9, 17)),
                b[0] == 1,
            ),
        )
    }
}

/// Serialize one keydir record for the hint file of its segment.
pub fn encode_hint(key: &[u8], e: KeydirEntry) -> (out: Vec<u8>)
    ensures
        out@ == spec_hint_encode(key@, e),
{
    let mut out: Vec<u8> = Vec::new();
    if e.tombstone {
        out.push(1u8);
    } else {
        out.push(0u8);
    }
    let mut p = u64_to_le_bytes(e.value_pos);
    out.append(&mut p);
    let mut s = u64_to_le_bytes(e.value_size);
    out.append(&mut s);
    let mut k = slice_to_vec(key);
    out.append(&mut k);
    proof {
        assert(out@ =~= spec_hint_encode(key@, e));
    }
    out
}

/// Decode one whole hint record back into the key and the keydir entry
/// it stands for, placing it in segment `file_id`. Fails with
/// `CorruptRecord` exactly when the record is malformed.
pub fn decode_hint(bytes: &[u8], file_id: u64) -> (r: Result<(Vec<u8>, KeydirEntry), CaskError>)
    ensures
        match spec_hint_decode(bytes@) {
            Some(p) => r matches Ok(q) && q.0@ == p.0 && q.1 == (KeydirEntry {
                file_id,
                value_size: p.2,
                value_pos: p.1,
                tombstone: p.3,
            }),
            None => r == Err::<(Vec<u8>, KeydirEntry), CaskError>(CaskError::CorruptRecord),
        },
{
    let n = bytes.len();
    if n < HINT_HEADER_BYTES {
        return Err(CaskError::CorruptRecord);
    }
    let flag = *slice_index_get(bytes, 0);
    if flag > 1 {
        return Err(CaskError::CorruptRecord);
    }
    let value_pos = u64_from_le_bytes(slice_subrange(bytes, 1, 9));
    let value_size = u64_from_le_bytes(slice_subrange(bytes, 9, 17));
    let key = slice_to_vec(slice_subrange(bytes, HINT_HEADER_BYTES, n));
    Ok((key, KeydirEntry { file_id, value_size, value_pos, tombstone: flag == 1 }))
}

/// Round trip of the hint codec: a record encoded and decoded comes back
/// exactly, for any segment id the loader supplies.
pub proof fn lemma_hint_round_trip(k: Seq<u8>, e: KeydirEntry)
    ensures
        spec_hint_decode(spec_hint_encode(k, e)) == Some(
            (k, e.value_pos, e.value_size, e.tombstone),
        ),
{
    lemma_auto_spec_u64_to_from_le_bytes();
    let b = spec_hint_encode(k, e);
    assert(b.subrange(1, 9) =~= spec_u64_to_le_bytes(e.value_pos));
    assert(b.subrange(9, 17) =~= spec_u64_to_le_bytes(e.value_size));
    assert(b.subrange(HINT_HEADER_BYTES as int, b.len() as int) =~= k);
}

/// Append one keydir record to a hint page: the serialized form of
/// `write` in the page buffer. Fails with `PageFull` exactly when the
/// record no longer fits, and the caller rolls over to a fresh page. On
/// success the page carries `write`'s whole guarantee for the encoded
/// record: the boundary moves down by its footprint, the header stores
/// the new boundary, the length prefix and the record sit at the
/// boundary, and every other byte is untouched.
pub fn write_hint(page: &mut Page, key: &[u8], e: KeydirEntry) -> (r: Result<(), CaskError>)
    requires
        old(page).wf(),
    ensures
        final(page).wf(),
        final(page).spec_block_size() == old(page).spec_block_size(),
        r is Err <==> old(page).boundary() < spec_hint_encode(key@, e).len() + 16,
        r is Err ==> r == Err::<(), CaskError>(CaskError::PageFull) && *final(page) == *old(page),
        r is Ok ==> {
            let rec = spec_hint_encode(key@, e);
            let nb = old(page).boundary() - 8 - rec.len();
            &&& final(page).boundary() == nb
            &&& final(page).bytes().len() == old(page).bytes().len()
            &&& final(page).bytes().subrange(0, 8) == spec_u64_to_le_bytes(nb as u64)
            &&& final(page).bytes().subrange(nb, nb + 8) == spec_u64_to_le_bytes(rec.len() as u64)
            &&& final(page).bytes().subrange(nb + 8, old(page).boundary()) == rec
            &&& forall|m: int| 8 <= m < nb ==> final(page).bytes()[m] == old(page).bytes()[m]
            &&& forall|m: int|
                old(page).boundary() <= m < old(page).bytes().len() ==> final(page).bytes()[m]
                    == old(page).bytes()[m]
        },
{
    let rec = encode_hint(key, e);
    page.write(rec.as_slice())
}

/// The keydir that replaying one hint page into `m` yields: records are
/// read from the free boundary toward the top of the block and each is
/// applied in turn, tombstones removing their key and all other records
/// inserting theirs. `None` when the chain of records is malformed.
///
/// The chain runs from the newest record to the oldest, so of two records
/// for one key in a single page the older one is applied last and wins; a
/// hint page written for a sealed segment carries each key at most once,
/// so the order never matters there.
pub open spec fn spec_page_replay(
    b: Seq<u8>,
    pos: int,
    file_id: u64,
    m: Map<Seq<u8>, KeydirEntry>,
) -> Option<Map<Seq<u8>, KeydirEntry>>
    decreases b.len() - pos,
{
    if pos == b.len() - 1 {
        Some(m)
    } else if pos < 0 || pos + 8 > b.len() {
        None
    } else {
        let n = spec_u64_from_le_bytes(b.subrange(pos, pos + 8)) as int;
        if pos + 8 + n > b.len() {
            None
        } else {
            match spec_hint_decode(b.subrange(pos + 8, pos + 8 + n)) {
                None => None,
                Some(p) => spec_page_replay(
                    b,
                    pos + 8 + n,
                    file_id,
                    spec_apply(
                        m,
                        p.0,
                        KeydirEntry {
                            file_id,
                            value_size: p.2,
                            value_pos: p.1,
                            tombstone: p.3,
                        },
                    ),
                ),
            }
        }
    }
}

/// Replay one loaded hint page into the keydir: the fast recovery path,
/// equivalent to rescanning the page's segment but touching no value
/// bytes. Both paths feed `Keydir::apply`, one record at a time.
///
/// Fails with `CorruptRecord` exactly when the page's record chain is
/// malformed; the keydir then holds the records applied before the bad
/// one, and the caller falls back to rescanning the raw segment, which
/// rebuilds the keydir from scratch.
pub fn apply_hint_page(kd: &mut Keydir, page: &Page, file_id: u64) -> (r: Result<(), CaskError>)
    requires
        old(kd).wf(),
        page.wf(),
    ensures
        final(kd).wf(),
        match spec_page_replay(page.bytes(), page.boundary(), file_id, old(kd)@) {
            Some(m) => r is Ok && final(kd)@ == m,
            None => r == Err::<(), CaskError>(CaskError::CorruptRecord),
        },
{
    let ghost b = page.bytes();
    let ghost m0 = old(kd)@;
    proof {
        page.lemma_wf_bounds();
    }
    let top = page.contents().len();
    let mut pos = page.block_start_pos();
    while pos < top - 1
        invariant
            kd.wf(),
            m0 == old(kd)@,
            top == b.len(),
            top == page.bytes().len(),
            top >= 1,
            page.wf(),
            b == page.bytes(),
            pos <= top,
            spec_page_replay(b, pos as int, file_id, kd@) == spec_page_replay(
                b,
                page.boundary(),
                file_id,
                m0,
            ),
        decreases top - pos,
    {
        let (payload, next) = match page.record_at(pos) {
            Ok(p) => p,
            Err(_) => {
                proof {
                    assert(spec_page_replay(b, pos as int, file_id, kd@) is None);
                }
                return Err(CaskError::CorruptRecord);
            },
        };
        match decode_hint(payload.as_slice(), file_id) {
            Ok((key, e)) => {
                let ghost kdb = kd@;
                let ghost kseq = key@;
                kd.apply(key, e);
                proof {
                    assert(spec_page_replay(b, pos as int, file_id, kdb) == spec_page_replay(
                        b,
                        next as int,
                        file_id,
                        spec_apply(kdb, kseq, e),
                    ));
                }
                pos = next;
            },
            Err(_) => {
                proof {
                    assert(spec_page_replay(b, pos as int, file_id, kd@) is None);
                }
                return Err(CaskError::CorruptRecord);
            },
        }
    }
    if pos == top - 1 {
        Ok(())
    } else {
        proof {
            assert(pos == top);
            assert(spec_page_replay(b, pos as int, file_id, kd@) is None);
        }
        Err(CaskError::CorruptRecord)
    }
}

} // verus!
