use vstd::prelude::*;
use vstd::bytes::{
    lemma_auto_spec_u64_to_from_le_bytes, spec_u64_from_le_bytes, spec_u64_to_le_bytes,
    u64_from_le_bytes, u64_to_le_bytes,
};
use vstd::slice::{slice_index_get, slice_subrange, slice_to_vec};
use crate::errors::CaskError;

verus! {

/// Width of the fixed record header: one record-kind byte followed by the
/// key size and the value size, each an eight-byte little-endian integer.
/// The widths are fixed so that segment files are portable across
/// machines; nothing depends on the platform word size.
pub const RECORD_HEADER_BYTES: usize = 17;

/// The mathematical shape of a record: a key, a value, and whether the
/// record is a tombstone. A tombstone marks a deletion and always carries
/// an empty value; its kind byte keeps it distinguishable from a put of an
/// empty value.
pub ghost struct EntryView {
    pub key: Seq<u8>,
    pub value: Seq<u8>,
    pub tombstone: bool,
}

/// One key-value (or tombstone) record, the unit that segments store.
pub struct Entry {
    key: Vec<u8>,
    value: Vec<u8>,
    tombstone: bool,
}

impl View for Entry {
    type V = EntryView;

    closed spec fn view(&self) -> EntryView {
        EntryView { key: self.key@, value: self.value@, tombstone: self.tombstone }
    }
}

/// The kind byte that opens every encoded record.
pub open spec fn spec_kind_byte(tombstone: bool) -> u8 {
    if tombstone {
        1u8
    } else {
        0u8
    }
}

/// The exact byte string that `Entry::encode` produces: kind byte, key
/// size, value size, key bytes, value bytes.
pub open spec fn spec_encode(e: EntryView) -> Seq<u8> {
    seq![spec_kind_byte(e.tombstone)] + spec_u64_to_le_bytes(e.key.len() as u64)
        + spec_u64_to_le_bytes(e.value.len() as u64) + e.key + e.value
}

/// The result of decoding one record from `b` starting at `pos`: the
/// record and the number of bytes it occupies, or `None` when no complete
/// record starts there (short header, unknown kind byte, or declared sizes
/// that run past the end of the buffer).
pub open spec fn spec_decode_at(b: Seq<u8>, pos: int) -> Option<(EntryView, int)> {
    if pos < 0 || pos + RECORD_HEADER_BYTES > b.len() {
        None
    } else {
        let kind = b[pos];
        let ks = spec_u64_from_le_bytes(b.subrange(pos + 1, pos + 9)) as int;
        let vs = spec_u64_from_le_bytes(b.subrange(pos + 9, pos + 17)) as int;
        if kind != 0 && kind != 1 {
            None
        } else if pos + RECORD_HEADER_BYTES + ks + vs > b.len() {
            None
        } else {
            Some(
                (
                    EntryView {
                        key: b.subrange(pos + 17, pos + 17 + ks),
                        value: b.subrange(pos + 17 + ks, pos + 17 + ks + vs),
                        tombstone: kind == 1,
                    },
                    RECORD_HEADER_BYTES + ks + vs,
                ),
            )
        }
    }
}

impl Entry {
    /// A put record for the given key and value.
    pub fn new(key: &[u8], value: &[u8]) -> (e: Entry)
        ensures
            e@.key == key@,
            e@.value == value@,
            !e@.tombstone,
    {
        Entry { key: slice_to_vec(key), value: slice_to_vec(value), tombstone: false }
    }

    /// A tombstone record for the given key: it marks the key as deleted
    /// and carries no value.
    pub fn tombstone(key: &[u8]) -> (e: Entry)
        ensures
            e@.key == key@,
            e@.value == Seq::<u8>::empty(),
            e@.tombstone,
    {
        Entry { key: slice_to_vec(key), value: Vec::new(), tombstone: true }
    }

    /// The key length, as the codec records it.
    pub fn key_size(&self) -> (r: u64)
        ensures
            r == self@.key.len() as u64,
    {
        self.key.len() as u64
    }

    /// The value length, as the codec records it.
    pub fn value_size(&self) -> (r: u64)
        ensures
            r == self@.value.len() as u64,
    {
        self.value.len() as u64
    }

    /// Whether this record is a tombstone.
    pub fn is_tombstone(&self) -> (r: bool)
        ensures
            r == self@.tombstone,
    {
        self.tombstone
    }

    /// The key bytes.
    pub fn key(&self) -> (r: &Vec<u8>)
        ensures
            r@ == self@.key,
    {
        &self.key
    }

    /// The value bytes.
    pub fn value(&self) -> (r: &Vec<u8>)
        ensures
            r@ == self@.value,
    {
        &self.value
    }

    /// Serialize the record to its on-disk byte string.
    pub fn encode(&self) -> (out: Vec<u8>)
        ensures
            out@ == spec_encode(self@),
    {
        let mut out: Vec<u8> = Vec::new();
        if self.tombstone {
            out.push(1u8);
        } else {
            out.push(0u8);
        }
        let mut ks = u64_to_le_bytes(self.key.len() as u64);
        out.append(&mut ks);
        let mut vs = u64_to_le_bytes(self.value.len() as u64);
        out.append(&mut vs);
        let mut kb = slice_to_vec(self.key.as_slice());
        out.append(&mut kb);
        let mut vb = slice_to_vec(self.value.as_slice());
        out.append(&mut vb);
        proof {
            assert(out@ =~= spec_encode(self@));
        }
        out
    }

    /// Decode one record from `buf` at byte position `offset`, returning
    /// the record and the number of bytes consumed, or `CorruptRecord`
    /// exactly when no complete record starts there.
    pub fn decode(buf: &[u8], offset: usize) -> (r: Result<(Entry, usize), CaskError>)
        ensures
            spec_decode_at(buf@, offset as int) matches Some(p) ==> r matches Ok(q) && q.0@ == p.0
                && q.1 as int == p.1,
            spec_decode_at(buf@, offset as int) is None ==> r == Err::<
                (Entry, usize),
                CaskError,
            >(CaskError::CorruptRecord),
    {
        let n = buf.len();
        if n < RECORD_HEADER_BYTES || offset > n - RECORD_HEADER_BYTES {
            return Err(CaskError::CorruptRecord);
        }
        let kind = *slice_index_get(buf, offset);
        if kind > 1 {
            return Err(CaskError::CorruptRecord);
        }
        let ks64 = u64_from_le_bytes(slice_subrange(buf, offset + 1, offset + 9));
        let vs64 = u64_from_le_bytes(slice_subrange(buf, offset + 9, offset + 17));
        let rem = n - offset - RECORD_HEADER_BYTES;
        if ks64 > rem as u64 {
            return Err(CaskError::CorruptRecord);
        }
        let ks = ks64 as usize;
        if vs64 > (rem - ks) as u64 {
            return Err(CaskError::CorruptRecord);
        }
        let vs = vs64 as usize;
        let key = slice_to_vec(slice_subrange(buf, offset + 17, offset + 17 + ks));
        let value = slice_to_vec(slice_subrange(buf, offset + 17 + ks, offset + 17 + ks + vs));
        let consumed = RECORD_HEADER_BYTES + ks + vs;
        Ok((Entry { key, value, tombstone: kind == 1 }, consumed))
    }
}

/// Shape of a successful decode: the consumed length is the header plus
/// the key and value lengths, the record lies within the buffer, and the
/// key and value are the byte ranges the header declares.
pub proof fn lemma_decode_at_props(b: Seq<u8>, pos: int)
    requires
        spec_decode_at(b, pos) is Some,
    ensures
        ({
            let p = spec_decode_at(b, pos).unwrap();
            &&& 0 <= pos
            &&& p.1 == RECORD_HEADER_BYTES + p.0.key.len() + p.0.value.len()
            &&& pos + p.1 <= b.len()
            &&& p.0.key == b.subrange(
                pos + RECORD_HEADER_BYTES,
                pos + RECORD_HEADER_BYTES + p.0.key.len(),
            )
            &&& p.0.value == b.subrange(pos + RECORD_HEADER_BYTES + p.0.key.len(), pos + p.1)
        }),
{
    let ks = spec_u64_from_le_bytes(b.subrange(pos + 1, pos + 9)) as int;
    let vs = spec_u64_from_le_bytes(b.subrange(pos + 9, pos + 17)) as int;
    let p = spec_decode_at(b, pos).unwrap();
    assert(p.0.key.len() == ks);
    assert(p.0.value.len() == vs);
}

/// A record that decodes from `b` decodes identically, and at the same
/// position, after any bytes are appended to `b`: decoding never looks
/// past the record it returns, so an append-only log keeps every old
/// record readable.
pub proof fn lemma_decode_extend(b: Seq<u8>, ext: Seq<u8>, pos: int)
    requires
        spec_decode_at(b, pos) is Some,
    ensures
        spec_decode_at(b + ext, pos) == spec_decode_at(b, pos),
{
    lemma_decode_at_props(b, pos);
    let c = b + ext;
    let p = spec_decode_at(b, pos).unwrap();
    let k = p.0.key.len() as int;
    let v = p.0.value.len() as int;
    assert(c.subrange(pos + 1, pos + 9) =~= b.subrange(pos + 1, pos + 9));
    assert(c.subrange(pos + 9, pos + 17) =~= b.subrange(pos + 9, pos + 17));
    assert(c.subrange(pos + 17, pos + 17 + k) =~= b.subrange(pos + 17, pos + 17 + k));
    assert(c.subrange(pos + 17 + k, pos + 17 + k + v) =~= b.subrange(
        pos + 17 + k,
        pos + 17 + k + v,
    ));
    assert(c[pos] == b[pos]);
}

/// A record appended at the end of `b` decodes exactly at the old end of
/// `b`, consuming exactly its own length.
pub proof fn lemma_decode_at_append(b: Seq<u8>, v: EntryView)
    requires
        v.key.len() <= u64::MAX,
        v.value.len() <= u64::MAX,
    ensures
        spec_decode_at(b + spec_encode(v), b.len() as int) == Some(
            (v, spec_encode(v).len() as int),
        ),
        spec_encode(v).len() == RECORD_HEADER_BYTES + v.key.len() + v.value.len(),
{
    lemma_auto_spec_u64_to_from_le_bytes();
    let enc = spec_encode(v);
    let c = b + enc;
    let pos = b.len() as int;
    let k = v.key.len() as int;
    let vl = v.value.len() as int;
    assert(spec_u64_to_le_bytes(v.key.len() as u64).len() == 8);
    assert(spec_u64_to_le_bytes(v.value.len() as u64).len() == 8);
    assert(enc.len() == 17 + k + vl);
    assert(c.subrange(pos + 1, pos + 9) =~= spec_u64_to_le_bytes(v.key.len() as u64));
    assert(c.subrange(pos + 9, pos + 17) =~= spec_u64_to_le_bytes(v.value.len() as u64));
    assert(c[pos] == spec_kind_byte(v.tombstone));
    assert(c.subrange(pos + 17, pos + 17 + k) =~= v.key);
    assert(c.subrange(pos + 17 + k, pos + 17 + k + vl) =~= v.value);
    let decoded = spec_decode_at(c, pos);
    assert(decoded matches Some(p) && p.0 == v && p.1 == 17 + k + vl);
}

/// Round trip of the codec: a record encoded and then decoded, with any
/// bytes following it, comes back exactly, key, value and kind alike, and
/// consumes exactly its own length. Tombstones and puts of an empty value
/// decode to distinct records because the kind byte differs.
pub proof fn lemma_codec_round_trip(e: EntryView, rest: Seq<u8>)
    requires
        e.key.len() <= u64::MAX,
        e.value.len() <= u64::MAX,
    ensures
        spec_decode_at(spec_encode(e) + rest, 0) == Some(
            (e, spec_encode(e).len() as int),
        ),
        spec_encode(e).len() == RECORD_HEADER_BYTES + e.key.len() + e.value.len(),
{
    lemma_auto_spec_u64_to_from_le_bytes();
    let b = spec_encode(e) + rest;
    let k = e.key.len() as int;
    let v = e.value.len() as int;
    assert(spec_u64_to_le_bytes(e.key.len() as u64).len() == 8);
    assert(spec_u64_to_le_bytes(e.value.len() as u64).len() == 8);
    assert(spec_encode(e).len() == 17 + k + v);
    assert(b.subrange(1, 9) =~= spec_u64_to_le_bytes(e.key.len() as u64));
    assert(b.subrange(9, 17) =~= spec_u64_to_le_bytes(e.value.len() as u64));
    assert(spec_u64_from_le_bytes(b.subrange(1, 9)) == e.key.len() as u64);
    assert(spec_u64_from_le_bytes(b.subrange(9, 17)) == e.value.len() as u64);
    assert(b[0] == spec_kind_byte(e.tombstone));
    assert(b.subrange(17, 17 + k) =~= e.key);
    assert(b.subrange(17 + k, 17 + k + v) =~= e.value);
    let decoded = spec_decode_at(b, 0);
    assert(decoded matches Some(p) && p.0 == e && p.1 == 17 + k + v);
}

} // verus!
