use vstd::prelude::*;
use vstd::slice::{slice_index_get, slice_to_vec};
use crate::entry::{
    lemma_decode_at_append, lemma_decode_at_props, lemma_decode_extend, spec_decode_at,
    spec_encode, Entry, EntryView, RECORD_HEADER_BYTES,
};
use crate::errors::CaskError;
use crate::keydir::{spec_apply, Keydir, KeydirEntry};
use crate::segment::{Segment, SegmentView};

verus! {

/// The views of a sequence of segments.
pub open spec fn seg_views(s: Seq<Segment>) -> Seq<SegmentView> {
    s.map_values(|x: Segment| x@)
}

/// The keydir entry that replay derives from the record `v` decoded at
/// byte position `pos` of segment `id`: it points at the value bytes,
/// which begin right after the record header and the key.
pub open spec fn spec_entry_of(id: u64, pos: int, v: EntryView) -> KeydirEntry {
    KeydirEntry {
        file_id: id,
        value_size: v.value.len() as u64,
        value_pos: (pos + RECORD_HEADER_BYTES + v.key.len()) as u64,
        tombstone: v.tombstone,
    }
}

/// Replaying segment `id` with bytes `b` from position `pos` onward into
/// the keydir `m`: each complete record is applied in file order, and
/// replay stops at the first position where no complete record starts,
/// discarding a torn tail.
pub open spec fn spec_replay_bytes(
    b: Seq<u8>,
    pos: int,
    id: u64,
    m: Map<Seq<u8>, KeydirEntry>,
) -> Map<Seq<u8>, KeydirEntry>
    decreases b.len() - pos,
{
    match spec_decode_at(b, pos) {
        None => m,
        Some(p) => {
            if pos < 0 || p.1 < RECORD_HEADER_BYTES || pos + p.1 > b.len() {
                m
            } else {
                spec_replay_bytes(
                    b,
                    pos + p.1,
                    id,
                    spec_apply(m, p.0.key, spec_entry_of(id, pos, p.0)),
                )
            }
        },
    }
}

/// The keydir that replaying a sequence of segments from a fresh keydir
/// yields, oldest segment first, so that later segments' records for the
/// same key overwrite earlier ones: last write wins across segment
/// boundaries.
pub open spec fn spec_replay_all(segs: Seq<SegmentView>) -> Map<Seq<u8>, KeydirEntry>
    decreases segs.len(),
{
    if segs.len() == 0 {
        Map::empty()
    } else {
        spec_replay_bytes(segs.last().data, 0, segs.last().id, spec_replay_all(segs.drop_last()))
    }
}

/// A clean log from `pos` on: the bytes are a back-to-back sequence of
/// complete records with no torn tail. A fresh segment is a clean log,
/// and `put` and `delete` keep the active segment one, since each appends
/// exactly one encoded record.
pub open spec fn wf_log_at(b: Seq<u8>, pos: int) -> bool
    decreases b.len() - pos,
{
    ||| pos == b.len()
    ||| (match spec_decode_at(b, pos) {
        None => false,
        Some(p) => 0 <= pos && RECORD_HEADER_BYTES <= p.1 && pos + p.1 <= b.len() && wf_log_at(
            b,
            pos + p.1,
        ),
    })
}

/// Appending one record to a clean log extends its replay by exactly one
/// application of that record, keyed at the old end of the log, and the
/// log stays clean. Together with the byte clauses of `put` and `delete`
/// this connects a session's writes to what `Cask::open` replays: every
/// record a session appends is applied, in order, by the recovery of the
/// bytes it leaves behind.
pub proof fn lemma_replay_extend(
    b: Seq<u8>,
    pos: int,
    id: u64,
    m: Map<Seq<u8>, KeydirEntry>,
    v: EntryView,
)
    requires
        wf_log_at(b, pos),
        0 <= pos <= b.len(),
        v.key.len() <= u64::MAX,
        v.value.len() <= u64::MAX,
    ensures
        wf_log_at(b + spec_encode(v), pos),
        spec_replay_bytes(b + spec_encode(v), pos, id, m) == spec_apply(
            spec_replay_bytes(b, pos, id, m),
            v.key,
            spec_entry_of(id, b.len() as int, v),
        ),
    decreases b.len() - pos,
{
    let c = b + spec_encode(v);
    lemma_decode_at_append(b, v);
    if pos == b.len() {
        let n = spec_encode(v).len() as int;
        assert(spec_decode_at(b, pos) is None);
        assert(spec_replay_bytes(b, pos, id, m) == m);
        assert(spec_decode_at(c, pos) == Some((v, n)));
        assert(pos + n == c.len());
        assert(spec_decode_at(c, pos + n) is None);
        let applied = spec_apply(m, v.key, spec_entry_of(id, pos, v));
        assert(spec_replay_bytes(c, pos + n, id, applied) == applied);
        assert(spec_replay_bytes(c, pos, id, m) == applied);
        assert(wf_log_at(c, pos + n));
        assert(wf_log_at(c, pos));
    } else {
        let p = spec_decode_at(b, pos).unwrap();
        lemma_decode_extend(b, spec_encode(v), pos);
        lemma_decode_at_props(b, pos);
        let m2 = spec_apply(m, p.0.key, spec_entry_of(id, pos, p.0));
        lemma_replay_extend(b, pos + p.1, id, m2, v);
        assert(spec_replay_bytes(b, pos, id, m) == spec_replay_bytes(b, pos + p.1, id, m2));
        assert(spec_replay_bytes(c, pos, id, m) == spec_replay_bytes(c, pos + p.1, id, m2));
        assert(wf_log_at(c, pos));
    }
}

/// A deletion survives restart. A session that puts two values under a
/// key and then deletes it leaves, by the byte clauses of `put` and
/// `delete`, exactly these three records in its active segment; replaying
/// that segment from a fresh keydir, as `Cask::open` does, leaves the key
/// absent — recovery reconstructs the tombstoned state, not merely the
/// last put.
pub proof fn lemma_reopen_after_delete(k: Seq<u8>, v1: Seq<u8>, v2: Seq<u8>, id: u64)
    requires
        k.len() <= u64::MAX,
        v1.len() <= u64::MAX,
        v2.len() <= u64::MAX,
    ensures
        ({
            let log = spec_encode(EntryView { key: k, value: v1, tombstone: false })
                + spec_encode(EntryView { key: k, value: v2, tombstone: false }) + spec_encode(
                EntryView { key: k, value: Seq::<u8>::empty(), tombstone: true },
            );
            !spec_replay_bytes(log, 0, id, Map::empty()).contains_key(k)
        }),
{
    let e1 = EntryView { key: k, value: v1, tombstone: false };
    let e2 = EntryView { key: k, value: v2, tombstone: false };
    let e3 = EntryView { key: k, value: Seq::<u8>::empty(), tombstone: true };
    let b0 = Seq::<u8>::empty();
    let m0 = Map::<Seq<u8>, KeydirEntry>::empty();
    assert(wf_log_at(b0, 0));
    lemma_replay_extend(b0, 0, id, m0, e1);
    let b1 = b0 + spec_encode(e1);
    assert(b1 =~= spec_encode(e1));
    lemma_replay_extend(b1, 0, id, m0, e2);
    let b2 = b1 + spec_encode(e2);
    lemma_replay_extend(b2, 0, id, m0, e3);
}

/// The bytes of the segment in `svs` that carries `id`.
pub open spec fn spec_seg_data_in(svs: Seq<SegmentView>, id: u64) -> Seq<u8> {
    svs[choose|i: int| 0 <= i < svs.len() && svs[i].id == id].data
}

/// With distinct segment ids the lookup by id picks the given segment.
pub proof fn lemma_seg_data_at(svs: Seq<SegmentView>, i: int)
    requires
        forall|a: int, b: int| 0 <= a < b < svs.len() ==> svs[a].id != svs[b].id,
        0 <= i < svs.len(),
    ensures
        spec_seg_data_in(svs, svs[i].id) == svs[i].data,
{
    assert(0 <= i < svs.len() && svs[i].id == svs[i].id);
    let j = choose|j: int| 0 <= j < svs.len() && svs[j].id == svs[i].id;
    if j < i {
        assert(svs[j].id != svs[i].id);
    } else if j > i {
        assert(svs[i].id != svs[j].id);
    }
}

/// The entry points at value bytes inside one of the given segments, and
/// those bytes are the key's value in `vals`.
pub open spec fn entry_ok_in(
    svs: Seq<SegmentView>,
    k: Seq<u8>,
    e: KeydirEntry,
    vals: Map<Seq<u8>, Seq<u8>>,
) -> bool {
    &&& !e.tombstone
    &&& exists|i: int| 0 <= i < svs.len() && svs[i].id == e.file_id
    &&& e.value_pos + e.value_size <= spec_seg_data_in(svs, e.file_id).len()
    &&& vals.contains_key(k)
    &&& spec_seg_data_in(svs, e.file_id).subrange(
        e.value_pos as int,
        e.value_pos + e.value_size,
    ) == vals[k]
}

/// The observable key-value contents that a keydir and the segments it
/// points into denote: each live key mapped to the bytes its entry points
/// at.
pub open spec fn spec_live_contents(
    m: Map<Seq<u8>, KeydirEntry>,
    svs: Seq<SegmentView>,
) -> Map<Seq<u8>, Seq<u8>> {
    Map::new(
        |k: Seq<u8>| m.contains_key(k),
        |k: Seq<u8>|
            spec_seg_data_in(svs, m[k].file_id).subrange(
                m[k].value_pos as int,
                m[k].value_pos + m[k].value_size,
            ),
    )
}

/// The largest id among the given segments and `base`.
pub open spec fn spec_max_id(svs: Seq<SegmentView>, base: u64) -> u64
    decreases svs.len(),
{
    if svs.len() == 0 {
        base
    } else {
        let m = spec_max_id(svs.drop_last(), base);
        if svs.last().id > m {
            svs.last().id
        } else {
            m
        }
    }
}

/// The maximum dominates the base and every segment id.
pub proof fn lemma_max_id_bounds(svs: Seq<SegmentView>, base: u64)
    ensures
        base <= spec_max_id(svs, base),
        forall|i: int| 0 <= i < svs.len() ==> svs[i].id <= spec_max_id(svs, base),
    decreases svs.len(),
{
    if svs.len() > 0 {
        lemma_max_id_bounds(svs.drop_last(), base);
        assert forall|i: int| 0 <= i < svs.len() implies svs[i].id <= spec_max_id(svs, base) by {
            if i < svs.len() - 1 {
                assert(svs.drop_last()[i] == svs[i]);
            }
        }
    }
}

/// How many bytes merge must copy: for every keydir pair whose entry lies
/// outside the active segment, one record of header, key and value.
pub open spec fn spec_merge_needed(s: Seq<(Seq<u8>, KeydirEntry)>, active: u64) -> int
    decreases s.len(),
{
    if s.len() == 0 {
        0
    } else {
        spec_merge_needed(s.drop_last(), active) + (if s.last().1.file_id == active {
            0
        } else {
            RECORD_HEADER_BYTES + s.last().0.len() + s.last().1.value_size
        })
    }
}

/// The exact bytes merge writes into its fresh segment: for every keydir
/// pair whose entry lies outside the active segment, in keydir order, one
/// encoded put record of the key and its observable value in `m`.
pub open spec fn spec_merge_image(
    s: Seq<(Seq<u8>, KeydirEntry)>,
    active: u64,
    m: Map<Seq<u8>, Seq<u8>>,
) -> Seq<u8>
    decreases s.len(),
{
    if s.len() == 0 {
        Seq::empty()
    } else {
        spec_merge_image(s.drop_last(), active, m) + (if s.last().1.file_id == active {
            Seq::<u8>::empty()
        } else {
            spec_encode(EntryView { key: s.last().0, value: m[s.last().0], tombstone: false })
        })
    }
}

/// One step of the copy image over a prefix.
pub proof fn lemma_merge_image_take_succ(
    s: Seq<(Seq<u8>, KeydirEntry)>,
    i: int,
    active: u64,
    m: Map<Seq<u8>, Seq<u8>>,
)
    requires
        0 <= i < s.len(),
    ensures
        spec_merge_image(s.take(i + 1), active, m) == spec_merge_image(s.take(i), active, m) + (
        if s[i].1.file_id == active {
            Seq::<u8>::empty()
        } else {
            spec_encode(EntryView { key: s[i].0, value: m[s[i].0], tombstone: false })
        }),
{
    assert(s.take(i + 1).drop_last() =~= s.take(i));
    assert(s.take(i + 1).last() == s[i]);
}

/// One step of the copy cost over a prefix.
pub proof fn lemma_merge_needed_take_succ(s: Seq<(Seq<u8>, KeydirEntry)>, i: int, active: u64)
    requires
        0 <= i < s.len(),
    ensures
        spec_merge_needed(s.take(i + 1), active) == spec_merge_needed(s.take(i), active) + (
        if s[i].1.file_id == active {
            0int
        } else {
            RECORD_HEADER_BYTES + s[i].0.len() + s[i].1.value_size
        }),
{
    assert(s.take(i + 1).drop_last() =~= s.take(i));
    assert(s.take(i + 1).last() == s[i]);
}

/// The copy cost of a prefix never exceeds the cost of the whole.
pub proof fn lemma_merge_needed_mono(s: Seq<(Seq<u8>, KeydirEntry)>, i: int, active: u64)
    requires
        0 <= i <= s.len(),
    ensures
        spec_merge_needed(s.take(i), active) <= spec_merge_needed(s, active),
    decreases s.len() - i,
{
    if i == s.len() {
        assert(s.take(i) =~= s);
    } else {
        lemma_merge_needed_mono(s, i + 1, active);
        lemma_merge_needed_take_succ(s, i, active);
    }
}

/// Last write wins. `put` ensures the observable map becomes
/// `insert(k, v)`, `delete` ensures it becomes `remove(k)`, and `get`
/// ensures it returns exactly the map's value (or `NotFound` when the key
/// is absent). This law states what that means for any sequence of such
/// operations: after a put of `(k, v)`, a get of `k` yields `v`; after a
/// delete of `k`, a get of `k` yields nothing; and neither operation
/// changes what a get of any other key yields, so a get always returns
/// the value of the last put of that key, or nothing if the key was never
/// put or was deleted since.
pub proof fn lemma_last_write_wins(m: Map<Seq<u8>, Seq<u8>>, k: Seq<u8>, v: Seq<u8>)
    ensures
        m.insert(k, v).contains_key(k),
        m.insert(k, v)[k] == v,
        !m.remove(k).contains_key(k),
        forall|k2: Seq<u8>|
            k2 != k ==> #[trigger] m.insert(k, v).contains_key(k2) == m.contains_key(k2),
        forall|k2: Seq<u8>| k2 != k && m.contains_key(k2) ==> #[trigger] m.insert(k, v)[k2]
            == m[k2],
        forall|k2: Seq<u8>|
            k2 != k ==> #[trigger] m.remove(k).contains_key(k2) == m.contains_key(k2),
        forall|k2: Seq<u8>| k2 != k && m.contains_key(k2) ==> #[trigger] m.remove(k)[k2] == m[k2],
{
}

/// Recovery is idempotent: replaying one and the same set of segments
/// from a fresh keydir, any number of times, yields an identical keydir.
/// `Cask::open` ensures the keydir it builds equals `spec_replay_all`
/// over the given segments, so any two openings of the same segments
/// agree.
pub proof fn lemma_recovery_idempotent(
    segs: Seq<SegmentView>,
    kd1: Map<Seq<u8>, KeydirEntry>,
    kd2: Map<Seq<u8>, KeydirEntry>,
)
    requires
        kd1 == spec_replay_all(segs),
        kd2 == spec_replay_all(segs),
    ensures
        kd1 == kd2,
{
}

/// The engine facade: it owns the active segment, the sealed segments,
/// and the keydir, and orchestrates put, get, delete, merge and recovery.
/// Its view is the observable map from each live key to its value bytes;
/// put inserts into that map, delete removes from it, get looks it up.
pub struct Cask {
    active: Segment,
    sealed: Vec<Segment>,
    keydir: Keydir,
    contents: Ghost<Map<Seq<u8>, Seq<u8>>>,
}

impl View for Cask {
    type V = Map<Seq<u8>, Seq<u8>>;

    closed spec fn view(&self) -> Map<Seq<u8>, Seq<u8>> {
        self.contents@
    }
}

impl Cask {
    /// The id of the active segment, the one open for appends.
    pub closed spec fn active_id(self) -> u64 {
        self.active@.id
    }

    /// The bytes of the active segment.
    pub closed spec fn active_data(self) -> Seq<u8> {
        self.active@.data
    }

    /// The views of the sealed segments.
    pub closed spec fn sealed_views(self) -> Seq<SegmentView> {
        seg_views(self.sealed@)
    }

    /// The in-memory index.
    pub closed spec fn keydir_view(self) -> Map<Seq<u8>, KeydirEntry> {
        self.keydir@
    }

    /// The keydir's key/entry pairs.
    pub closed spec fn keydir_pairs(self) -> Seq<(Seq<u8>, KeydirEntry)> {
        self.keydir.pairs()
    }

    /// Whether some sealed segment carries `id`.
    pub closed spec fn has_sealed(self, id: u64) -> bool {
        exists|i: int| 0 <= i < self.sealed@.len() && self.sealed@[i]@.id == id
    }

    /// The bytes of the segment carrying `id`, active or sealed.
    pub closed spec fn seg_data(self, id: u64) -> Seq<u8> {
        if id == self.active@.id {
            self.active@.data
        } else {
            spec_seg_data_in(self.sealed_views(), id)
        }
    }

    /// The keydir entry of `k` points at value bytes that exist and equal
    /// the observable value of `k`.
    pub closed spec fn entry_ok(self, k: Seq<u8>) -> bool {
        let e = self.keydir@[k];
        &&& !e.tombstone
        &&& (e.file_id == self.active@.id || self.has_sealed(e.file_id))
        &&& e.value_pos + e.value_size <= self.seg_data(e.file_id).len()
        &&& self.contents@.contains_key(k)
        &&& self.seg_data(e.file_id).subrange(e.value_pos as int, e.value_pos + e.value_size)
            == self.contents@[k]
    }

    /// The engine invariant: segment ids are distinct, the active id is
    /// not among the sealed ones, the keydir is well formed, and every
    /// keydir entry points at the bytes of its key's observable value.
    pub closed spec fn wf(self) -> bool {
        &&& self.keydir.wf()
        &&& wf_log_at(self.active@.data, 0)
        &&& (forall|a: int, b: int|
            0 <= a < b < self.sealed@.len() ==> self.sealed@[a]@.id != self.sealed@[b]@.id)
        &&& (forall|i: int| 0 <= i < self.sealed@.len() ==> self.sealed@[i]@.id != self.active@.id)
        &&& self.contents@.dom() == self.keydir@.dom()
        &&& (forall|k: Seq<u8>| self.keydir@.contains_key(k) ==> self.entry_ok(k))
    }

    /// Every keydir entry points into the active segment or into the
    /// single sealed segment: no other segment is needed to answer a get.
    pub open spec fn compacted(self) -> bool {
        forall|k: Seq<u8>|
            self.keydir_view().contains_key(k) ==> (#[trigger] self.keydir_view()[k]).file_id
                == self.active_id() || self.keydir_view()[k].file_id == self.sealed_views()[0].id
    }

    /// The id of the active segment.
    pub fn active_file_id(&self) -> (r: u64)
        ensures
            r == self.active_id(),
    {
        self.active.id()
    }

    /// How many bytes the active segment holds.
    pub fn active_size(&self) -> (r: usize)
        ensures
            r == self.active_data().len(),
    {
        self.active.len()
    }

    /// How many sealed segments the engine holds.
    pub fn sealed_count(&self) -> (r: usize)
        ensures
            r == self.sealed_views().len(),
    {
        self.sealed.len()
    }

    /// How many keys the keydir holds.
    pub fn keydir_len(&self) -> (r: usize)
        ensures
            r == self.keydir_pairs().len(),
    {
        self.keydir.len()
    }

    /// Keydir pair number `i`, for the embedding program to serialize
    /// into hint records when a segment is sealed or merged.
    pub fn keydir_pair(&self, i: usize) -> (r: (Vec<u8>, KeydirEntry))
        requires
            i < self.keydir_pairs().len(),
        ensures
            r.0@ == self.keydir_pairs()[i as int].0,
            r.1 == self.keydir_pairs()[i as int].1,
    {
        let key = slice_to_vec(self.keydir.key_at(i).as_slice());
        let e = self.keydir.entry_at(i);
        (key, e)
    }

    /// The active segment, for the embedding program to mirror to disk.
    pub fn active_segment(&self) -> (r: &Segment)
        ensures
            r@.id == self.active_id(),
            r@.data == self.active_data(),
    {
        &self.active
    }

    /// Sealed segment number `i`, for the embedding program to mirror to
    /// disk after a merge.
    pub fn sealed_segment(&self, i: usize) -> (r: &Segment)
        requires
            i < self.sealed_views().len(),
        ensures
            r@ == self.sealed_views()[i as int],
    {
        slice_index_get(self.sealed.as_slice(), i)
    }

    /// The location of the key's latest value, as the keydir records it.
    pub fn keydir_get(&self, key: &[u8]) -> (r: Option<KeydirEntry>)
        requires
            self.wf(),
        ensures
            match r {
                Some(e) => self.keydir_view().contains_key(key@) && e == self.keydir_view()[key@],
                None => !self.keydir_view().contains_key(key@),
            },
    {
        self.keydir.get(key)
    }

    /// Open a store over the segments recovered from an existing
    /// directory, given oldest first (ids strictly increasing).
    ///
    /// Recovery replays every segment into a fresh keydir, in segment-id
    /// order and in file order within a segment, so later records win;
    /// a torn record at the tail of a segment stops that segment's replay
    /// at the last complete record. A fresh empty active segment is then
    /// created with the next unused id: one more than the largest
    /// existing id, or id 0 in an empty directory.
    pub fn open(segments: Vec<Segment>) -> (c: Cask)
        requires
            forall|a: int, b: int|
                0 <= a < b < segments@.len() ==> segments@[a]@.id < segments@[b]@.id,
            segments@.len() > 0 ==> segments@[segments@.len() - 1]@.id < u64::MAX,
        ensures
            c.wf(),
            c.keydir_view() == spec_replay_all(seg_views(segments@)),
            c@ == spec_live_contents(spec_replay_all(seg_views(segments@)), seg_views(segments@)),
            c.active_id() == if segments@.len() == 0 {
                0u64
            } else {
                (segments@[segments@.len() - 1]@.id + 1) as u64
            },
            c.active_data() == Seq::<u8>::empty(),
            wf_log_at(c.active_data(), 0),
            c.sealed_views() == seg_views(segments@),
    {
        let ghost svs = seg_views(segments@);
        let mut keydir = Keydir::new();
        let ghost mut model = Map::<Seq<u8>, Seq<u8>>::empty();
        let n = segments.len();
        let mut si: usize = 0;
        while si < n
            invariant
                si <= n,
                n == segments@.len(),
                svs == seg_views(segments@),
                forall|a: int, b: int|
                    0 <= a < b < segments@.len() ==> segments@[a]@.id < segments@[b]@.id,
                keydir.wf(),
                keydir@ == spec_replay_all(svs.take(si as int)),
                model.dom() == keydir@.dom(),
                forall|k: Seq<u8>| keydir@.contains_key(k) ==> entry_ok_in(
                    svs,
                    k,
                    keydir@[k],
                    model,
                ),
            decreases n - si,
        {
            let seg = slice_index_get(segments.as_slice(), si);
            let id = seg.id();
            let ghost m0 = keydir@;
            let total = seg.len();
            let buf = seg.data().as_slice();
            let mut pos: usize = 0;
            let mut done = false;
            while !done && pos < total
                invariant
                    buf@ == segments@[si as int]@.data,
                    pos <= total,
                    si < n,
                    n == segments@.len(),
                    svs == seg_views(segments@),
                    forall|a: int, b: int|
                        0 <= a < b < segments@.len() ==> segments@[a]@.id < segments@[b]@.id,
                    id == segments@[si as int]@.id,
                    total == segments@[si as int]@.data.len(),
                    keydir.wf(),
                    spec_replay_bytes(segments@[si as int]@.data, pos as int, id, keydir@)
                        == spec_replay_bytes(segments@[si as int]@.data, 0, id, m0),
                    done ==> spec_decode_at(segments@[si as int]@.data, pos as int) is None,
                    model.dom() == keydir@.dom(),
                    forall|k: Seq<u8>| keydir@.contains_key(k) ==> entry_ok_in(
                        svs,
                        k,
                        keydir@[k],
                        model,
                    ),
                decreases total - pos, (if done { 0int } else { 1int }),
            {
                let ghost data = segments@[si as int]@.data;
                match Entry::decode(buf, pos) {
                    Err(_) => {
                        done = true;
                    },
                    Ok((e, consumed)) => {
                        let ghost p = spec_decode_at(data, pos as int).unwrap();
                        let klen = e.key().len();
                        proof {
                            assert(spec_decode_at(data, pos as int) is Some);
                            lemma_decode_at_props(data, pos as int);
                            assert(e@ == p.0);
                            assert(klen == p.0.key.len());
                            assert(p.1 == RECORD_HEADER_BYTES + p.0.key.len()
                                + p.0.value.len());
                            assert(pos + p.1 <= total);
                        }
                        let vpos = pos + RECORD_HEADER_BYTES + klen;
                        let kde = KeydirEntry {
                            file_id: id,
                            value_size: e.value_size(),
                            value_pos: vpos as u64,
                            tombstone: e.is_tombstone(),
                        };
                        let kvec = slice_to_vec(e.key().as_slice());
                        proof {
                            assert(kde == spec_entry_of(id, pos as int, p.0));
                            if kde.tombstone {
                                model = model.remove(p.0.key);
                            } else {
                                model = model.insert(p.0.key, p.0.value);
                            }
                        }
                        keydir.apply(kvec, kde);
                        proof {
                            lemma_seg_data_at(svs, si as int);
                            assert(svs[si as int].data == data);
                            if !kde.tombstone {
                                assert(data.subrange(
                                    kde.value_pos as int,
                                    kde.value_pos + kde.value_size,
                                ) == p.0.value);
                                assert(entry_ok_in(svs, p.0.key, kde, model));
                            }
                            assert forall|k: Seq<u8>| keydir@.contains_key(k) implies entry_ok_in(
                                svs,
                                k,
                                keydir@[k],
                                model,
                            ) by {
                                if k != p.0.key {
                                    assert(entry_ok_in(svs, k, keydir@[k], model));
                                }
                            }
                            assert(model.dom() =~= keydir@.dom());
                        }
                        pos = pos + consumed;
                    },
                }
            }
            proof {
                assert(spec_decode_at(segments@[si as int]@.data, pos as int) is None);
                assert(spec_replay_bytes(segments@[si as int]@.data, pos as int, id, keydir@)
                    == keydir@);
                assert(svs.take(si + 1).drop_last() =~= svs.take(si as int));
                assert(svs.take(si + 1).last() == svs[si as int]);
                assert(keydir@ == spec_replay_all(svs.take(si + 1)));
            }
            si += 1;
        }
        proof {
            assert(svs.take(n as int) =~= svs);
        }
        let active_id: u64 = if n == 0 {
            0
        } else {
            segments[n - 1].id() + 1
        };
        let active = Segment::new(active_id);
        let c = Cask { active, sealed: segments, keydir, contents: Ghost(model) };
        proof {
            assert(wf_log_at(c.active@.data, 0));
            assert forall|i: int| 0 <= i < c.sealed@.len() implies c.sealed@[i]@.id
                != c.active@.id by {
                if i < c.sealed@.len() - 1 {
                    assert(c.sealed@[i]@.id < c.sealed@[c.sealed@.len() - 1]@.id);
                }
            }
            assert(c.sealed_views() == svs);
            assert forall|k: Seq<u8>| c.keydir@.contains_key(k) implies c.entry_ok(k) by {
                assert(entry_ok_in(svs, k, c.keydir@[k], model));
                let e = c.keydir@[k];
                let i = choose|i: int| 0 <= i < svs.len() && svs[i].id == e.file_id;
                assert(c.sealed@[i]@.id == e.file_id);
                assert(e.file_id != c.active@.id);
                assert(c.seg_data(e.file_id) == spec_seg_data_in(svs, e.file_id));
            }
            assert(c@ =~= spec_live_contents(c.keydir@, svs)) by {
                assert forall|k: Seq<u8>| c.keydir@.contains_key(k) implies model[k]
                    == spec_live_contents(c.keydir@, svs)[k] by {
                    assert(entry_ok_in(svs, k, c.keydir@[k], model));
                }
            }
        }
        c
    }

    /// The index of the sealed segment carrying `id`.
    fn find_sealed(&self, id: u64) -> (i: usize)
        requires
            self.wf(),
            self.has_sealed(id),
        ensures
            i < self.sealed@.len(),
            self.sealed@[i as int]@.id == id,
            self.sealed@[i as int]@.data == spec_seg_data_in(self.sealed_views(), id),
    {
        let n = self.sealed.len();
        let mut i: usize = 0;
        while i < n
            invariant
                i <= n,
                n == self.sealed@.len(),
                self.wf(),
                self.has_sealed(id),
                forall|m: int| 0 <= m < i ==> self.sealed@[m]@.id != id,
            decreases n - i,
        {
            if self.sealed[i].id() == id {
                proof {
                    lemma_seg_data_at(self.sealed_views(), i as int);
                }
                return i;
            }
            i += 1;
        }
        proof {
            let w = choose|w: int| 0 <= w < self.sealed@.len() && self.sealed@[w]@.id == id;
            assert(self.sealed@[w]@.id != id);
        }
        0
    }

    /// Store a value under a key: the record is appended to the active
    /// segment, never overwriting a byte already written, and the keydir
    /// is repointed at the new value, so the new value unconditionally
    /// replaces any prior one (last write wins). Fails with `KeyTooLarge`
    /// exactly when the encoded record would push the active segment past
    /// the machine's address range, leaving the store untouched.
    pub fn put(&mut self, key: &[u8], value: &[u8]) -> (r: Result<(), CaskError>)
        requires
            old(self).wf(),
        ensures
            final(self).wf(),
            final(self).active_id() == old(self).active_id(),
            final(self).sealed_views() == old(self).sealed_views(),
            r is Ok <==> old(self).active_data().len() + RECORD_HEADER_BYTES + key@.len()
                + value@.len() <= usize::MAX,
            r is Ok ==> final(self)@ == old(self)@.insert(key@, value@),
            r is Ok ==> final(self).active_data() == old(self).active_data() + spec_encode(
                EntryView { key: key@, value: value@, tombstone: false },
            ),
            r is Ok ==> final(self).keydir_view() == old(self).keydir_view().insert(
                key@,
                KeydirEntry {
                    file_id: old(self).active_id(),
                    value_size: value@.len() as u64,
                    value_pos: (old(self).active_data().len() + RECORD_HEADER_BYTES
                        + key@.len()) as u64,
                    tombstone: false,
                },
            ),
            r is Ok ==> wf_log_at(final(self).active_data(), 0),
            r is Err ==> r == Err::<(), CaskError>(CaskError::KeyTooLarge) && *final(self) == *old(
                self,
            ),
    {
        let kl = key.len();
        let vl = value.len();
        let al = self.active.len();
        if kl > usize::MAX - RECORD_HEADER_BYTES || vl > usize::MAX - RECORD_HEADER_BYTES - kl
            || al > usize::MAX - RECORD_HEADER_BYTES - kl - vl {
            return Err(CaskError::KeyTooLarge);
        }
        let e = Entry::new(key, value);
        let pos = self.active.append(&e);
        let kde = KeydirEntry {
            file_id: self.active.id(),
            value_size: vl as u64,
            value_pos: pos,
            tombstone: false,
        };
        let kvec = slice_to_vec(key);
        self.keydir.put(kvec, kde);
        self.contents = Ghost(self.contents@.insert(key@, value@));
        proof {
            lemma_replay_extend(
                old(self).active_data(),
                0,
                old(self).active_id(),
                Map::<Seq<u8>, KeydirEntry>::empty(),
                e@,
            );
            assert(self.contents@.dom() =~= self.keydir@.dom());
            assert forall|k: Seq<u8>| self.keydir@.contains_key(k) implies self.entry_ok(k) by {
                if k == key@ {
                    assert(self.seg_data(kde.file_id) == self.active@.data);
                } else {
                    let ek = old(self).keydir@[k];
                    assert(old(self).entry_ok(k));
                    assert(self.keydir@[k] == ek);
                    assert(self.sealed_views() == old(self).sealed_views());
                    if ek.file_id == self.active@.id {
                        assert(self.active@.data.subrange(
                            ek.value_pos as int,
                            ek.value_pos + ek.value_size,
                        ) =~= old(self).active@.data.subrange(
                            ek.value_pos as int,
                            ek.value_pos + ek.value_size,
                        ));
                    }
                }
            }
        }
        Ok(())
    }

    /// Delete a key: a tombstone record is appended to the active segment
    /// so the deletion survives restart, and the key leaves the keydir;
    /// deleting an absent key is not an error. Fails with `KeyTooLarge`
    /// exactly when the tombstone record would push the active segment
    /// past the machine's address range, leaving the store untouched.
    pub fn delete(&mut self, key: &[u8]) -> (r: Result<(), CaskError>)
        requires
            old(self).wf(),
        ensures
            final(self).wf(),
            final(self).active_id() == old(self).active_id(),
            final(self).sealed_views() == old(self).sealed_views(),
            r is Ok <==> old(self).active_data().len() + RECORD_HEADER_BYTES + key@.len()
                <= usize::MAX,
            r is Ok ==> final(self)@ == old(self)@.remove(key@),
            r is Ok ==> final(self).active_data() == old(self).active_data() + spec_encode(
                EntryView { key: key@, value: Seq::<u8>::empty(), tombstone: true },
            ),
            r is Ok ==> final(self).keydir_view() == old(self).keydir_view().remove(key@),
            r is Ok ==> wf_log_at(final(self).active_data(), 0),
            r is Err ==> r == Err::<(), CaskError>(CaskError::KeyTooLarge) && *final(self) == *old(
                self,
            ),
    {
        let kl = key.len();
        let al = self.active.len();
        if kl > usize::MAX - RECORD_HEADER_BYTES || al > usize::MAX - RECORD_HEADER_BYTES - kl {
            return Err(CaskError::KeyTooLarge);
        }
        let e = Entry::tombstone(key);
        let _pos = self.active.append(&e);
        self.keydir.delete(key);
        self.contents = Ghost(self.contents@.remove(key@));
        proof {
            lemma_replay_extend(
                old(self).active_data(),
                0,
                old(self).active_id(),
                Map::<Seq<u8>, KeydirEntry>::empty(),
                e@,
            );
            assert(self.contents@.dom() =~= self.keydir@.dom());
            assert forall|k: Seq<u8>| self.keydir@.contains_key(k) implies self.entry_ok(k) by {
                let ek = old(self).keydir@[k];
                assert(old(self).entry_ok(k));
                assert(self.keydir@[k] == ek);
                assert(self.sealed_views() == old(self).sealed_views());
                if ek.file_id == self.active@.id {
                    assert(self.active@.data.subrange(
                        ek.value_pos as int,
                        ek.value_pos + ek.value_size,
                    ) =~= old(self).active@.data.subrange(
                        ek.value_pos as int,
                        ek.value_pos + ek.value_size,
                    ));
                }
            }
        }
        Ok(())
    }

    /// Compact the store: copy the current value of every key whose
    /// latest record lies outside the active segment into one freshly
    /// created segment with a brand-new id, repoint those keys' keydir
    /// entries at the copies, and drop the old sealed segments.
    ///
    /// Merge preserves the observable state exactly: the map of live keys
    /// to values after the call is the one before it, and afterwards no
    /// segment outside the new segment and the active one is needed to
    /// answer any get. Keys whose latest record already lives in the
    /// active segment are left alone; deleted and overwritten records are
    /// simply not copied. Nothing is mutated until every copy is known to
    /// fit: the call fails with `KeyTooLarge`, leaving the store exactly
    /// as it was, precisely when no unused id is left or the copies would
    /// exceed the machine's address range.
    #[verifier::loop_isolation(false)]
    pub fn merge(&mut self) -> (r: Result<(), CaskError>)
        requires
            old(self).wf(),
        ensures
            final(self).wf(),
            final(self)@ == old(self)@,
            final(self).active_id() == old(self).active_id(),
            final(self).active_data() == old(self).active_data(),
            r is Err <==> (spec_max_id(old(self).sealed_views(), old(self).active_id())
                == u64::MAX || spec_merge_needed(old(self).keydir_pairs(), old(self).active_id())
                > usize::MAX),
            r is Err ==> r == Err::<(), CaskError>(CaskError::KeyTooLarge) && *final(self) == *old(
                self,
            ),
            r is Ok ==> final(self).sealed_views().len() == 1,
            r is Ok ==> final(self).sealed_views()[0].data == spec_merge_image(
                old(self).keydir_pairs(),
                old(self).active_id(),
                old(self)@,
            ),
            r is Ok ==> final(self).compacted(),
    {
        let ghost svs = self.sealed_views();
        let active_id = self.active.id();
        let mut max_id = active_id;
        let ns = self.sealed.len();
        let mut i: usize = 0;
        while i < ns
            invariant
                i <= ns,
                max_id == spec_max_id(svs.take(i as int), active_id),
            decreases ns - i,
        {
            let sid = slice_index_get(self.sealed.as_slice(), i).id();
            proof {
                assert(svs.take(i + 1).drop_last() =~= svs.take(i as int));
                assert(svs.take(i + 1).last() == svs[i as int]);
            }
            if sid > max_id {
                max_id = sid;
            }
            i += 1;
        }
        proof {
            assert(svs.take(ns as int) =~= svs);
            lemma_max_id_bounds(svs, active_id);
        }
        if max_id == u64::MAX {
            return Err(CaskError::KeyTooLarge);
        }
        let new_id = max_id + 1;
        let mut m = Segment::new(new_id);
        let mut moves: Vec<(usize, KeydirEntry)> = Vec::new();
        let ghost pairs0 = self.keydir.pairs();
        let nk = self.keydir.len();
        let mut i2: usize = 0;
        while i2 < nk
            invariant
                i2 <= nk,
                m@.id == new_id,
                m@.data.len() == spec_merge_needed(pairs0.take(i2 as int), active_id),
                m@.data == spec_merge_image(pairs0.take(i2 as int), active_id, old(self)@),
                forall|a: int, b: int|
                    0 <= a < b < moves@.len() ==> moves@[a].0 < moves@[b].0,
                forall|j: int| 0 <= j < moves@.len() ==> (moves@[j].0 as int) < i2,
                forall|j: int|
                    0 <= j < moves@.len() ==> {
                        let mv = #[trigger] moves@[j];
                        &&& (mv.0 as int) < pairs0.len()
                        &&& mv.1.file_id == new_id
                        &&& !mv.1.tombstone
                        &&& mv.1.value_pos + mv.1.value_size <= m@.data.len()
                        &&& m@.data.subrange(
                            mv.1.value_pos as int,
                            mv.1.value_pos + mv.1.value_size,
                        ) == self.contents@[pairs0[mv.0 as int].0]
                    },
                forall|ii: int|
                    0 <= ii < i2 ==> pairs0[ii].1.file_id == active_id || exists|j: int|
                        0 <= j < moves@.len() && (#[trigger] moves@[j]).0 == ii,
            decreases nk - i2,
        {
            let ek = self.keydir.entry_at(i2);
            let ghost k = pairs0[i2 as int].0;
            proof {
                self.keydir.lemma_view();
                self.keydir.lemma_wf();
                crate::keydir::lemma_map_of_at(pairs0, i2 as int);
                assert(self.keydir@.contains_key(k));
                assert(self.keydir@[k] == ek);
                assert(self.entry_ok(k));
            }
            if ek.file_id != active_id {
                let si = self.find_sealed(ek.file_id);
                let seg = slice_index_get(self.sealed.as_slice(), si);
                let val = match seg.read_value(ek.value_pos, ek.value_size) {
                    Ok(v) => v,
                    Err(_) => {
                        proof {
                            assert(false);
                        }
                        return Err(CaskError::KeyTooLarge);
                    },
                };
                proof {
                    assert(val@ == self.contents@[k]);
                }
                let key_ref = self.keydir.key_at(i2);
                let kl = key_ref.len();
                let vl = val.len();
                let ml = m.len();
                proof {
                    lemma_merge_needed_take_succ(pairs0, i2 as int, active_id);
                }
                if kl > usize::MAX - RECORD_HEADER_BYTES || vl > usize::MAX - RECORD_HEADER_BYTES
                    - kl || ml > usize::MAX - RECORD_HEADER_BYTES - kl - vl {
                    proof {
                        lemma_merge_needed_mono(pairs0, i2 + 1, active_id);
                    }
                    return Err(CaskError::KeyTooLarge);
                }
                let ent = Entry::new(key_ref.as_slice(), val.as_slice());
                let ghost mdata0 = m@.data;
                let ghost mv0 = moves@;
                proof {
                    lemma_merge_image_take_succ(pairs0, i2 as int, active_id, old(self)@);
                }
                let pos = m.append(&ent);
                let kd2 = KeydirEntry {
                    file_id: new_id,
                    value_size: vl as u64,
                    value_pos: pos,
                    tombstone: false,
                };
                moves.push((i2, kd2));
                proof {
                    assert(m@.data.subrange(kd2.value_pos as int, kd2.value_pos + kd2.value_size)
                        == val@);
                    assert(moves@[moves@.len() - 1].0 == i2);
                    assert forall|j: int| 0 <= j < moves@.len() - 1 implies {
                        let mv = #[trigger] moves@[j];
                        m@.data.subrange(mv.1.value_pos as int, mv.1.value_pos + mv.1.value_size)
                            == self.contents@[pairs0[mv.0 as int].0]
                    } by {
                        let mv = moves@[j];
                        assert(m@.data.subrange(
                            mv.1.value_pos as int,
                            mv.1.value_pos + mv.1.value_size,
                        ) =~= mdata0.subrange(
                            mv.1.value_pos as int,
                            mv.1.value_pos + mv.1.value_size,
                        ));
                    }
                    assert forall|ii: int|
                        0 <= ii < i2 && pairs0[ii].1.file_id != active_id implies exists|j: int|
                        0 <= j < moves@.len() && (#[trigger] moves@[j]).0 == ii by {
                        let j = choose|j: int| 0 <= j < mv0.len() && (#[trigger] mv0[j]).0 == ii;
                        assert(moves@[j] == mv0[j]);
                    }
                }
            } else {
                proof {
                    lemma_merge_needed_take_succ(pairs0, i2 as int, active_id);
                    lemma_merge_image_take_succ(pairs0, i2 as int, active_id, old(self)@);
                    assert(pairs0[i2 as int].1.file_id == active_id);
                    assert(spec_merge_image(pairs0.take(i2 + 1), active_id, old(self)@)
                        =~= m@.data);
                }
            }
            i2 += 1;
        }
        let total_copied = m.len();
        proof {
            assert(pairs0.take(nk as int) =~= pairs0);
            assert(spec_merge_needed(pairs0, active_id) == total_copied as int);
            assert(m@.data == spec_merge_image(pairs0, active_id, old(self)@));
        }
        let nm = moves.len();
        let mut t: usize = 0;
        while t < nm
            invariant
                t <= nm,
                self.active == old(self).active,
                self.sealed == old(self).sealed,
                self.contents == old(self).contents,
                self.keydir.wf(),
                self.keydir.pairs().len() == pairs0.len(),
                forall|ii: int|
                    0 <= ii < pairs0.len() ==> (#[trigger] self.keydir.pairs()[ii]).0
                        == pairs0[ii].0,
                self.keydir@.dom() == old(self).keydir@.dom(),
                forall|j: int|
                    0 <= j < t ==> self.keydir.pairs()[(#[trigger] moves@[j]).0 as int].1
                        == moves@[j].1,
                forall|j: int|
                    t <= j < nm ==> self.keydir.pairs()[(#[trigger] moves@[j]).0 as int].1
                        == pairs0[moves@[j].0 as int].1,
                forall|ii: int|
                    0 <= ii < pairs0.len() && (forall|j: int|
                        0 <= j < nm ==> (#[trigger] moves@[j]).0 != ii) ==> (
                    #[trigger] self.keydir.pairs()[ii]).1 == pairs0[ii].1,
            decreases nm - t,
        {
            let mv = *slice_index_get(moves.as_slice(), t);
            let ghost kdb = self.keydir@;
            proof {
                self.keydir.lemma_view();
                self.keydir.lemma_wf();
                crate::keydir::lemma_map_of_at(self.keydir.pairs(), mv.0 as int);
                assert(kdb.contains_key(self.keydir.pairs()[mv.0 as int].0));
            }
            self.keydir.repoint(mv.0, mv.1);
            proof {
                assert(self.keydir@.dom() =~= kdb.dom());
                assert forall|j: int|
                    t + 1 <= j < nm implies self.keydir.pairs()[(#[trigger] moves@[j]).0 as int].1
                    == pairs0[moves@[j].0 as int].1 by {
                    assert(moves@[j].0 != moves@[t as int].0);
                }
            }
            t += 1;
        }
        let mut new_sealed: Vec<Segment> = Vec::new();
        new_sealed.push(m);
        self.sealed = new_sealed;
        proof {
            assert(self.sealed_views().len() == 1);
            assert(self.sealed_views()[0].id == new_id);
            assert(self.sealed_views()[0].data == m@.data);
            self.keydir.lemma_view();
            self.keydir.lemma_wf();
            old(self).keydir.lemma_view();
            old(self).keydir.lemma_wf();
            assert(self.contents@.dom() =~= self.keydir@.dom());
            assert forall|k: Seq<u8>| self.keydir_view().contains_key(k) implies self.entry_ok(k)
                && ((#[trigger] self.keydir_view()[k]).file_id == self.active_id()
                || self.keydir_view()[k].file_id == self.sealed_views()[0].id) by {
                crate::keydir::lemma_map_of_contains(self.keydir.pairs(), k);
                let ii = choose|ii: int|
                    0 <= ii < self.keydir.pairs().len() && self.keydir.pairs()[ii].0 == k;
                crate::keydir::lemma_map_of_at(self.keydir.pairs(), ii);
                assert(self.keydir@[k] == self.keydir.pairs()[ii].1);
                crate::keydir::lemma_map_of_at(pairs0, ii);
                assert(old(self).keydir@.contains_key(k));
                assert(old(self).keydir@[k] == pairs0[ii].1);
                assert(old(self).entry_ok(k));
                lemma_seg_data_at(self.sealed_views(), 0);
                if pairs0[ii].1.file_id == active_id && (forall|j: int|
                    0 <= j < nm ==> (#[trigger] moves@[j]).0 != ii) {
                    assert(self.keydir.pairs()[ii].1 == pairs0[ii].1);
                    assert(self.seg_data(active_id) == self.active@.data);
                } else {
                    let j = choose|j: int| 0 <= j < nm && (#[trigger] moves@[j]).0 == ii;
                    assert(self.keydir.pairs()[ii].1 == moves@[j].1);
                    assert(self.keydir@[k].file_id == new_id);
                    assert(self.seg_data(new_id) == m@.data);
                }
            }
            assert(new_id != active_id);
            assert forall|k: Seq<u8>| self.keydir@.contains_key(k) implies self.entry_ok(k) by {
                assert(self.keydir_view().contains_key(k));
                assert(self.keydir_view()[k].file_id == self.active_id() || self.keydir_view()[
                k].file_id == self.sealed_views()[0].id);
            }
        }
        Ok(())
    }

    /// Look a key up: one keydir lookup, then one direct read at the
    /// recorded segment and offset. Returns the value of the last put for
    /// the key, or `NotFound` exactly when the key holds no live value.
    pub fn get(&self, key: &[u8]) -> (r: Result<Vec<u8>, CaskError>)
        requires
            self.wf(),
        ensures
            self@.contains_key(key@) ==> (r matches Ok(v) && v@ == self@[key@]),
            !self@.contains_key(key@) ==> r == Err::<Vec<u8>, CaskError>(CaskError::NotFound),
    {
        match self.keydir.get(key) {
            None => {
                proof {
                    assert(!self.contents@.dom().contains(key@));
                }
                Err(CaskError::NotFound)
            },
            Some(e) => {
                proof {
                    assert(self.entry_ok(key@));
                }
                if e.file_id == self.active.id() {
                    match self.active.read_value(e.value_pos, e.value_size) {
                        Ok(v) => Ok(v),
                        Err(_) => {
                            proof {
                                assert(false);
                            }
                            Err(CaskError::NotFound)
                        },
                    }
                } else {
                    let i = self.find_sealed(e.file_id);
                    match self.sealed[i].read_value(e.value_pos, e.value_size) {
                        Ok(v) => Ok(v),
                        Err(_) => {
                            proof {
                                assert(false);
                            }
                            Err(CaskError::NotFound)
                        },
                    }
                }
            },
        }
    }
}

} // verus!
