use vstd::prelude::*;
use vstd::slice::{slice_index_get, slice_to_vec};

verus! {

/// Where a key's latest record lies: the segment that holds it, the byte
/// offset at which the value begins, the value size, and whether that
/// record is a tombstone. Replayed index records with the tombstone flag
/// set remove the key instead of inserting it, so the keydir itself only
/// ever stores locations of live values.
#[derive(Clone, Copy, Debug, PartialEq, Eq, Structural)]
pub struct KeydirEntry {
    pub file_id: u64,
    pub value_size: u64,
    pub value_pos: u64,
    pub tombstone: bool,
}

/// Byte-string equality.
pub fn bytes_eq(a: &[u8], b: &[u8]) -> (r: bool)
    ensures
        r <==> a@ == b@,
{
    let n = a.len();
    if n != b.len() {
        return false;
    }
    let mut i: usize = 0;
    while i < n
        invariant
            i <= n,
            n == a@.len(),
            n == b@.len(),
            forall|m: int| 0 <= m < i ==> a@[m] == b@[m],
        decreases n - i,
    {
        if *slice_index_get(a, i) != *slice_index_get(b, i) {
            return false;
        }
        i += 1;
    }
    proof {
        assert(a@ =~= b@);
    }
    true
}

/// Applying one index record to the keydir: a tombstone removes the key,
/// anything else makes the record the key's current location. Recovery by
/// raw segment scan and recovery by hint page both reduce to this one
/// operation.
pub open spec fn spec_apply(
    m: Map<Seq<u8>, KeydirEntry>,
    k: Seq<u8>,
    e: KeydirEntry,
) -> Map<Seq<u8>, KeydirEntry> {
    if e.tombstone {
        m.remove(k)
    } else {
        m.insert(k, e)
    }
}

/// The finite map that a sequence of key/entry pairs denotes; later pairs
/// overwrite earlier ones.
pub open spec fn map_of(s: Seq<(Seq<u8>, KeydirEntry)>) -> Map<Seq<u8>, KeydirEntry>
    decreases s.len(),
{
    if s.len() == 0 {
        Map::empty()
    } else {
        map_of(s.drop_last()).insert(s.last().0, s.last().1)
    }
}

/// A key is in the map exactly when some pair carries it.
pub proof fn lemma_map_of_contains(s: Seq<(Seq<u8>, KeydirEntry)>, k: Seq<u8>)
    ensures
        map_of(s).contains_key(k) <==> exists|i: int| 0 <= i < s.len() && s[i].0 == k,
    decreases s.len(),
{
    if s.len() > 0 {
        lemma_map_of_contains(s.drop_last(), k);
        if s.last().0 == k {
            assert(s[s.len() - 1].0 == k);
        } else if map_of(s).contains_key(k) {
            let i = choose|i: int| 0 <= i < s.drop_last().len() && s.drop_last()[i].0 == k;
            assert(s[i].0 == k);
        } else if exists|i: int| 0 <= i < s.len() && s[i].0 == k {
            let i = choose|i: int| 0 <= i < s.len() && s[i].0 == k;
            assert(s.drop_last()[i].0 == k);
        }
    }
}

/// With distinct keys, the map sends each carried key to its pair's entry.
pub proof fn lemma_map_of_at(s: Seq<(Seq<u8>, KeydirEntry)>, i: int)
    requires
        pairwise_distinct(s),
        0 <= i < s.len(),
    ensures
        map_of(s).contains_key(s[i].0),
        map_of(s)[s[i].0] == s[i].1,
    decreases s.len(),
{
    if i == s.len() - 1 {
    } else {
        assert(pairwise_distinct(s.drop_last()));
        lemma_map_of_at(s.drop_last(), i);
        assert(s.drop_last()[i] == s[i]);
        assert(s[i].0 != s.last().0);
    }
}

/// No pair carries the key, so the map does not contain it.
pub proof fn lemma_map_of_absent(s: Seq<(Seq<u8>, KeydirEntry)>, k: Seq<u8>)
    requires
        forall|i: int| 0 <= i < s.len() ==> s[i].0 != k,
    ensures
        !map_of(s).contains_key(k),
{
    lemma_map_of_contains(s, k);
}

/// Every pair carries a different key.
pub open spec fn pairwise_distinct(s: Seq<(Seq<u8>, KeydirEntry)>) -> bool {
    forall|i: int, j: int| 0 <= i < j < s.len() ==> s[i].0 != s[j].0
}

/// Replacing the entry of pair `i` in place is an insert at its key.
pub proof fn lemma_map_of_update(s: Seq<(Seq<u8>, KeydirEntry)>, i: int, e: KeydirEntry)
    requires
        pairwise_distinct(s),
        0 <= i < s.len(),
    ensures
        map_of(s.update(i, (s[i].0, e))) == map_of(s).insert(s[i].0, e),
    decreases s.len(),
{
    let t = s.update(i, (s[i].0, e));
    if i == s.len() - 1 {
        assert(t.drop_last() =~= s.drop_last());
        assert(t.last() == (s[i].0, e));
        assert(map_of(t) == map_of(s.drop_last()).insert(s[i].0, e));
        assert(map_of(s).insert(s[i].0, e) =~= map_of(s.drop_last()).insert(s[i].0, e));
    } else {
        assert(pairwise_distinct(s.drop_last()));
        lemma_map_of_update(s.drop_last(), i, e);
        assert(t.drop_last() =~= s.drop_last().update(i, (s[i].0, e)));
        assert(t.last() == s.last());
        assert(s[i].0 != s.last().0);
        assert(map_of(t) == map_of(s.drop_last()).insert(s[i].0, e).insert(
            s.last().0,
            s.last().1,
        ));
        assert(map_of(s.drop_last()).insert(s[i].0, e).insert(s.last().0, s.last().1)
            =~= map_of(s.drop_last()).insert(s.last().0, s.last().1).insert(s[i].0, e));
    }
}

/// Removing pair `i` removes exactly its key from the map.
pub proof fn lemma_map_of_remove(s: Seq<(Seq<u8>, KeydirEntry)>, i: int)
    requires
        pairwise_distinct(s),
        0 <= i < s.len(),
    ensures
        map_of(s.remove(i)) == map_of(s).remove(s[i].0),
    decreases s.len(),
{
    let t = s.remove(i);
    if i == s.len() - 1 {
        assert(t =~= s.drop_last());
        lemma_map_of_contains(s.drop_last(), s[i].0);
        assert(forall|j: int|
            0 <= j < s.drop_last().len() ==> s.drop_last()[j].0 != s[i].0);
        assert(!map_of(s.drop_last()).contains_key(s[i].0));
        assert(map_of(s).remove(s[i].0) =~= map_of(s.drop_last()));
    } else {
        assert(pairwise_distinct(s.drop_last()));
        lemma_map_of_remove(s.drop_last(), i);
        assert(t.drop_last() =~= s.drop_last().remove(i));
        assert(t.last() == s.last());
        assert(s[i].0 != s.last().0);
        assert(map_of(t) == map_of(s.drop_last()).remove(s[i].0).insert(
            s.last().0,
            s.last().1,
        ));
        assert(map_of(s.drop_last()).remove(s[i].0).insert(s.last().0, s.last().1)
            =~= map_of(s.drop_last()).insert(s.last().0, s.last().1).remove(s[i].0));
    }
}

/// The in-memory index of the engine: each live key mapped to the
/// location of its latest value. It is a pure cache of segment contents,
/// rebuilt by recovery and mutated by put and delete; it never touches
/// disk itself.
pub struct Keydir {
    entries: Vec<(Vec<u8>, KeydirEntry)>,
}

impl View for Keydir {
    type V = Map<Seq<u8>, KeydirEntry>;

    closed spec fn view(&self) -> Map<Seq<u8>, KeydirEntry> {
        map_of(self.pairs())
    }
}

impl Keydir {
    /// The key/entry pairs in insertion order.
    pub closed spec fn pairs(self) -> Seq<(Seq<u8>, KeydirEntry)> {
        self.entries@.map_values(|p: (Vec<u8>, KeydirEntry)| (p.0@, p.1))
    }

    /// Well-formedness: no key occurs twice.
    pub closed spec fn wf(self) -> bool {
        pairwise_distinct(self.pairs())
    }

    /// The index's map view is the map its pairs denote.
    pub proof fn lemma_view(self)
        ensures
            self@ == map_of(self.pairs()),
    {
    }

    /// Well-formedness is exactly distinctness of the pairs' keys.
    pub proof fn lemma_wf(self)
        ensures
            self.wf() == pairwise_distinct(self.pairs()),
    {
    }

    /// The empty index.
    pub fn new() -> (kd: Keydir)
        ensures
            kd.wf(),
            kd@ == Map::<Seq<u8>, KeydirEntry>::empty(),
            kd.pairs().len() == 0,
    {
        Keydir { entries: Vec::new() }
    }

    /// How many keys the index holds.
    pub fn len(&self) -> (r: usize)
        ensures
            r == self.pairs().len(),
    {
        self.entries.len()
    }

    /// The key of pair `i`.
    pub fn key_at(&self, i: usize) -> (r: &Vec<u8>)
        requires
            i < self.pairs().len(),
        ensures
            r@ == self.pairs()[i as int].0,
    {
        &self.entries[i].0
    }

    /// The entry of pair `i`.
    pub fn entry_at(&self, i: usize) -> (r: KeydirEntry)
        requires
            i < self.pairs().len(),
        ensures
            r == self.pairs()[i as int].1,
    {
        self.entries[i].1
    }

    /// The index position that carries `key`, if any.
    fn index_of(&self, key: &[u8]) -> (r: Option<usize>)
        ensures
            match r {
                Some(i) => i < self.pairs().len() && self.pairs()[i as int].0 == key@,
                None => forall|i: int| 0 <= i < self.pairs().len() ==> self.pairs()[i].0 != key@,
            },
    {
        let n = self.entries.len();
        let mut i: usize = 0;
        while i < n
            invariant
                i <= n,
                n == self.pairs().len(),
                n == self.entries@.len(),
                forall|m: int| 0 <= m < i ==> self.pairs()[m].0 != key@,
            decreases n - i,
        {
            if bytes_eq(self.entries[i].0.as_slice(), key) {
                return Some(i);
            }
            i += 1;
        }
        None
    }

    /// Look a key up, returning the location of its latest value.
    pub fn get(&self, key: &[u8]) -> (r: Option<KeydirEntry>)
        requires
            self.wf(),
        ensures
            match r {
                Some(e) => self@.contains_key(key@) && e == self@[key@],
                None => !self@.contains_key(key@),
            },
    {
        match self.index_of(key) {
            Some(i) => {
                proof {
                    lemma_map_of_at(self.pairs(), i as int);
                }
                Some(self.entries[i].1)
            },
            None => {
                proof {
                    lemma_map_of_absent(self.pairs(), key@);
                }
                None
            },
        }
    }

    /// Make `e` the key's current location, unconditionally replacing any
    /// prior entry for it: last write wins.
    pub fn put(&mut self, key: Vec<u8>, e: KeydirEntry)
        requires
            old(self).wf(),
        ensures
            final(self).wf(),
            final(self)@ == old(self)@.insert(key@, e),
            final(self).pairs().len() <= old(self).pairs().len() + 1,
    {
        let ghost s = self.pairs();
        match self.index_of(key.as_slice()) {
            Some(i) => {
                proof {
                    lemma_map_of_update(s, i as int, e);
                }
                self.entries.set(i, (key, e));
                proof {
                    assert(self.pairs() =~= s.update(i as int, (s[i as int].0, e)));
                }
            },
            None => {
                self.entries.push((key, e));
                proof {
                    assert(self.pairs() =~= s.push((key@, e)));
                    assert(self.pairs().drop_last() =~= s);
                }
            },
        }
    }

    /// Replace the entry of pair `i`, keeping its key: used by merge to
    /// repoint a key at the segment its value was copied into.
    pub fn repoint(&mut self, i: usize, e: KeydirEntry)
        requires
            old(self).wf(),
            i < old(self).pairs().len(),
        ensures
            final(self).wf(),
            final(self)@ == old(self)@.insert(old(self).pairs()[i as int].0, e),
            final(self).pairs() == old(self).pairs().update(
                i as int,
                (old(self).pairs()[i as int].0, e),
            ),
    {
        let ghost s = self.pairs();
        let key = slice_to_vec(self.entries[i].0.as_slice());
        self.entries.set(i, (key, e));
        proof {
            assert(self.pairs() =~= s.update(i as int, (s[i as int].0, e)));
            lemma_map_of_update(s, i as int, e);
        }
    }

    /// Forget a key; absent keys are a no-op, mirroring deletion of a key
    /// that may already be gone.
    pub fn delete(&mut self, key: &[u8])
        requires
            old(self).wf(),
        ensures
            final(self).wf(),
            final(self)@ == old(self)@.remove(key@),
            final(self).pairs().len() <= old(self).pairs().len(),
    {
        let ghost s = self.pairs();
        match self.index_of(key) {
            Some(i) => {
                proof {
                    lemma_map_of_remove(s, i as int);
                }
                self.entries.remove(i);
                proof {
                    assert(self.pairs() =~= s.remove(i as int));
                    assert forall|a: int, b: int|
                        0 <= a < b < self.pairs().len() implies self.pairs()[a].0
                        != self.pairs()[b].0 by {
                        let sa: int = if a < i as int {
                            a
                        } else {
                            a + 1
                        };
                        let sb: int = if b < i as int {
                            b
                        } else {
                            b + 1
                        };
                        assert(self.pairs()[a] == s[sa]);
                        assert(self.pairs()[b] == s[sb]);
                    }
                }
            },
            None => {
                proof {
                    lemma_map_of_absent(s, key@);
                    assert(old(self)@.remove(key@) =~= old(self)@);
                }
            },
        }
    }

    /// Apply one index record: the single operation that both recovery
    /// paths (raw segment scan and hint pages) feed.
    pub fn apply(&mut self, key: Vec<u8>, e: KeydirEntry)
        requires
            old(self).wf(),
        ensures
            final(self).wf(),
            final(self)@ == spec_apply(old(self)@, key@, e),
    {
        if e.tombstone {
            self.delete(key.as_slice());
        } else {
            self.put(key, e);
        }
    }
}

} // verus!
