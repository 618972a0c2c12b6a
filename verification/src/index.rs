use vstd::prelude::*;
use crate::log_record::LogRecordPos;
use crate::options::IndexType;

verus! {

/// The abstract contract of an in-memory index: a mutable map from key bytes
/// to the on-disk position of the key's most recent record.
pub trait Indexer: Sized {
    /// The implementation's internal well-formedness; constructors establish
    /// it and every operation preserves it.
    spec fn valid(&self) -> bool;

    /// The mapping this index currently represents.
    spec fn mapping(&self) -> Map<Seq<u8>, LogRecordPos>;

    /// Associate `key` with `pos`, replacing any earlier association.
    fn put(&mut self, key: Vec<u8>, pos: LogRecordPos) -> (ok: bool)
        requires
            old(self).valid(),
        ensures
            final(self).valid(),
            ok,
            final(self).mapping() == old(self).mapping().insert(key@, pos),
    ;

    /// The position associated with `key`, if any.
    fn get(&self, key: Vec<u8>) -> (r: Option<LogRecordPos>)
        requires
            self.valid(),
        ensures
            r == if self.mapping().contains_key(key@) {
                Some(self.mapping()[key@])
            } else {
                None::<LogRecordPos>
            },
    ;

    /// Remove the association for `key`; reports whether one existed.
    fn delete(&mut self, key: Vec<u8>) -> (ok: bool)
        requires
            old(self).valid(),
        ensures
            final(self).valid(),
            final(self).mapping() == old(self).mapping().remove(key@),
            ok == old(self).mapping().contains_key(key@),
    ;
}

#[derive(Debug)]
struct IndexEntry {
    key: Vec<u8>,
    pos: LogRecordPos,
}

/// The default index: a flat keydir holding each live key once, scanned
/// sequentially.
#[derive(Debug)]
pub struct KeyDir {
    entries: Vec<IndexEntry>,
}

/// The map an entry list stands for; a later entry for the same key wins.
spec fn assoc(s: Seq<IndexEntry>) -> Map<Seq<u8>, LogRecordPos>
    decreases s.len(),
{
    if s.len() == 0 {
        Map::empty()
    } else {
        assoc(s.drop_last()).insert(s.last().key@, s.last().pos)
    }
}

/// No key occurs twice in the entry list.
spec fn unique_keys(s: Seq<IndexEntry>) -> bool {
    forall|i: int, j: int| 0 <= i < j < s.len() ==> s[i].key@ != s[j].key@
}

proof fn lemma_assoc_absent(s: Seq<IndexEntry>, k: Seq<u8>)
    requires
        forall|i: int| 0 <= i < s.len() ==> s[i].key@ != k,
    ensures
        !assoc(s).contains_key(k),
    decreases s.len(),
{
    if s.len() > 0 {
        lemma_assoc_absent(s.drop_last(), k);
    }
}

proof fn lemma_assoc_found(s: Seq<IndexEntry>, i: int)
    requires
        unique_keys(s),
        0 <= i < s.len(),
    ensures
        assoc(s).contains_key(s[i].key@),
        assoc(s)[s[i].key@] == s[i].pos,
    decreases s.len(),
{
    if i == s.len() - 1 {
    } else {
        lemma_assoc_found(s.drop_last(), i);
    }
}

proof fn lemma_assoc_update(s: Seq<IndexEntry>, i: int, e: IndexEntry)
    requires
        unique_keys(s),
        0 <= i < s.len(),
        s[i].key@ == e.key@,
    ensures
        assoc(s.update(i, e)) =~= assoc(s).insert(e.key@, e.pos),
    decreases s.len(),
{
    let t = s.update(i, e);
    if i == s.len() - 1 {
        assert(t.drop_last() =~= s.drop_last());
    } else {
        assert(t.drop_last() =~= s.drop_last().update(i, e));
        lemma_assoc_update(s.drop_last(), i, e);
        assert(t.last() == s.last());
        // the final entry's key differs from e's, so the two inserts commute
        assert(s.last().key@ != e.key@);
        assert(assoc(s.drop_last()).insert(e.key@, e.pos).insert(s.last().key@, s.last().pos)
            =~= assoc(s.drop_last()).insert(s.last().key@, s.last().pos).insert(e.key@, e.pos));
    }
}

proof fn lemma_assoc_remove(s: Seq<IndexEntry>, i: int)
    requires
        unique_keys(s),
        0 <= i < s.len(),
    ensures
        assoc(s.remove(i)) =~= assoc(s).remove(s[i].key@),
    decreases s.len(),
{
    let k = s[i].key@;
    let t = s.remove(i);
    if i == s.len() - 1 {
        assert(t =~= s.drop_last());
        assert forall|j: int| 0 <= j < s.drop_last().len() implies s.drop_last()[j].key@ != k by {
            assert(s[j].key@ != s[i].key@);
        }
        lemma_assoc_absent(s.drop_last(), k);
        assert(assoc(s).remove(k) =~= assoc(s.drop_last()));
    } else {
        assert(t.drop_last() =~= s.drop_last().remove(i));
        assert(t.last() == s.last());
        lemma_assoc_remove(s.drop_last(), i);
        assert(s.last().key@ != k);
        assert(assoc(s.drop_last()).remove(k).insert(s.last().key@, s.last().pos) =~= assoc(
            s.drop_last(),
        ).insert(s.last().key@, s.last().pos).remove(k));
    }
}

impl KeyDir {
    /// An empty index.
    pub fn new() -> (r: Self)
        ensures
            r.valid(),
            r.mapping() == Map::<Seq<u8>, LogRecordPos>::empty(),
    {
        KeyDir { entries: Vec::new() }
    }

    /// The position of the first entry holding `key`, if any.
    fn find(&self, key: &Vec<u8>) -> (r: Option<usize>)
        requires
            self.valid(),
        ensures
            match r {
                Some(i) => i < self.entries@.len() && self.entries@[i as int].key@ == key@,
                None => forall|i: int| 0 <= i < self.entries@.len()
                    ==> self.entries@[i].key@ != key@,
            },
    {
        let mut i: usize = 0;
        while i < self.entries.len()
            invariant
                i <= self.entries@.len(),
                forall|j: int| 0 <= j < i ==> self.entries@[j].key@ != key@,
            decreases self.entries@.len() - i,
        {
            if bytes_eq(&self.entries[i].key, key) {
                return Some(i);
            }
            i = i + 1;
        }
        None
    }
}

impl Indexer for KeyDir {
    closed spec fn valid(&self) -> bool {
        unique_keys(self.entries@)
    }

    closed spec fn mapping(&self) -> Map<Seq<u8>, LogRecordPos> {
        assoc(self.entries@)
    }

    fn put(&mut self, key: Vec<u8>, pos: LogRecordPos) -> (ok: bool) {
        match self.find(&key) {
            Some(i) => {
                let ghost s0 = self.entries@;
                let e = IndexEntry { key, pos };
                proof {
                    lemma_assoc_update(s0, i as int, e);
                }
                self.entries.set(i, e);
                proof {
                    assert(unique_keys(self.entries@));
                }
            },
            None => {
                let ghost s0 = self.entries@;
                self.entries.push(IndexEntry { key, pos });
                proof {
                    assert(self.entries@.drop_last() =~= s0);
                }
            },
        }
        true
    }

    fn get(&self, key: Vec<u8>) -> (r: Option<LogRecordPos>) {
        match self.find(&key) {
            Some(i) => {
                proof {
                    lemma_assoc_found(self.entries@, i as int);
                }
                Some(self.entries[i].pos)
            },
            None => {
                proof {
                    lemma_assoc_absent(self.entries@, key@);
                }
                None
            },
        }
    }

    fn delete(&mut self, key: Vec<u8>) -> (ok: bool) {
        match self.find(&key) {
            Some(i) => {
                let ghost s0 = self.entries@;
                proof {
                    lemma_assoc_remove(s0, i as int);
                    lemma_assoc_found(s0, i as int);
                }
                self.entries.remove(i);
                true
            },
            None => {
                proof {
                    lemma_assoc_absent(self.entries@, key@);
                    assert(self.mapping().remove(key@) =~= self.mapping());
                }
                false
            },
        }
    }
}

/// Whether two byte vectors hold the same bytes.
pub fn bytes_eq(a: &Vec<u8>, b: &Vec<u8>) -> (r: bool)
    ensures
        r == (a@ == b@),
{
    if a.len() != b.len() {
        return false;
    }
    let mut i: usize = 0;
    while i < a.len()
        invariant
            i <= a@.len(),
            a@.len() == b@.len(),
            forall|j: int| 0 <= j < i ==> a@[j] == b@[j],
        decreases a@.len() - i,
    {
        if a[i] != b[i] {
            return false;
        }
        i = i + 1;
    }
    proof {
        assert(a@ =~= b@);
    }
    true
}

/// The index implementation for a configured index type. Both recognized
/// kinds are served by the default keydir, which meets the index contract.
pub fn new_indexer(index_type: IndexType) -> (r: KeyDir)
    ensures
        r.valid(),
        r.mapping() == Map::<Seq<u8>, LogRecordPos>::empty(),
{
    match index_type {
        IndexType::BTree => KeyDir::new(),
        IndexType::SkipList => KeyDir::new(),
    }
}

} // verus!
