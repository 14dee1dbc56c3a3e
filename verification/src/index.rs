//! In-memory index: maps each live key to the byte span of that key's most
//! recent record in the log.
//!
//! Backed by a vector of entries with pairwise-distinct keys; its
//! mathematical content is a map from key to span. Iteration (used only by
//! compaction) is by position; no order is promised to callers.

use vstd::prelude::*;

verus! {

/// A byte span in the log: where a record's frame starts and how long it is.
pub struct Span {
    pub off: int,
    pub len: int,
}

/// One index entry: a key and the byte span of its latest record.
pub struct IndexEntry {
    pub key: String,
    pub offset: usize,
    pub len: usize,
}

impl IndexEntry {
    /// The entry's span, as mathematical integers.
    pub open spec fn span(self) -> Span {
        Span { off: self.offset as int, len: self.len as int }
    }
}

/// Keys of the entries are pairwise distinct.
pub open spec fn distinct_keys(s: Seq<IndexEntry>) -> bool {
    forall|i: int, j: int| 0 <= i < j < s.len() ==> s[i].key@ != s[j].key@
}

/// The map an entry sequence denotes: later entries win (irrelevant once
/// keys are distinct).
pub open spec fn map_of(s: Seq<IndexEntry>) -> Map<Seq<char>, Span>
    decreases s.len(),
{
    if s.len() == 0 {
        Map::empty()
    } else {
        map_of(s.drop_last()).insert(s.last().key@, s.last().span())
    }
}

/// Total number of log bytes the entries point at.
pub open spec fn spans_total(s: Seq<IndexEntry>) -> int
    decreases s.len(),
{
    if s.len() == 0 {
        0
    } else {
        spans_total(s.drop_last()) + s.last().len
    }
}

/// A key is in the denoted map exactly when some entry holds it.
pub proof fn lemma_map_of_contains(s: Seq<IndexEntry>, k: Seq<char>)
    ensures
        map_of(s).contains_key(k) <==> exists|i: int| 0 <= i < s.len() && s[i].key@ == k,
    decreases s.len(),
{
    if s.len() > 0 {
        lemma_map_of_contains(s.drop_last(), k);
        if s.last().key@ == k {
            assert(s[s.len() - 1].key@ == k);
        } else if map_of(s).contains_key(k) {
            let i = choose|i: int| 0 <= i < s.drop_last().len() && s.drop_last()[i].key@ == k;
            assert(s[i].key@ == k);
        } else if exists|i: int| 0 <= i < s.len() && s[i].key@ == k {
            let i = choose|i: int| 0 <= i < s.len() && s[i].key@ == k;
            assert(i < s.len() - 1);
            assert(s.drop_last()[i].key@ == k);
        }
    }
}

/// With distinct keys, each entry is exactly what the denoted map holds for
/// its key.
pub proof fn lemma_map_of_get(s: Seq<IndexEntry>, i: int)
    requires
        distinct_keys(s),
        0 <= i < s.len(),
    ensures
        map_of(s).contains_key(s[i].key@),
        map_of(s)[s[i].key@] == s[i].span(),
    decreases s.len(),
{
    if i < s.len() - 1 {
        assert(distinct_keys(s.drop_last()));
        lemma_map_of_get(s.drop_last(), i);
        assert(s.drop_last()[i] == s[i]);
        assert(s.last().key@ != s[i].key@);
    }
}

/// Removing the entry at `i` removes exactly its key from the denoted map
/// and its length from the byte total.
pub proof fn lemma_map_of_remove(s: Seq<IndexEntry>, i: int)
    requires
        distinct_keys(s),
        0 <= i < s.len(),
    ensures
        distinct_keys(s.remove(i)),
        map_of(s.remove(i)) =~= map_of(s).remove(s[i].key@),
        spans_total(s.remove(i)) == spans_total(s) - s[i].len,
    decreases s.len(),
{
    assert(distinct_keys(s.remove(i)));
    if i == s.len() - 1 {
        assert(s.remove(i) =~= s.drop_last());
        lemma_map_of_contains(s.drop_last(), s[i].key@);
        assert(!map_of(s.drop_last()).contains_key(s[i].key@));
        assert(map_of(s.remove(i)) =~= map_of(s).remove(s[i].key@));
    } else {
        assert(distinct_keys(s.drop_last()));
        lemma_map_of_remove(s.drop_last(), i);
        assert(s.remove(i).drop_last() =~= s.drop_last().remove(i));
        assert(s.remove(i).last() == s.last());
        assert(map_of(s.remove(i)) == map_of(s.drop_last().remove(i)).insert(
            s.last().key@,
            s.last().span(),
        ));
        assert(s[i].key@ != s.last().key@);
        assert(map_of(s.remove(i)) =~= map_of(s).remove(s[i].key@));
        assert(spans_total(s.remove(i)) == spans_total(s.drop_last().remove(i)) + s.last().len);
    }
}

/// The in-memory index.
pub struct Index {
    pub entries: Vec<IndexEntry>,
}

impl View for Index {
    type V = Map<Seq<char>, Span>;

    open spec fn view(&self) -> Map<Seq<char>, Span> {
        map_of(self.entries@)
    }
}

impl Index {
    /// Keys are pairwise distinct.
    pub open spec fn wf(self) -> bool {
        distinct_keys(self.entries@)
    }

    /// Total number of log bytes the index points at.
    pub open spec fn total_len(self) -> int {
        spans_total(self.entries@)
    }

    /// An empty index.
    pub fn new() -> (r: Index)
        ensures
            r.wf(),
            r@ =~= Map::<Seq<char>, Span>::empty(),
            r.entries@.len() == 0,
    {
        Index { entries: Vec::new() }
    }

    /// Position of the entry for `key`, if any.
    fn find(&self, key: &String) -> (r: Option<usize>)
        ensures
            match r {
                Some(i) => i < self.entries@.len() && self.entries@[i as int].key@ == key@,
                None => forall|j: int|
                    0 <= j < self.entries@.len() ==> (#[trigger] self.entries@[j]).key@ != key@,
            },
    {
        let n = self.entries.len();
        let mut i: usize = 0;
        while i < n
            invariant
                i <= n,
                n == self.entries@.len(),
                forall|j: int| 0 <= j < i ==> (#[trigger] self.entries@[j]).key@ != key@,
            decreases n - i,
        {
            if self.entries[i].key == *key {
                return Some(i);
            }
            i = i + 1;
        }
        None
    }

    /// Span of the most recent record for `key`, if the key is live.
    pub fn get(&self, key: &String) -> (r: Option<(usize, usize)>)
        requires
            self.wf(),
        ensures
            match r {
                Some(ol) => self@.contains_key(key@) && self@[key@] == (Span {
                    off: ol.0 as int,
                    len: ol.1 as int,
                }),
                None => !self@.contains_key(key@),
            },
    {
        match self.find(key) {
            Some(i) => {
                proof {
                    lemma_map_of_get(self.entries@, i as int);
                }
                Some((self.entries[i].offset, self.entries[i].len))
            },
            None => {
                proof {
                    lemma_map_of_contains(self.entries@, key@);
                }
                None
            },
        }
    }

    /// Inserts or overwrites the entry for `key` (last writer wins).
    pub fn insert(&mut self, key: String, offset: usize, len: usize)
        requires
            old(self).wf(),
        ensures
            final(self).wf(),
            final(self)@ =~= old(self)@.insert(key@, Span { off: offset as int, len: len as int }),
            final(self).total_len() == old(self).total_len() + len - (if old(
                self,
            )@.contains_key(key@) {
                old(self)@[key@].len
            } else {
                0
            }),
    {
        let entry = IndexEntry { key, offset, len };
        match self.find(&entry.key) {
            Some(i) => {
                proof {
                    lemma_map_of_get(self.entries@, i as int);
                    lemma_map_of_remove(self.entries@, i as int);
                }
                let ghost removed = self.entries@.remove(i as int);
                self.entries.remove(i);
                self.entries.push(entry);
                proof {
                    assert(self.entries@.drop_last() =~= removed);
                    assert(final(self)@ =~= old(self)@.insert(
                        key@,
                        Span { off: offset as int, len: len as int },
                    ));
                }
            },
            None => {
                proof {
                    lemma_map_of_contains(self.entries@, entry.key@);
                }
                self.entries.push(entry);
                proof {
                    assert(self.entries@.drop_last() =~= old(self).entries@);
                }
            },
        }
    }

    /// Deletes the entry for `key`; reports whether it existed.
    pub fn remove(&mut self, key: &String) -> (r: bool)
        requires
            old(self).wf(),
        ensures
            final(self).wf(),
            r == old(self)@.contains_key(key@),
            final(self)@ =~= old(self)@.remove(key@),
            final(self).total_len() == old(self).total_len() - (if old(self)@.contains_key(key@) {
                old(self)@[key@].len
            } else {
                0
            }),
    {
        match self.find(key) {
            Some(i) => {
                proof {
                    lemma_map_of_get(self.entries@, i as int);
                    lemma_map_of_remove(self.entries@, i as int);
                }
                self.entries.remove(i);
                true
            },
            None => {
                proof {
                    lemma_map_of_contains(self.entries@, key@);
                    assert(final(self)@ =~= old(self)@.remove(key@));
                }
                false
            },
        }
    }

    /// Number of live entries.
    pub fn num_entries(&self) -> (n: usize)
        ensures
            n == self.entries@.len(),
    {
        self.entries.len()
    }

    /// The entry at position `i`: key, offset, length.
    pub fn entry_at(&self, i: usize) -> (r: (String, usize, usize))
        requires
            i < self.entries@.len(),
        ensures
            r.0@ == self.entries@[i as int].key@,
            r.1 == self.entries@[i as int].offset,
            r.2 == self.entries@[i as int].len,
    {
        let e = &self.entries[i];
        (e.key.clone(), e.offset, e.len)
    }
}

} // verus!
