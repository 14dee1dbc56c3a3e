//! The store: an append-only byte log plus the in-memory index over it.
//!
//! The store holds the log's bytes; reading the log file into the store at
//! `open` time and persisting the bytes after a write are the caller's
//! concern. The index starts unpopulated and is built by replay on the
//! first operation that needs it; from then on it is authoritative, every
//! write updates log and index together, and a write that pushes the log
//! past the size threshold triggers compaction.

use vstd::prelude::*;
use vstd::slice::{slice_subrange, slice_to_vec};
use crate::codec::{encode, decode, frame_of, frame_parses_to, Record, RecordModel};
use crate::error::KvError;
use crate::index::{lemma_map_of_contains, lemma_map_of_get, Index, Span};
use crate::replay::{
    apply_record, index_ok, kv_of, lemma_record_at_append, lemma_record_at_prefix,
    lemma_replay_from_append, lemma_replay_from_prefix, record_at, replay, replay_log,
    spans_below, value_at,
};

verus! {

/// Compaction threshold: a write that leaves the log larger than this many
/// bytes triggers compaction.
pub const MAX_LOG_FILE_SIZE: usize = 100000;

/// The key-value store.
pub struct KvStore {
    /// Contents of the log file, kept in memory; the caller persists it.
    pub log: Vec<u8>,
    /// Key to span of that key's most recent record; empty until populated.
    pub index: Index,
    /// Whether the index has been built by replay and is authoritative.
    pub populated: bool,
    /// Offset of the next write: the log's logical end once populated.
    pub end_offset: usize,
}

impl KvStore {
    /// The store's invariant. Once populated, the index is exactly what
    /// replaying the log yields, every entry points at a `Put` frame for
    /// its own key inside the log, the entries' spans never hold more
    /// bytes than the log, and the logical end offset equals the log's
    /// length.
    pub open spec fn wf(self) -> bool {
        &&& self.index.wf()
        &&& if self.populated {
            &&& replay_log(self.log@) == Some((self.index@, self.log@.len() as int))
            &&& index_ok(self.log@, self.index@)
            &&& spans_below(self.index@, self.log@.len() as int)
            &&& self.index.total_len() <= self.log@.len()
            &&& self.end_offset == self.log@.len()
        } else {
            &&& self.index@ =~= Map::<Seq<char>, Span>::empty()
            &&& self.end_offset == 0
        }
    }

    /// Whether the index has been built.
    pub open spec fn is_populated(self) -> bool {
        self.populated
    }

    /// The store can reach a populated index: it already has one, or its
    /// log replays without a corrupt record.
    pub open spec fn recoverable(self) -> bool {
        self.populated || replay_log(self.log@) is Some
    }

    /// The live key-to-value map: for each live key, the value of its most
    /// recent record.
    pub open spec fn kv(self) -> Map<Seq<char>, Seq<char>> {
        if self.populated {
            kv_of(self.log@, self.index@)
        } else {
            kv_of(self.log@, replay_log(self.log@)->Some_0.0)
        }
    }

    /// An empty store: no log bytes, index not yet populated.
    pub fn new() -> (r: KvStore)
        ensures
            r.wf(),
            !r.is_populated(),
            r.recoverable(),
            r.log@ == Seq::<u8>::empty(),
            r.kv() =~= Map::<Seq<char>, Seq<char>>::empty(),
    {
        let r = KvStore { log: Vec::new(), index: Index::new(), populated: false, end_offset: 0 };
        proof {
            assert(replay_log(r.log@) == Some((Map::<Seq<char>, Span>::empty(), 0int)));
        }
        r
    }

    /// Adopts existing log bytes, as read from the log file, without
    /// replaying them yet: the first operation that needs the index will.
    pub fn open(log: Vec<u8>) -> (r: KvStore)
        ensures
            r.wf(),
            !r.is_populated(),
            r.log@ == log@,
    {
        KvStore { log, index: Index::new(), populated: false, end_offset: 0 }
    }

    /// The current log bytes: what the log file must hold.
    pub fn log_bytes(&self) -> (r: &Vec<u8>)
        ensures
            r@ == self.log@,
    {
        &self.log
    }

    /// Whether the log has grown past the compaction threshold.
    pub fn check_log_size_too_large(&self) -> (r: Result<bool, KvError>)
        ensures
            r == Ok::<bool, KvError>(self.log@.len() > MAX_LOG_FILE_SIZE),
    {
        Ok(self.log.len() > MAX_LOG_FILE_SIZE)
    }

    /// Runs replay once, making the index authoritative. A truncated
    /// trailing record is trimmed off the in-memory log, so later appends
    /// start at the logical end of valid data.
    fn populate(&mut self) -> (r: Result<(), KvError>)
        requires
            old(self).wf(),
            !old(self).is_populated(),
        ensures
            match r {
                Ok(()) => {
                    &&& final(self).wf()
                    &&& final(self).is_populated()
                    &&& old(self).recoverable()
                    &&& final(self).kv() =~= old(self).kv()
                    &&& final(self).index@ == replay_log(old(self).log@)->Some_0.0
                    &&& final(self).log@ == old(self).log@.subrange(
                        0,
                        replay_log(old(self).log@)->Some_0.1,
                    )
                    &&& final(self).log@ == old(self).log@.subrange(
                        0,
                        final(self).log@.len() as int,
                    )
                    &&& final(self).log@.len() <= old(self).log@.len()
                },
                Err(e) => {
                    &&& e == KvError::CorruptLog
                    &&& !old(self).recoverable()
                    &&& *final(self) == *old(self)
                },
            },
    {
        match replay(&self.log) {
            Ok((idx, end)) => {
                proof {
                    lemma_replay_from_prefix(self.log@, 0, Map::empty());
                }
                let ghost oldlog = self.log@;
                self.log.truncate(end);
                self.index = idx;
                self.populated = true;
                self.end_offset = end;
                proof {
                    assert(self.log@ =~= oldlog.subrange(0, end as int));
                    assert(replay_log(self.log@) == Some((self.index@, end as int)));
                    assert forall|k: Seq<char>| #[trigger] self.index@.contains_key(k) implies (
                    record_at(self.log@, self.index@[k]) == record_at(oldlog, self.index@[k])) by {
                        lemma_record_at_prefix(oldlog, end as int, self.index@[k]);
                    }
                    assert(index_ok(self.log@, self.index@));
                    assert(final(self).kv() =~= old(self).kv());
                }
                Ok(())
            },
            Err(e) => Err(e),
        }
    }

    /// Appends one record's frame at the log's end and points the index at
    /// it (`Put`) or deletes the key (`Remove`), keeping the invariant.
    /// The log grows by exactly the encoded frame, the index changes by
    /// exactly that record's span, and the live map by that record.
    fn append_record(&mut self, rec: Record)
        requires
            old(self).wf(),
            old(self).is_populated(),
        ensures
            final(self).wf(),
            final(self).is_populated(),
            final(self).log@ == old(self).log@ + frame_of(rec@),
            final(self).index@ =~= apply_record(
                old(self).index@,
                rec@,
                old(self).log@.len() as int,
                frame_of(rec@).len() as int,
            ),
            final(self).kv() =~= (match rec@ {
                RecordModel::Put { key, value } => old(self).kv().insert(key, value),
                RecordModel::Remove { key } => old(self).kv().remove(key),
            }),
            final(self).log@.len() > old(self).log@.len(),
    {
        let mut frame = encode(&rec);
        let ghost fbytes = frame@;
        let ghost pre = *self;
        let flen = frame.len();
        let off = self.log.len();
        self.log.append(&mut frame);
        proof {
            crate::codec::lemma_frame_roundtrip(rec@);
            lemma_replay_from_append(pre.log@, 0, Map::empty(), fbytes, rec@);
        }
        match &rec {
            Record::Put { key, value: _ } => {
                self.index.insert(key.clone(), off, flen);
            },
            Record::Remove { key } => {
                self.index.remove(key);
            },
        }
        self.end_offset = self.log.len();
        proof {
            let ghost s = Span { off: off as int, len: flen as int };
            assert(self.log@ == pre.log@ + fbytes);
            assert(self.index@ =~= apply_record(pre.index@, rec@, off as int, flen as int));
            assert(replay_log(self.log@) == Some((self.index@, self.log@.len() as int)));
            assert(record_at(self.log@, s) == Some(rec@)) by {
                assert(self.log@.subrange(s.off, s.off + s.len) =~= fbytes);
            }
            assert forall|k: Seq<char>| #[trigger]
                pre.index@.contains_key(k) implies record_at(self.log@, pre.index@[k]) == record_at(
                pre.log@,
                pre.index@[k],
            ) by {
                lemma_record_at_append(pre.log@, fbytes, pre.index@[k]);
            }
            assert(index_ok(self.log@, self.index@));
            assert(spans_below(self.index@, self.log@.len() as int));
            assert(self.index.total_len() <= self.log@.len());
            assert(final(self).kv() =~= (match rec@ {
                RecordModel::Put { key, value } => pre.kv().insert(key, value),
                RecordModel::Remove { key } => pre.kv().remove(key),
            }));
        }
    }

    /// Sets `key` to `value`: appends a `Put` record, points the index at
    /// it, and compacts if the log has outgrown the threshold. After it,
    /// the live map is the old one with `key` bound to `value`.
    pub fn set(&mut self, key: String, value: String) -> (r: Result<(), KvError>)
        requires
            old(self).wf(),
        ensures
            final(self).wf(),
            match r {
                Ok(()) => {
                    &&& old(self).recoverable()
                    &&& final(self).is_populated()
                    &&& final(self).kv() =~= old(self).kv().insert(key@, value@)
                    // a write that leaves the log above the threshold
                    // leaves it compacted: only live records' bytes remain
                    &&& (final(self).log@.len() > MAX_LOG_FILE_SIZE
                        ==> final(self).index.total_len() == final(self).log@.len())
                    // below the threshold the write is one plain append
                    &&& (old(self).is_populated() && old(self).log@.len() + frame_of(
                        RecordModel::Put { key: key@, value: value@ },
                    ).len() <= MAX_LOG_FILE_SIZE ==> final(self).log@ == old(self).log@ + frame_of(
                        RecordModel::Put { key: key@, value: value@ },
                    ))
                },
                Err(e) => {
                    &&& e == KvError::CorruptLog
                    &&& !old(self).recoverable()
                    &&& *final(self) == *old(self)
                },
            },
    {
        if !self.populated {
            match self.populate() {
                Ok(()) => {},
                Err(e) => {
                    return Err(e);
                },
            }
        }
        self.append_record(Record::Put { key, value });
        let too_large = match self.check_log_size_too_large() {
            Ok(b) => b,
            Err(_) => false,
        };
        if too_large {
            self.compact_live();
        }
        Ok(())
    }

    /// Looks `key` up in the index and, if live, reads back exactly the
    /// recorded byte span of its latest record and decodes it. Never
    /// mutates a populated store; on a fresh store it first replays the
    /// log.
    pub fn get(&mut self, key: String) -> (r: Result<Option<String>, KvError>)
        requires
            old(self).wf(),
        ensures
            final(self).wf(),
            old(self).is_populated() ==> *final(self) == *old(self),
            match r {
                Ok(v) => {
                    &&& old(self).recoverable()
                    &&& final(self).is_populated()
                    &&& final(self).kv() == old(self).kv()
                    &&& final(self).log@ == old(self).log@.subrange(
                        0,
                        final(self).log@.len() as int,
                    )
                    // the first read populates; after that the store is
                    // exactly the replayed form of the old one
                    &&& (!old(self).is_populated() ==> final(self).index@ == replay_log(
                        old(self).log@,
                    )->Some_0.0 && final(self).log@ == old(self).log@.subrange(
                        0,
                        replay_log(old(self).log@)->Some_0.1,
                    ))
                    &&& match v {
                        Some(s) => old(self).kv().contains_key(key@) && s@ == old(self).kv()[key@],
                        None => !old(self).kv().contains_key(key@),
                    }
                },
                Err(e) => {
                    &&& e == KvError::CorruptLog
                    &&& !old(self).recoverable()
                    &&& *final(self) == *old(self)
                },
            },
    {
        if !self.populated {
            match self.populate() {
                Ok(()) => {},
                Err(e) => {
                    return Err(e);
                },
            }
        }
        proof {
            assert(self.log@ =~= old(self).log@.subrange(0, self.log@.len() as int));
        }
        match self.index.get(&key) {
            None => Ok(None),
            Some((off, len)) => {
                let frame = slice_subrange(self.log.as_slice(), off, off + len);
                match decode(frame) {
                    Ok(rec) => match rec {
                        Record::Put { key: _, value } => Ok(Some(value)),
                        Record::Remove { .. } => {
                            // unreachable: the index only points at Put records
                            proof {
                                assert(false);
                            }
                            Err(KvError::InternalInconsistency)
                        },
                    },
                    Err(_) => {
                        // unreachable: an indexed span always decodes
                        proof {
                            assert(false);
                        }
                        Err(KvError::Serialization)
                    },
                }
            },
        }
    }

    /// Removes `key`: resolves its current value, fails with
    /// `KeyNotFound` if there is none (leaving the live map unchanged),
    /// otherwise appends a `Remove` record, deletes the index entry and
    /// returns the previous value.
    pub fn remove(&mut self, key: String) -> (r: Result<Option<String>, KvError>)
        requires
            old(self).wf(),
        ensures
            final(self).wf(),
            match r {
                Ok(v) => {
                    &&& old(self).recoverable()
                    &&& final(self).is_populated()
                    &&& (v matches Some(s) && old(self).kv().contains_key(key@) && s@ == old(
                        self,
                    ).kv()[key@])
                    &&& final(self).kv() =~= old(self).kv().remove(key@)
                    // a write that leaves the log above the threshold
                    // leaves it compacted: only live records' bytes remain
                    &&& (final(self).log@.len() > MAX_LOG_FILE_SIZE
                        ==> final(self).index.total_len() == final(self).log@.len())
                    // below the threshold the write is one plain append
                    &&& (old(self).is_populated() && old(self).log@.len() + frame_of(
                        RecordModel::Remove { key: key@ },
                    ).len() <= MAX_LOG_FILE_SIZE ==> final(self).log@ == old(self).log@ + frame_of(
                        RecordModel::Remove { key: key@ },
                    ))
                },
                Err(e) => match e {
                    KvError::KeyNotFound { key: k2 } => {
                        &&& k2@ == key@
                        &&& old(self).recoverable()
                        &&& !old(self).kv().contains_key(key@)
                        &&& final(self).is_populated()
                        &&& final(self).kv() == old(self).kv()
                        &&& final(self).log@ == old(self).log@.subrange(
                            0,
                            final(self).log@.len() as int,
                        )
                        // nothing is appended on the failing path: a
                        // populated store is left untouched, a fresh one
                        // becomes exactly the replayed form of the old one
                        &&& (old(self).is_populated() ==> *final(self) == *old(self))
                        &&& (!old(self).is_populated() ==> final(self).index@ == replay_log(
                            old(self).log@,
                        )->Some_0.0 && final(self).log@ == old(self).log@.subrange(
                            0,
                            replay_log(old(self).log@)->Some_0.1,
                        ))
                    },
                    KvError::CorruptLog => !old(self).recoverable() && *final(self) == *old(self),
                    _ => false,
                },
            },
    {
        let prev = match self.get(key.clone()) {
            Ok(v) => v,
            Err(e) => {
                return Err(e);
            },
        };
        match prev {
            None => Err(KvError::KeyNotFound { key }),
            Some(value) => {
                self.append_record(Record::Remove { key });
                let too_large = match self.check_log_size_too_large() {
                    Ok(b) => b,
                    Err(_) => false,
                };
                if too_large {
                    self.compact_live();
                }
                Ok(Some(value))
            },
        }
    }

    /// Rewrites the log keeping only the latest record of each live key,
    /// and rewrites every index offset to match. The live map is
    /// unchanged and the log never grows. On a fresh store it first
    /// replays the log.
    pub fn compaction(&mut self) -> (r: Result<(), KvError>)
        requires
            old(self).wf(),
        ensures
            final(self).wf(),
            match r {
                Ok(()) => {
                    &&& old(self).recoverable()
                    &&& final(self).is_populated()
                    &&& final(self).kv() =~= old(self).kv()
                    &&& final(self).log@.len() <= old(self).log@.len()
                    &&& final(self).index.total_len() == final(self).log@.len()
                },
                Err(e) => {
                    &&& e == KvError::CorruptLog
                    &&& !old(self).recoverable()
                    &&& *final(self) == *old(self)
                },
            },
    {
        if !self.populated {
            match self.populate() {
                Ok(()) => {},
                Err(e) => {
                    return Err(e);
                },
            }
        }
        self.compact_live();
        Ok(())
    }

    /// The compaction pass itself, on a populated store: copies each live
    /// entry's exact byte span from the old log into a fresh log,
    /// recording the new offsets, then adopts the new log and index.
    fn compact_live(&mut self)
        requires
            old(self).wf(),
            old(self).is_populated(),
        ensures
            final(self).wf(),
            final(self).is_populated(),
            final(self).kv() =~= old(self).kv(),
            final(self).log@.len() <= old(self).log@.len(),
            final(self).index.total_len() == final(self).log@.len(),
    {
        let n = self.index.num_entries();
        let mut new_log: Vec<u8> = Vec::new();
        let mut new_idx = Index::new();
        let ghost oldlog = self.log@;
        let ghost oldmap = self.index@;
        let ghost oldentries = self.index.entries@;
        let mut i: usize = 0;
        while i < n
            invariant
                i <= n,
                n == oldentries.len(),
                *self == *old(self),
                oldlog == self.log@,
                oldmap == self.index@,
                oldentries == self.index.entries@,
                old(self).wf(),
                old(self).is_populated(),
                new_idx.wf(),
                replay_log(new_log@) == Some((new_idx@, new_log@.len() as int)),
                index_ok(new_log@, new_idx@),
                spans_below(new_idx@, new_log@.len() as int),
                new_idx.total_len() == new_log@.len(),
                new_log@.len() == crate::index::spans_total(oldentries.take(i as int)),
                forall|k: Seq<char>| #[trigger]
                    new_idx@.contains_key(k) ==> exists|j: int|
                        0 <= j < i && oldentries[j].key@ == k,
                forall|j: int| 0 <= j < i ==> new_idx@.contains_key(oldentries[j].key@),
                forall|k: Seq<char>| #[trigger]
                    new_idx@.contains_key(k) ==> oldmap.contains_key(k) && value_at(
                        new_log@,
                        new_idx@[k],
                    ) == value_at(oldlog, oldmap[k]),
            decreases n - i,
        {
            let (key, off, len) = self.index.entry_at(i);
            proof {
                lemma_map_of_get(oldentries, i as int);
            }
            let frame = slice_subrange(self.log.as_slice(), off, off + len);
            let new_off = new_log.len();
            let ghost prelog = new_log@;
            let ghost premap = new_idx@;
            let mut fcopy = slice_to_vec(frame);
            new_log.append(&mut fcopy);
            proof {
                let s = Span { off: off as int, len: len as int };
                let rv = record_at(oldlog, s)->Some_0;
                assert(record_at(oldlog, s) == Some(rv));
                assert(rv matches RecordModel::Put { key: rk, value: _ } && rk == key@);
                assert(frame_parses_to(frame@, rv));
                lemma_replay_from_append(prelog, 0, Map::empty(), frame@, rv);
                assert forall|k: Seq<char>| #[trigger]
                    premap.contains_key(k) implies record_at(new_log@, premap[k]) == record_at(
                    prelog,
                    premap[k],
                ) by {
                    lemma_record_at_append(prelog, frame@, premap[k]);
                }
                // the key is fresh in the new index: entries before i hold other keys
                assert(!premap.contains_key(key@));
                assert(oldentries.take(i as int + 1).drop_last() =~= oldentries.take(i as int));
            }
            new_idx.insert(key, new_off, len);
            proof {
                let s = Span { off: off as int, len: len as int };
                let ns = Span { off: new_off as int, len: len as int };
                let rv = record_at(oldlog, s)->Some_0;
                assert(record_at(new_log@, ns) == Some(rv)) by {
                    assert(new_log@.subrange(ns.off, ns.off + ns.len) =~= frame@);
                }
                assert(new_idx@ =~= apply_record(premap, rv, new_off as int, len as int));
                assert(replay_log(new_log@) == Some((new_idx@, new_log@.len() as int)));
                assert(index_ok(new_log@, new_idx@));
                assert(value_at(new_log@, ns) == value_at(oldlog, s));
                assert forall|j: int| 0 <= j < i + 1 implies new_idx@.contains_key(
                    oldentries[j].key@,
                ) by {
                    if j < i {
                        assert(oldentries[j].key@ != key@);
                    }
                }
            }
            i = i + 1;
        }
        proof {
            assert(oldentries.take(n as int) =~= oldentries);
            assert(new_log@.len() <= oldlog.len());
            assert forall|k: Seq<char>| #[trigger] oldmap.contains_key(k) implies
            new_idx@.contains_key(k) by {
                lemma_map_of_contains(oldentries, k);
            }
        }
        self.log = new_log;
        self.index = new_idx;
        let end = self.log.len();
        self.end_offset = end;
        proof {
            assert(final(self).kv() =~= old(self).kv());
        }
    }
}

/// Reopening correctness: a store opened on this store's log bytes (a new
/// process reading the same log file) recovers, and its live map is
/// exactly this store's live map.
pub proof fn lemma_reopen_recovers(s: KvStore, t: KvStore)
    requires
        s.wf(),
        s.is_populated(),
        !t.is_populated(),
        t.log@ == s.log@,
    ensures
        t.recoverable(),
        t.kv() == s.kv(),
{
}

/// The live map after a sequence of mutations, starting from `m`: each
/// `Put` binds its key, each `Remove` unbinds it. `set` and `remove`
/// ensure they update the store's live map exactly like this.
pub open spec fn run_ops(
    m: Map<Seq<char>, Seq<char>>,
    ops: Seq<RecordModel>,
) -> Map<Seq<char>, Seq<char>>
    decreases ops.len(),
{
    if ops.len() == 0 {
        m
    } else {
        let rest = run_ops(m, ops.drop_last());
        match ops.last() {
            RecordModel::Put { key, value } => rest.insert(key, value),
            RecordModel::Remove { key } => rest.remove(key),
        }
    }
}

/// What the most recent mutation touching `k` prescribes: `Some(Some(v))`
/// after a `Put` of `v` not followed by a `Remove` of `k`; `Some(None)`
/// after a final `Remove`; `None` when no mutation names `k`.
pub open spec fn last_write(ops: Seq<RecordModel>, k: Seq<char>) -> Option<Option<Seq<char>>>
    decreases ops.len(),
{
    if ops.len() == 0 {
        None
    } else {
        match ops.last() {
            RecordModel::Put { key, value } => if key == k {
                Some(Some(value))
            } else {
                last_write(ops.drop_last(), k)
            },
            RecordModel::Remove { key } => if key == k {
                Some(None)
            } else {
                last_write(ops.drop_last(), k)
            },
        }
    }
}

/// Last writer wins: after any sequence of `set`/`remove` mutations, a key
/// is bound to the value of its most recent `Put` not followed by a
/// `Remove`, is absent if a `Remove` came last, and keeps its prior
/// binding if no mutation named it. Together with `get`'s contract, which
/// reads the live map, this is the store's read-after-writes law.
pub proof fn lemma_last_write_wins(
    m: Map<Seq<char>, Seq<char>>,
    ops: Seq<RecordModel>,
    k: Seq<char>,
)
    ensures
        match last_write(ops, k) {
            Some(Some(v)) => run_ops(m, ops).contains_key(k) && run_ops(m, ops)[k] == v,
            Some(None) => !run_ops(m, ops).contains_key(k),
            None => run_ops(m, ops).contains_key(k) == m.contains_key(k) && (m.contains_key(k)
                ==> run_ops(m, ops)[k] == m[k]),
        },
    decreases ops.len(),
{
    if ops.len() > 0 {
        lemma_last_write_wins(m, ops.drop_last(), k);
    }
}

} // verus!
