//! Replay: rebuilding the in-memory index by scanning the log from offset
//! zero, decoding record after record and folding each into the index.
//!
//! A record that is cut short by the end of the log (a crash-time partial
//! write) marks the effective end of valid data and is ignored; a record
//! that is length-complete but does not decode makes the log corrupt.

use vstd::prelude::*;
use vstd::bytes::*;
use vstd::slice::slice_subrange;
use crate::codec::{decode, frame_parses_to, parse_frame, parse_payload, Record, RecordModel};
use crate::error::KvError;
use crate::index::{Index, Span};

verus! {

/// Applies one decoded record to an index map, as a write of its frame at
/// `off` with length `len` would: `Put` points the key at that span,
/// `Remove` deletes the key.
pub open spec fn apply_record(
    m: Map<Seq<char>, Span>,
    r: RecordModel,
    off: int,
    len: int,
) -> Map<Seq<char>, Span> {
    match r {
        RecordModel::Put { key, .. } => m.insert(key, Span { off, len }),
        RecordModel::Remove { key } => m.remove(key),
    }
}

/// Replays the log from position `i` with accumulated index `m`. Returns
/// the final index and the offset one past the last whole record; `None`
/// means a length-complete record failed to decode (corrupt log). A frame
/// whose header or body runs past the end of the log ends the replay.
pub open spec fn replay_from(log: Seq<u8>, i: int, m: Map<Seq<char>, Span>) -> Option<
    (Map<Seq<char>, Span>, int),
>
    decreases log.len() - i,
{
    if i < 0 || i > log.len() {
        None
    } else if log.len() - i < 8 {
        Some((m, i))
    } else {
        let n = spec_u64_from_le_bytes(log.subrange(i, i + 8)) as int;
        if log.len() - i - 8 < n {
            Some((m, i))
        } else {
            match parse_payload(log.subrange(i + 8, i + 8 + n)) {
                Option::None => None,
                Option::Some(r) => replay_from(log, i + 8 + n, apply_record(m, r, i, 8 + n)),
            }
        }
    }
}

/// Replay of the whole log, starting from an empty index.
pub open spec fn replay_log(log: Seq<u8>) -> Option<(Map<Seq<char>, Span>, int)> {
    replay_from(log, 0, Map::empty())
}

/// The record a span denotes in the log, if the span lies inside the log
/// and holds exactly one frame.
pub open spec fn record_at(log: Seq<u8>, s: Span) -> Option<RecordModel> {
    if 0 <= s.off && 0 <= s.len && s.off + s.len <= log.len() {
        parse_frame(log.subrange(s.off, s.off + s.len))
    } else {
        None
    }
}

/// Every entry of the index points at a `Put` frame for its own key.
pub open spec fn index_ok(log: Seq<u8>, m: Map<Seq<char>, Span>) -> bool {
    forall|k: Seq<char>| #[trigger]
        m.contains_key(k) ==> (record_at(log, m[k]) matches Some(RecordModel::Put {
            key,
            value: _,
        }) && key == k)
}

/// All spans of the index end at or before `end`.
pub open spec fn spans_below(m: Map<Seq<char>, Span>, end: int) -> bool {
    forall|k: Seq<char>| #[trigger]
        m.contains_key(k) ==> 0 <= m[k].off && 0 <= m[k].len && m[k].off + m[k].len <= end
}

/// The value stored by the `Put` record a span points at.
pub open spec fn value_at(log: Seq<u8>, s: Span) -> Seq<char> {
    match record_at(log, s) {
        Some(RecordModel::Put { value, .. }) => value,
        _ => Seq::empty(),
    }
}

/// The live key-to-value map an index denotes over a log.
pub open spec fn kv_of(log: Seq<u8>, m: Map<Seq<char>, Span>) -> Map<Seq<char>, Seq<char>> {
    Map::new(|k: Seq<char>| m.contains_key(k), |k: Seq<char>| value_at(log, m[k]))
}

/// A span that lies inside the log denotes the same record after the log
/// grows on the right.
pub proof fn lemma_record_at_append(log: Seq<u8>, ext: Seq<u8>, s: Span)
    requires
        0 <= s.off,
        0 <= s.len,
        s.off + s.len <= log.len(),
    ensures
        record_at(log + ext, s) == record_at(log, s),
{
    assert((log + ext).subrange(s.off, s.off + s.len) =~= log.subrange(s.off, s.off + s.len));
}

/// A span that lies inside a prefix of the log denotes the same record in
/// the prefix.
pub proof fn lemma_record_at_prefix(log: Seq<u8>, end: int, s: Span)
    requires
        0 <= s.off,
        0 <= s.len,
        s.off + s.len <= end <= log.len(),
    ensures
        record_at(log.subrange(0, end), s) == record_at(log, s),
{
    assert(log.subrange(0, end).subrange(s.off, s.off + s.len) =~= log.subrange(
        s.off,
        s.off + s.len,
    ));
}

/// Replay never moves backwards nor past the end of the log.
pub proof fn lemma_replay_from_end(log: Seq<u8>, i: int, m: Map<Seq<char>, Span>)
    requires
        0 <= i <= log.len(),
        replay_from(log, i, m) is Some,
    ensures
        i <= replay_from(log, i, m)->Some_0.1 <= log.len(),
    decreases log.len() - i,
{
    if log.len() - i < 8 {
    } else {
        let n = spec_u64_from_le_bytes(log.subrange(i, i + 8)) as int;
        if log.len() - i - 8 < n {
        } else {
            match parse_payload(log.subrange(i + 8, i + 8 + n)) {
                Option::None => {},
                Option::Some(r) => {
                    lemma_replay_from_end(log, i + 8 + n, apply_record(m, r, i, 8 + n));
                },
            }
        }
    }
}

/// Replaying a log extended by one whole frame replays the old log and
/// then applies the frame's record at the old end.
pub proof fn lemma_replay_from_append(
    log: Seq<u8>,
    i: int,
    m: Map<Seq<char>, Span>,
    ext: Seq<u8>,
    r: RecordModel,
)
    requires
        0 <= i <= log.len(),
        replay_from(log, i, m) is Some,
        replay_from(log, i, m)->Some_0.1 == log.len(),
        frame_parses_to(ext, r),
    ensures
        replay_from(log + ext, i, m) == Some(
            (
                apply_record(
                    replay_from(log, i, m)->Some_0.0,
                    r,
                    log.len() as int,
                    ext.len() as int,
                ),
                (log.len() + ext.len()) as int,
            ),
        ),
    decreases log.len() - i,
{
    let whole = log + ext;
    let hn = spec_u64_from_le_bytes(ext.subrange(0, 8)) as int;
    assert(ext.len() >= 8 && hn == ext.len() - 8);
    if log.len() - i < 8 {
        // the old replay ended here, so i is exactly the old end
        assert(i == log.len());
        assert(whole.subrange(i, i + 8) =~= ext.subrange(0, 8));
        assert(whole.subrange(i + 8, i + 8 + hn) =~= ext.subrange(8, ext.len() as int));
        assert(parse_payload(whole.subrange(i + 8, i + 8 + hn)) == Some(r));
        let m2 = apply_record(m, r, i, 8 + hn);
        assert(whole.len() - (i + 8 + hn) == 0);
        assert(replay_from(whole, i + 8 + hn, m2) == Some((m2, whole.len() as int)));
    } else {
        let n = spec_u64_from_le_bytes(log.subrange(i, i + 8)) as int;
        assert(whole.subrange(i, i + 8) =~= log.subrange(i, i + 8));
        if log.len() - i - 8 < n {
            // the old replay would stop at i, contradicting end == log.len()
            assert(false);
        } else {
            assert(whole.subrange(i + 8, i + 8 + n) =~= log.subrange(i + 8, i + 8 + n));
            match parse_payload(log.subrange(i + 8, i + 8 + n)) {
                Option::None => {
                    assert(false);
                },
                Option::Some(r0) => {
                    lemma_replay_from_append(
                        log,
                        i + 8 + n,
                        apply_record(m, r0, i, 8 + n),
                        ext,
                        r,
                    );
                },
            }
        }
    }
}

/// Replay reads nothing past its end offset: cutting the log there replays
/// to the same index and the same end.
pub proof fn lemma_replay_from_prefix(log: Seq<u8>, i: int, m: Map<Seq<char>, Span>)
    requires
        0 <= i <= log.len(),
        replay_from(log, i, m) is Some,
    ensures
        replay_from(
            log.subrange(0, replay_from(log, i, m)->Some_0.1),
            i,
            m,
        ) == replay_from(log, i, m),
    decreases log.len() - i,
{
    lemma_replay_from_end(log, i, m);
    let end = replay_from(log, i, m)->Some_0.1;
    let cut = log.subrange(0, end);
    if log.len() - i < 8 {
        assert(end == i && cut.len() == i);
    } else {
        let n = spec_u64_from_le_bytes(log.subrange(i, i + 8)) as int;
        if log.len() - i - 8 < n {
            assert(end == i && cut.len() == i);
        } else {
            match parse_payload(log.subrange(i + 8, i + 8 + n)) {
                Option::None => {},
                Option::Some(r) => {
                    let m2 = apply_record(m, r, i, 8 + n);
                    lemma_replay_from_end(log, i + 8 + n, m2);
                    assert(end >= i + 8 + n);
                    assert(cut.subrange(i, i + 8) =~= log.subrange(i, i + 8));
                    assert(cut.subrange(i + 8, i + 8 + n) =~= log.subrange(i + 8, i + 8 + n));
                    lemma_replay_from_prefix(log, i + 8 + n, m2);
                },
            }
        }
    }
}

/// Scans the log from offset zero, decoding every record and folding it
/// into a fresh index. Returns the index and the offset one past the last
/// whole record; a truncated trailing record is ignored. Fails with
/// `CorruptLog` exactly when some length-complete record does not decode.
pub fn replay(log: &Vec<u8>) -> (r: Result<(Index, usize), KvError>)
    ensures
        match r {
            Ok(p) => {
                &&& p.0.wf()
                &&& replay_log(log@) == Some((p.0@, p.1 as int))
                &&& p.1 <= log@.len()
                &&& index_ok(log@, p.0@)
                &&& spans_below(p.0@, p.1 as int)
                &&& p.0.total_len() <= p.1 as int
            },
            Err(e) => replay_log(log@) is None && e == KvError::CorruptLog,
        },
{
    let n = log.len();
    let mut idx = Index::new();
    let mut i: usize = 0;
    loop
        invariant
            i <= n,
            n == log@.len(),
            idx.wf(),
            replay_from(log@, i as int, idx@) == replay_log(log@),
            index_ok(log@, idx@),
            spans_below(idx@, i as int),
            idx.total_len() <= i as int,
        decreases n - i,
    {
        if n - i < 8 {
            return Ok((idx, i));
        }
        let hdr = u64_from_le_bytes(slice_subrange(log.as_slice(), i, i + 8));
        if hdr > (n - i - 8) as u64 {
            // truncated trailing record: effective end of valid data
            return Ok((idx, i));
        }
        let plen = hdr as usize;
        let flen = 8 + plen;
        let frame = slice_subrange(log.as_slice(), i, i + flen);
        proof {
            assert(frame@.subrange(0, 8) =~= log@.subrange(i as int, i as int + 8));
            assert(frame@.subrange(8, frame@.len() as int) =~= log@.subrange(
                i as int + 8,
                i as int + 8 + plen as int,
            ));
        }
        match decode(frame) {
            Err(_) => {
                return Err(KvError::CorruptLog);
            },
            Ok(rec) => {
                let ghost m0 = idx@;
                let ghost rv = rec@;
                proof {
                    assert(parse_frame(frame@) == Some(rv));
                    assert(parse_payload(log@.subrange(i as int + 8, i as int + 8 + plen as int))
                        == Some(rv));
                }
                match rec {
                    Record::Put { key, value: _ } => {
                        idx.insert(key, i, flen);
                    },
                    Record::Remove { key } => {
                        idx.remove(&key);
                    },
                }
                proof {
                    assert(idx@ =~= apply_record(m0, rv, i as int, flen as int));
                    let s = Span { off: i as int, len: flen as int };
                    assert(record_at(log@, s) == Some(rv)) by {
                        assert(log@.subrange(s.off, s.off + s.len) =~= frame@);
                    }
                }
                i = i + flen;
            },
        }
    }
}

} // verus!
