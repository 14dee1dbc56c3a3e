//! Record codec: serializes a single log entry to a self-delimited byte
//! frame and decodes it back.
//!
//! A frame is a fixed-size length header followed by the payload, so record
//! boundaries never depend on payload content:
//!
//! ```text
//! frame   = len(payload) as 8 bytes little-endian ++ payload
//! payload = 0x00 ++ len(key bytes) as 8 bytes LE ++ key bytes ++ value bytes   (Set)
//!         | 0x01 ++ key bytes                                                  (Remove)
//! ```
//!
//! Keys and values are stored as their UTF-8 bytes. A frame can be decoded
//! given only its own byte span, which is what point lookups and compaction
//! do.

use vstd::prelude::*;
use vstd::bytes::*;
use vstd::utf8::*;
use vstd::string::StrSliceExecFns;
use vstd::slice::{slice_subrange, slice_to_vec};
use crate::error::KvError;

verus! {

/// Tag byte opening the payload of a `Set` record.
pub const SET_TAG: u8 = 0;

/// Tag byte opening the payload of a `Remove` record.
pub const REMOVE_TAG: u8 = 1;

/// A single log entry: a key was set to a value, or a key was removed.
#[derive(Debug, PartialEq, Eq)]
pub enum Record {
    Put { key: String, value: String },
    Remove { key: String },
}

/// The mathematical shape of a record: its strings as character sequences.
pub enum RecordModel {
    Put { key: Seq<char>, value: Seq<char> },
    Remove { key: Seq<char> },
}

impl View for Record {
    type V = RecordModel;

    open spec fn view(&self) -> RecordModel {
        match self {
            Record::Put { key, value } => RecordModel::Put { key: key@, value: value@ },
            Record::Remove { key } => RecordModel::Remove { key: key@ },
        }
    }
}

/// Payload bytes of a record (everything after the frame's length header).
pub open spec fn payload_of(r: RecordModel) -> Seq<u8> {
    match r {
        RecordModel::Put { key, value } => seq![SET_TAG] + spec_u64_to_le_bytes(
            encode_utf8(key).len() as u64,
        ) + encode_utf8(key) + encode_utf8(value),
        RecordModel::Remove { key } => seq![REMOVE_TAG] + encode_utf8(key),
    }
}

/// The record's strings are short enough that the 64-bit length prefixes in
/// its encoding are exact. Every record built from in-memory strings is.
pub open spec fn bounded(r: RecordModel) -> bool {
    match r {
        RecordModel::Put { key, value } => encode_utf8(key).len() <= u64::MAX && 9 + encode_utf8(
            key,
        ).len() + encode_utf8(value).len() <= u64::MAX,
        RecordModel::Remove { key } => 1 + encode_utf8(key).len() <= u64::MAX,
    }
}

/// The full byte frame of a record: length header, then payload.
pub open spec fn frame_of(r: RecordModel) -> Seq<u8> {
    spec_u64_to_le_bytes(payload_of(r).len() as u64) + payload_of(r)
}

/// Parses a payload byte span; `None` on any malformed input.
pub open spec fn parse_payload(p: Seq<u8>) -> Option<RecordModel> {
    if p.len() < 1 {
        None
    } else if p[0] == SET_TAG {
        if p.len() < 9 {
            None
        } else {
            let klen = spec_u64_from_le_bytes(p.subrange(1, 9)) as int;
            if klen > p.len() - 9 {
                None
            } else {
                let kb = p.subrange(9, 9 + klen);
                let vb = p.subrange(9 + klen, p.len() as int);
                if valid_utf8(kb) && valid_utf8(vb) {
                    Some(RecordModel::Put { key: decode_utf8(kb), value: decode_utf8(vb) })
                } else {
                    None
                }
            }
        }
    } else if p[0] == REMOVE_TAG {
        let kb = p.subrange(1, p.len() as int);
        if valid_utf8(kb) {
            Some(RecordModel::Remove { key: decode_utf8(kb) })
        } else {
            None
        }
    } else {
        None
    }
}

/// Parses a byte span that must hold exactly one frame; `None` if the
/// header does not match the span or the payload is malformed.
pub open spec fn parse_frame(b: Seq<u8>) -> Option<RecordModel> {
    if b.len() < 8 {
        None
    } else {
        let n = spec_u64_from_le_bytes(b.subrange(0, 8)) as int;
        if b.len() - 8 != n {
            None
        } else {
            parse_payload(b.subrange(8, b.len() as int))
        }
    }
}

/// `b` is exactly one well-formed frame and decodes to `r`.
pub open spec fn frame_parses_to(b: Seq<u8>, r: RecordModel) -> bool {
    parse_frame(b) == Some(r)
}

/// Decoding is the exact inverse of encoding: the frame of a record parses
/// back to that record.
pub proof fn lemma_frame_roundtrip(r: RecordModel)
    requires
        bounded(r),
    ensures
        frame_parses_to(frame_of(r), r),
{
    lemma_auto_spec_u64_to_from_le_bytes();
    let p = payload_of(r);
    let b = frame_of(r);
    assert(p.len() <= u64::MAX) by {
        match r {
            RecordModel::Put { key, value } => {
                assert(p.len() == 9 + encode_utf8(key).len() + encode_utf8(value).len());
            },
            RecordModel::Remove { key } => {
                assert(p.len() == 1 + encode_utf8(key).len());
            },
        }
    }
    assert(b.subrange(0, 8) =~= spec_u64_to_le_bytes(p.len() as u64));
    assert(spec_u64_from_le_bytes(b.subrange(0, 8)) == p.len() as u64);
    assert(b.subrange(8, b.len() as int) =~= p);
    match r {
        RecordModel::Put { key, value } => {
            let kb = encode_utf8(key);
            let vb = encode_utf8(value);
            assert(p[0] == SET_TAG);
            assert(p.subrange(1, 9) =~= spec_u64_to_le_bytes(kb.len() as u64));
            assert(spec_u64_from_le_bytes(p.subrange(1, 9)) == kb.len() as u64);
            assert(p.subrange(9, 9 + kb.len() as int) =~= kb);
            assert(p.subrange(9 + kb.len() as int, p.len() as int) =~= vb);
            encode_utf8_valid_utf8(key);
            encode_utf8_valid_utf8(value);
            encode_utf8_decode_utf8(key);
            encode_utf8_decode_utf8(value);
        },
        RecordModel::Remove { key } => {
            let kb = encode_utf8(key);
            assert(p[0] == REMOVE_TAG);
            assert(p.subrange(1, p.len() as int) =~= kb);
            encode_utf8_valid_utf8(key);
            encode_utf8_decode_utf8(key);
        },
    }
}

/// Relies on `String::from_utf8` of std: it succeeds exactly on valid
/// UTF-8 input, and the resulting string's characters encode back to the
/// input bytes — stated with vstd's UTF-8 model, the same model vstd uses
/// for `str::as_bytes`.
#[verifier::external_body]
fn bytes_to_string(v: Vec<u8>) -> (r: Option<String>)
    ensures
        match r {
            Some(s) => valid_utf8(v@) && encode_utf8(s@) == v@,
            None => !valid_utf8(v@),
        },
{
    String::from_utf8(v).ok()
}

/// Encodes a record as one self-delimited byte frame.
pub fn encode(r: &Record) -> (out: Vec<u8>)
    ensures
        out@ == frame_of(r@),
        bounded(r@),
        out@.len() > 8,
{
    let mut payload: Vec<u8> = Vec::new();
    match r {
        Record::Put { key, value } => {
            payload.push(SET_TAG);
            let mut kb = key.as_str().as_bytes_vec();
            let mut lenb = u64_to_le_bytes(kb.len() as u64);
            payload.append(&mut lenb);
            payload.append(&mut kb);
            let mut vb = value.as_str().as_bytes_vec();
            payload.append(&mut vb);
            proof {
                assert(payload@ =~= payload_of(r@));
            }
        },
        Record::Remove { key } => {
            payload.push(REMOVE_TAG);
            let mut kb = key.as_str().as_bytes_vec();
            payload.append(&mut kb);
            proof {
                assert(payload@ =~= payload_of(r@));
            }
        },
    }
    let mut out = u64_to_le_bytes(payload.len() as u64);
    out.append(&mut payload);
    proof {
        assert(out@ =~= frame_of(r@));
    }
    out
}

/// Decodes the payload of a frame; fails with `Serialization` exactly on
/// malformed bytes.
fn decode_payload(p: &[u8]) -> (r: Result<Record, KvError>)
    ensures
        match r {
            Ok(rec) => parse_payload(p@) == Some(rec@),
            Err(e) => parse_payload(p@) is None && e == KvError::Serialization,
        },
{
    if p.len() < 1 {
        return Err(KvError::Serialization);
    }
    let tag = *vstd::slice::slice_index_get(p, 0);
    if tag == SET_TAG {
        if p.len() < 9 {
            return Err(KvError::Serialization);
        }
        let klen64 = u64_from_le_bytes(slice_subrange(p, 1, 9));
        if klen64 > (p.len() - 9) as u64 {
            return Err(KvError::Serialization);
        }
        let klen = klen64 as usize;
        let kb = slice_to_vec(slice_subrange(p, 9, 9 + klen));
        let vb = slice_to_vec(slice_subrange(p, 9 + klen, p.len()));
        match bytes_to_string(kb) {
            Some(key) => match bytes_to_string(vb) {
                Some(value) => {
                    proof {
                        encode_utf8_decode_utf8(key@);
                        encode_utf8_decode_utf8(value@);
                    }
                    Ok(Record::Put { key, value })
                },
                None => Err(KvError::Serialization),
            },
            None => Err(KvError::Serialization),
        }
    } else if tag == REMOVE_TAG {
        let kb = slice_to_vec(slice_subrange(p, 1, p.len()));
        match bytes_to_string(kb) {
            Some(key) => {
                proof {
                    encode_utf8_decode_utf8(key@);
                }
                Ok(Record::Remove { key })
            },
            None => Err(KvError::Serialization),
        }
    } else {
        Err(KvError::Serialization)
    }
}

/// Decodes one byte frame; fails with `Serialization` exactly on bytes
/// that are not the frame of any record.
pub fn decode(bytes: &[u8]) -> (r: Result<Record, KvError>)
    ensures
        match r {
            Ok(rec) => parse_frame(bytes@) == Some(rec@),
            Err(e) => parse_frame(bytes@) is None && e == KvError::Serialization,
        },
{
    if bytes.len() < 8 {
        return Err(KvError::Serialization);
    }
    let n = u64_from_le_bytes(slice_subrange(bytes, 0, 8));
    if n != (bytes.len() - 8) as u64 {
        return Err(KvError::Serialization);
    }
    let payload = slice_subrange(bytes, 8, bytes.len());
    match decode_payload(payload) {
        Ok(rec) => Ok(rec),
        Err(e) => Err(e),
    }
}

} // verus!
