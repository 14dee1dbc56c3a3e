use vstd::prelude::*;

verus! {

/// The failures a store operation can surface. Rendering them as user
/// messages and exit codes is the caller's concern; the store itself only
/// classifies the failure.
#[derive(Debug, PartialEq, Eq)]
pub enum KvError {
    /// An underlying file-system operation failed (open, read, write,
    /// rename, stat). The store core never produces this itself; the I/O
    /// layer around it does.
    Io,
    /// A record's bytes are malformed or truncated and cannot be decoded.
    Serialization,
    /// `remove` was called for a key with no live entry.
    KeyNotFound { key: String },
    /// Replay hit a record that is length-complete but does not decode;
    /// the log cannot be recovered. A merely truncated trailing record is
    /// tolerated instead and never raises this.
    CorruptLog,
    /// The index pointed at a record that decodes to something other than
    /// a `Set`; the index and the log disagree.
    InternalInconsistency,
}

} // verus!
