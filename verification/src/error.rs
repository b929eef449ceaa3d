use vstd::prelude::*;

verus! {

/// The error kinds surfaced by this crate.
///
/// All read and decode operations return results; the public query surface
/// recovers `Option` (a missing term is `None`, not an error).
#[derive(Debug, Clone, Copy, PartialEq, Eq, Structural)]
pub enum Error {
    /// An underlying byte stream failed. Only raised by callers that wrap
    /// this crate around real I/O; nothing inside the crate produces it.
    Io,
    /// A term or payload byte slice failed UTF-8 decoding. Terms are
    /// carried as raw UTF-8 bytes here, so nothing inside the crate raises
    /// this; embedding layers that convert to `String` map their failures
    /// to it.
    UTF8Error,
    /// A malformed encoded record: bad length prefix, non-ascending
    /// dimensions, or an unknown index version.
    Decode,
    /// An archive is missing a required section, sections are inconsistent
    /// (a posting referencing an out-of-range vector id), or the magic
    /// prefix is wrong.
    InvalidIndex,
}

} // verus!
