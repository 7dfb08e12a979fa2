//! The ways an operation on a region can fail.

use vstd::prelude::*;

verus! {

/// Why an operation on a region did not complete.
#[derive(Clone, Copy, Debug, PartialEq, Eq, Structural)]
pub enum RegionError {
    /// The region's file has been closed.
    NotOpen,
    /// Another process holds the exclusive lock on the file.
    Locked,
    /// A system call on the file failed.
    Io,
    /// The compression marker names no codec, or the codec rejected the bytes.
    BadCodec,
    /// The compression level lies outside what the codec accepts.
    BadLevel,
    /// The bytes asked for do not all lie inside the file.
    OutOfRange,
    /// The payload lives in an overflow file that has not been attached.
    OverflowNotOpen,
    /// No place is left for the payload: a header cannot name the sector at
    /// which it would start, or this machine cannot address its sectors.
    Full,
}

} // verus!
