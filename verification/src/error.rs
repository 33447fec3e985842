use vstd::prelude::*;

verus! {

/// The conditions under which an operation of this crate gives up.
///
/// All of them are local and recoverable; the caller decides whether to
/// retry, report or ignore.
#[derive(Clone, Copy, Debug, PartialEq, Eq, Structural)]
pub enum Error {
    /// No vacant chip slot is left.
    Full,
    /// No chip slot carries the requested identifier.
    NotFound,
    /// The destination buffer cannot hold the packed store.
    BufferTooSmall,
    /// The device kept reporting a write in progress until the retry budget ran out.
    Timeout,
    /// The address range does not lie inside the device.
    OutOfRange,
}

} // verus!
