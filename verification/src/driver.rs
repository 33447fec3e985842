//! The one interface through which the store reaches non-volatile memory,
//! whatever the backend.

use vstd::prelude::*;
use crate::error::Error;

verus! {

/// A storage driver that keeps one image at a place of its own.
///
/// Each backend says in `wrote` and `fetched` what a transfer does to it;
/// `write` and `read` are held to that.
pub trait StorageDriver: Sized {
    /// Whether writing `data` may take the driver from `self` to `after`
    /// and end in `result`.
    spec fn wrote(&self, data: Seq<u8>, after: Self, result: Result<(), Error>) -> bool;

    /// Whether reading into a buffer that held `before` may take the
    /// driver from `self` to `after`, leave `data` in the buffer and end in
    /// `result`.
    spec fn fetched(
        &self,
        before: Seq<u8>,
        after: Self,
        data: Seq<u8>,
        result: Result<(), Error>,
    ) -> bool;

    /// Writes `data` to the driver's place.
    fn write(&mut self, data: &[u8]) -> (result: Result<(), Error>)
        ensures
            old(self).wrote(data@, *final(self), result),
    ;

    /// Fills `buffer` from the driver's place.
    fn read(&mut self, buffer: &mut [u8]) -> (result: Result<(), Error>)
        ensures
            final(buffer)@.len() == old(buffer)@.len(),
            old(self).fetched(old(buffer)@, *final(self), final(buffer)@, result),
    ;
}

} // verus!
