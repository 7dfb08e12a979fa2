//! What the engine asks of a file that serves reads at given positions.

use vstd::prelude::*;
use crate::error::RegionError;

verus! {

/// A file that can be read at a position, asked for its size, and closed.
///
/// A kind of file that is nothing but bytes held in memory says so in `held`,
/// and is then bound to serve exactly those bytes and never to fail but on a
/// read that reaches past their end. Of any other kind of file no method is
/// bound to succeed, and nothing is known here of the bytes that a read hands
/// out.
pub trait SpecializedFile: Sized {
    /// The bytes of the file, where the file is nothing but bytes held in
    /// memory; `None` for a file that lives elsewhere.
    open spec fn held(&self) -> Option<Seq<u8>> {
        None
    }

    /// Gives the file up. A file held in memory never fails to close.
    fn close_file(self) -> (result: Result<(), RegionError>)
        ensures
            self.held() is Some ==> result == Ok::<(), RegionError>(()),
    ;

    /// Fills `buf` with the bytes that start at `start`. The length of `buf`
    /// says how many are wanted, and it is the same afterwards, whether the
    /// read succeeds or not.
    ///
    /// A file held in memory hands out its bytes at that place; it fails, with
    /// `OutOfRange` and `buf` as it was, exactly when they do not all lie in
    /// the file.
    fn read_file(&self, start: usize, buf: &mut Vec<u8>) -> (result: Result<(), RegionError>)
        ensures
            final(buf)@.len() == old(buf)@.len(),
            self.held() matches Some(bytes) ==> if start + old(buf)@.len() <= bytes.len() {
                &&& result == Ok::<(), RegionError>(())
                &&& final(buf)@ == bytes.subrange(start as int, start + old(buf)@.len())
            } else {
                &&& result == Err::<(), RegionError>(RegionError::OutOfRange)
                &&& final(buf)@ == old(buf)@
            },
    ;

    /// The number of bytes that the file holds. A file held in memory always
    /// knows it.
    fn get_file_size(&self) -> (result: Result<usize, RegionError>)
        ensures
            self.held() matches Some(bytes) ==> result == Ok::<usize, RegionError>(
                bytes.len() as usize,
            ),
    ;
}

} // verus!
