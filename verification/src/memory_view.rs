//! Sources of bytes that can be read by range: the one capability through
//! which a file is looked at, whether it lies in memory or somewhere remote.

use crate::error::IkvblobError;
use std::ops::Range;
use vstd::prelude::*;
use vstd::slice::slice_subrange;

verus! {

/// A source of bytes with a length and ranged reads.
///
/// The bytes of a source never change. A read may fail, as a remote source
/// does when a range cannot be fetched or comes back short; a read that
/// succeeds has delivered exactly the bytes of the range.
pub trait Memory {
    /// The bytes of the source, where it is known to hold fixed bytes.
    open spec fn contents(&self) -> Seq<u8> {
        Seq::empty()
    }

    /// Whether the source is known to always answer with its bytes: it gives
    /// its length, and every range within it. Nothing is known of a source
    /// that does not say so.
    open spec fn reliable(&self) -> bool {
        false
    }

    /// The bytes of the range `range.start..range.end`.
    fn read_slice(&self, range: Range<usize>) -> (bytes: Result<Vec<u8>, IkvblobError>)
        ensures
            self.reliable() ==> match bytes {
                Ok(b) => range.start <= range.end <= self.contents().len() && b@
                    == self.contents().subrange(range.start as int, range.end as int),
                Err(e) => e == IkvblobError::ReadFailed && !(range.start <= range.end
                    <= self.contents().len()),
            },
    ;

    /// The number of bytes of the source.
    fn len(&self) -> (len: Result<usize, IkvblobError>)
        ensures
            self.reliable() ==> len == Ok::<usize, IkvblobError>(self.contents().len() as usize)
                && self.contents().len() <= usize::MAX,
    ;
}

impl Memory for Vec<u8> {
    open spec fn contents(&self) -> Seq<u8> {
        self@
    }

    open spec fn reliable(&self) -> bool {
        true
    }

    fn read_slice(&self, range: Range<usize>) -> (bytes: Result<Vec<u8>, IkvblobError>) {
        if range.start <= range.end && range.end <= self.len() {
            let part = slice_subrange(self.as_slice(), range.start, range.end);
            let mut bytes: Vec<u8> = Vec::new();
            crate::bytes::append_bytes(&mut bytes, part);
            assert(bytes@ =~= self@.subrange(range.start as int, range.end as int));
            Ok(bytes)
        } else {
            Err(IkvblobError::ReadFailed)
        }
    }

    fn len(&self) -> (len: Result<usize, IkvblobError>) {
        Ok(Vec::len(self))
    }
}

} // verus!
