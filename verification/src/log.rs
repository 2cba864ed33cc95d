//! The append log: owns the raw log bytes, hands out offset-returning
//! appends and random-offset reads.
//!
//! The bytes live in memory here; whoever owns the engine persists them.
//! A read past the end reports an `IoError`, which recovery treats as
//! "reached an incomplete tail entry".

use vstd::prelude::*;

use crate::format::copy_range;
use crate::format::push_bytes;
use crate::format::WalError;

verus! {

/// A single append-only run of bytes, the store's source of truth.
pub struct AppendLog {
    data: Vec<u8>,
}

impl View for AppendLog {
    type V = Seq<u8>;

    closed spec fn view(&self) -> Seq<u8> {
        self.data@
    }
}

impl AppendLog {
    /// Wraps existing log bytes.
    pub fn from_bytes(data: Vec<u8>) -> (r: AppendLog)
        ensures
            r@ == data@,
    {
        AppendLog { data }
    }

    /// The current length of the log in bytes.
    pub fn size(&self) -> (n: usize)
        ensures
            n == self@.len(),
    {
        self.data.len()
    }

    /// Borrows the raw bytes.
    pub fn bytes(&self) -> (r: &Vec<u8>)
        ensures
            r@ == self@,
    {
        &self.data
    }

    /// Writes `bytes` at the end of the log and returns the offset the
    /// write started at.
    pub fn append(&mut self, bytes: &Vec<u8>) -> (off: usize)
        ensures
            off == old(self)@.len(),
            final(self)@ == old(self)@ + bytes@,
    {
        let off = self.data.len();
        push_bytes(&mut self.data, bytes);
        off
    }

    /// Reads `len` bytes starting at `offset`, or reports an `IoError` when
    /// fewer bytes are available than requested (a short read).
    pub fn read_at(&self, offset: usize, len: usize) -> (r: Result<Vec<u8>, WalError>)
        ensures
            offset + len <= self@.len() ==> (r matches Ok(b) && b@ == self@.subrange(
                offset as int,
                offset as int + len as int,
            )),
            offset + len > self@.len() ==> r == Err::<Vec<u8>, WalError>(WalError::IoError),
    {
        let n = self.data.len();
        if len > n || offset > n - len {
            return Err(WalError::IoError);
        }
        Ok(copy_range(&self.data, offset, len))
    }

    /// Cuts the log back to its first `len` bytes; recovery uses this to
    /// drop a truncated tail entry.
    pub fn truncate(&mut self, len: usize)
        requires
            len <= old(self)@.len(),
        ensures
            final(self)@ == old(self)@.subrange(0, len as int),
    {
        self.data.truncate(len);
    }
}

} // verus!
