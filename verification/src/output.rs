//! Files that are written from front to back, and files in memory.
use vstd::prelude::*;
use crate::error::{Error, ErrorKind};
use crate::input::{range_bytes, InputFile};

verus! {

/// A file that is written from front to back. Writing may fail; it then says so with an input or
/// output error, and what has been written is left open.
pub trait OutputFile {
    /// The bytes written so far. Every file that is verified says which they are.
    open spec fn written(&self) -> Seq<u8> {
        Seq::empty()
    }

    /// Bytes can always be appended.
    open spec fn never_fails(&self) -> bool {
        false
    }

    /// Nothing that was written is held back; a file that holds nothing back is always so.
    open spec fn is_flushed(&self) -> bool {
        true
    }

    /// How many bytes the largest single write so far had, as far as the file keeps count of it.
    open spec fn largest_write(&self) -> nat {
        0
    }

    /// Appends bytes.
    fn write(&mut self, data: &[u8]) -> (result: Result<(), Error>)
        ensures
            result is Ok ==> final(self).written() == old(self).written() + data@,
            result matches Err(e) ==> e is Io && !old(self).never_fails(),
            final(self).never_fails() == old(self).never_fails(),
            final(self).largest_write() <= old(self).largest_write() || final(self).largest_write() <= data@.len(),
    ;

    /// Passes on what is held back.
    fn flush(&mut self) -> (result: Result<(), Error>)
        ensures
            result is Ok ==> final(self).written() == old(self).written() && final(self).is_flushed(),
            result matches Err(e) ==> e is Io && !old(self).never_fails(),
            final(self).never_fails() == old(self).never_fails(),
            final(self).largest_write() <= old(self).largest_write(),
    ;

    /// The number of bytes written so far.
    fn pos(&self) -> (pos: u64)
        ensures
            pos == self.written().len(),
    ;
}

/// No write in between had more than `limit` bytes.
pub open spec fn writes_within<W: OutputFile>(before: W, after: W, limit: nat) -> bool {
    after.largest_write() <= before.largest_write() || after.largest_write() <= limit
}

/// A file in memory.
pub struct MemoryFile {
    pub bytes: Vec<u8>,
}

impl MemoryFile {
    pub fn new(bytes: Vec<u8>) -> (file: Self)
        ensures
            file.bytes@ == bytes@,
    {
        MemoryFile { bytes }
    }
}

impl OutputFile for MemoryFile {
    open spec fn written(&self) -> Seq<u8> {
        self.bytes@
    }

    open spec fn never_fails(&self) -> bool {
        true
    }

    fn write(&mut self, data: &[u8]) -> (result: Result<(), Error>)
        ensures
            result is Ok,
    {
        self.bytes.extend_from_slice(data);
        Ok(())
    }

    fn flush(&mut self) -> (result: Result<(), Error>)
        ensures
            result is Ok,
    {
        Ok(())
    }

    fn pos(&self) -> (pos: u64) {
        self.bytes.len() as u64
    }
}

/// Bytes that are written to the end of a vector.
impl OutputFile for Vec<u8> {
    open spec fn written(&self) -> Seq<u8> {
        self@
    }

    open spec fn never_fails(&self) -> bool {
        true
    }

    fn write(&mut self, data: &[u8]) -> (result: Result<(), Error>)
        ensures
            result is Ok,
    {
        self.extend_from_slice(data);
        Ok(())
    }

    fn flush(&mut self) -> (result: Result<(), Error>)
        ensures
            result is Ok,
    {
        Ok(())
    }

    fn pos(&self) -> (pos: u64) {
        self.len() as u64
    }
}

impl InputFile for MemoryFile {
    open spec fn contents(&self) -> Seq<u8> {
        self.bytes@
    }

    open spec fn never_fails(&self) -> bool {
        true
    }

    fn read_at(&self, offset: u64, buf: &mut [u8]) -> (result: Result<(), Error>)
        ensures
            result is Ok <==> offset + old(buf)@.len() <= self.bytes@.len(),
    {
        let len: usize = buf.len();
        let total: usize = self.bytes.len();
        if offset > total as u64 || len > total - offset as usize {
            return Err(Error::Io { kind: ErrorKind::UnexpectedEof, message: "read past the end of the file".to_owned() });
        }
        let start: usize = offset as usize;
        let mut i: usize = 0;
        while i < len
            invariant
                i <= len == buf@.len(),
                total == self.bytes@.len(),
                start + len <= total,
                forall|k: int| 0 <= k < i ==> #[trigger] buf@[k] == self.bytes@[start + k],
            decreases len - i,
        {
            buf[i] = self.bytes[start + i];
            i += 1;
        }
        assert(buf@ =~= range_bytes(self.bytes@, (offset, len)));
        Ok(())
    }
}

} // verus!
