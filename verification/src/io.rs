//! Where bytes come from and go to.
//!
//! The library reads, writes and rewinds through the traits of this module. In
//! memory, byte slices can be read, vectors of bytes can be written, and a
//! [`Cursor`] can be both; files and sockets implement the traits outside of the
//! library. What such a source or destination holds is left open, and it is taken to
//! be one that can fail, with any error.

use crate::error::IoError;
use vstd::prelude::*;
use vstd::slice::{slice_subrange, slice_to_vec};

verus! {

/// A source of bytes.
pub trait Read {
    /// The bytes that are still to be read.
    closed spec fn pending(&self) -> Seq<u8> {
        arbitrary::<spec_fn(&Self) -> Seq<u8>>()(self)
    }

    /// The errors that reading can fail with, other than that the bytes run out.
    open spec fn read_faults(&self) -> Set<std::io::Error> {
        Set::full()
    }

    /// Reads exactly `n` bytes. Where fewer are left this is
    /// [`IoError::UnexpectedEof`], and the ones left may or may not be consumed.
    fn read_exact(&mut self, n: usize) -> (r: Result<Vec<u8>, IoError>)
        ensures
            match r {
                Ok(bytes) => {
                    &&& n <= old(self).pending().len()
                    &&& bytes@ == old(self).pending().take(n as int)
                    &&& final(self).pending() == old(self).pending().skip(n as int)
                },
                Err(IoError::UnexpectedEof) => {
                    &&& old(self).pending().len() < n
                    &&& final(self).pending().len() <= old(self).pending().len()
                },
                Err(IoError::Other(e)) => old(self).read_faults().contains(e),
                Err(_) => false,
            },
            final(self).read_faults().subset_of(old(self).read_faults()),
    ;
}

/// A destination of bytes.
pub trait Write {
    /// The bytes that have been written.
    closed spec fn written(&self) -> Seq<u8> {
        arbitrary::<spec_fn(&Self) -> Seq<u8>>()(self)
    }

    /// The errors that writing can fail with.
    open spec fn write_faults(&self) -> Set<std::io::Error> {
        Set::full()
    }

    /// Writes all of the bytes after the ones already written.
    fn write_all(&mut self, bytes: &[u8]) -> (r: Result<(), IoError>)
        ensures
            match r {
                Ok(()) => final(self).written() == old(self).written() + bytes@,
                Err(IoError::Other(e)) => old(self).write_faults().contains(e),
                Err(_) => false,
            },
            final(self).write_faults().subset_of(old(self).write_faults()),
    ;
}

/// A place where bytes are written first and read back later. What going back and
/// reading can fail with is among what writing can fail with.
pub trait Chunk: Read + Write {
    /// Goes back to the first byte that was written, to read.
    fn rewind(&mut self) -> (r: Result<(), IoError>)
        ensures
            match r {
                Ok(()) => {
                    &&& final(self).pending() == old(self).written()
                    &&& final(self).read_faults().subset_of(old(self).write_faults())
                },
                Err(IoError::Other(e)) => old(self).write_faults().contains(e),
                Err(_) => false,
            },
    ;
}

impl<'a> Read for &'a [u8] {
    open spec fn pending(&self) -> Seq<u8> {
        (*self)@
    }

    open spec fn read_faults(&self) -> Set<std::io::Error> {
        Set::empty()
    }

    fn read_exact(&mut self, n: usize) -> (r: Result<Vec<u8>, IoError>) {
        let bytes: &'a [u8] = *self;
        if n <= bytes.len() {
            let head = slice_to_vec(slice_subrange(bytes, 0, n));
            *self = slice_subrange(bytes, n, bytes.len());
            assert(head@ =~= bytes@.take(n as int));
            assert(self@ =~= bytes@.skip(n as int));
            Ok(head)
        } else {
            Err(IoError::UnexpectedEof)
        }
    }
}

impl Write for Vec<u8> {
    open spec fn written(&self) -> Seq<u8> {
        self@
    }

    open spec fn write_faults(&self) -> Set<std::io::Error> {
        Set::empty()
    }

    fn write_all(&mut self, bytes: &[u8]) -> (r: Result<(), IoError>) {
        self.extend_from_slice(bytes);
        assert(self@ =~= old(self)@ + bytes@);
        Ok(())
    }
}

/// A chunk in memory.
#[derive(Debug, Clone)]
pub struct Cursor {
    bytes: Vec<u8>,
    position: usize,
}

impl Cursor {
    /// A chunk that holds nothing yet.
    pub fn new() -> (cursor: Cursor)
        ensures
            cursor.written() == Seq::<u8>::empty(),
            cursor.pending() == Seq::<u8>::empty(),
    {
        let cursor = Cursor { bytes: Vec::new(), position: 0 };
        assert(cursor.pending() =~= Seq::<u8>::empty());
        cursor
    }
}

impl Read for Cursor {
    closed spec fn pending(&self) -> Seq<u8> {
        if self.position <= self.bytes@.len() {
            self.bytes@.skip(self.position as int)
        } else {
            Seq::empty()
        }
    }

    open spec fn read_faults(&self) -> Set<std::io::Error> {
        Set::empty()
    }

    fn read_exact(&mut self, n: usize) -> (r: Result<Vec<u8>, IoError>) {
        let len = self.bytes.len();
        if self.position <= len && n <= len - self.position {
            let end = self.position + n;
            let head = slice_to_vec(slice_subrange(self.bytes.as_slice(), self.position, end));
            self.position = end;
            assert(head@ =~= old(self).pending().take(n as int));
            assert(self.pending() =~= old(self).pending().skip(n as int));
            Ok(head)
        } else if n == 0 {
            assert(Seq::<u8>::empty() =~= old(self).pending().take(0));
            assert(self.pending() =~= old(self).pending().skip(0));
            Ok(Vec::new())
        } else {
            Err(IoError::UnexpectedEof)
        }
    }
}

impl Write for Cursor {
    closed spec fn written(&self) -> Seq<u8> {
        self.bytes@
    }

    open spec fn write_faults(&self) -> Set<std::io::Error> {
        Set::empty()
    }

    fn write_all(&mut self, bytes: &[u8]) -> (r: Result<(), IoError>) {
        self.bytes.extend_from_slice(bytes);
        assert(self.bytes@ =~= old(self).bytes@ + bytes@);
        Ok(())
    }
}

impl Chunk for Cursor {
    fn rewind(&mut self) -> (r: Result<(), IoError>) {
        self.position = 0;
        assert(self.pending() =~= old(self).written());
        Ok(())
    }
}

/// All bytes of a slice are to be read from it, and a vector holds just what was written.
pub proof fn bytes_in_memory(bytes: &[u8], vec: &Vec<u8>)
    ensures
        bytes.pending() == bytes@,
        bytes.read_faults() == Set::<std::io::Error>::empty(),
        vec.written() == vec@,
        vec.write_faults() == Set::<std::io::Error>::empty(),
{
}

} // verus!
