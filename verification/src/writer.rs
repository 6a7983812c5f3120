//! The positioned writer: the output stream of the log together with the
//! offset at which the next byte will be written.

use vstd::prelude::*;
use vstd::slice::{slice_subrange, slice_to_vec};
use crate::record::append_bytes;

verus! {

/// PositionedWriter tracks the current writing position as an offset in
/// bytes from the start of the stream. It keeps every byte of the stream,
/// and remembers how many of them it has handed on to the backing file.
#[derive(Debug)]
pub struct PositionedWriter {
    w: Vec<u8>,
    offset: u64,
    flushed: usize,
}

impl PositionedWriter {
    /// The offset is the length of the stream, and no more bytes are flushed
    /// than were written.
    pub closed spec fn wf(&self) -> bool {
        &&& self.offset == self.w@.len()
        &&& self.flushed <= self.w@.len()
    }

    /// Every byte of the stream.
    pub closed spec fn bytes(&self) -> Seq<u8> {
        self.w@
    }

    /// The current writing position.
    pub closed spec fn position(&self) -> u64 {
        self.offset
    }

    /// The number of bytes that the backing file already holds.
    pub closed spec fn flushed(&self) -> nat {
        self.flushed as nat
    }

    /// In a well-formed writer the position is the length of the stream.
    pub proof fn lemma_position(&self)
        requires
            self.wf(),
        ensures
            self.position() == self.bytes().len(),
            self.flushed() <= self.bytes().len(),
    {
    }

    /// A writer at the end of a stream whose bytes the backing file holds.
    pub fn resume(stream: Vec<u8>) -> (r: PositionedWriter)
        ensures
            r.wf(),
            r.bytes() == stream@,
            r.flushed() == stream@.len(),
    {
        let flushed = stream.len();
        PositionedWriter { w: stream, offset: flushed as u64, flushed }
    }

    /// A writer at the start of an empty stream.
    pub fn new() -> (r: PositionedWriter)
        ensures
            r.wf(),
            r.bytes() == Seq::<u8>::empty(),
            r.flushed() == 0,
    {
        PositionedWriter { w: Vec::new(), offset: 0, flushed: 0 }
    }

    /// The current writing position.
    pub fn offset(&self) -> (r: u64)
        requires
            self.wf(),
        ensures
            r == self.position(),
            r == self.bytes().len(),
    {
        self.offset
    }

    /// The stream written so far.
    pub fn as_slice(&self) -> (r: &[u8])
        ensures
            r@ == self.bytes(),
    {
        self.w.as_slice()
    }

    /// Writes `buf` at the current position and advances the position by the
    /// number of bytes written, which is returned.
    pub fn write(&mut self, buf: &[u8]) -> (n: usize)
        requires
            old(self).wf(),
        ensures
            final(self).wf(),
            final(self).bytes() == old(self).bytes() + buf@,
            final(self).position() == old(self).position() + buf@.len(),
            final(self).flushed() == old(self).flushed(),
            n == buf@.len(),
    {
        let n = buf.len();
        append_bytes(&mut self.w, buf);
        let end = self.w.len();
        assert(end == old(self).offset + n);
        self.offset += n as u64;
        n
    }

    /// Hands out the bytes that were written since the last flush, for the
    /// caller to append to the backing file.
    pub fn flush(&mut self) -> (pending: Vec<u8>)
        requires
            old(self).wf(),
        ensures
            final(self).wf(),
            final(self).bytes() == old(self).bytes(),
            final(self).flushed() == old(self).bytes().len(),
            pending@ == old(self).bytes().subrange(
                old(self).flushed() as int,
                old(self).bytes().len() as int,
            ),
    {
        let end = self.w.len();
        let pending = slice_to_vec(slice_subrange(self.w.as_slice(), self.flushed, end));
        self.flushed = end;
        pending
    }
}

} // verus!
