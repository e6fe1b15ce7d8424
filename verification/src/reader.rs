//! Bounds-checked little-endian reader over a borrowed byte slice, shared by
//! the binary importers.

use vstd::prelude::*;

verus! {

/// Why a read failed.
#[derive(Clone, Copy, Debug, PartialEq, Eq, Structural)]
pub enum ReadError {
    /// The read needed bytes past the end; `offset` is where it started.
    UnexpectedEof { offset: usize },
}

/// Little-endian value of four bytes.
pub open spec fn le_u32(b: Seq<u8>) -> u32 {
    (b[0] + b[1] * 0x100 + b[2] * 0x1_0000 + b[3] * 0x100_0000) as u32
}

/// Reads fixed-width little-endian values from the front of a slice,
/// advancing past each one. The slice is borrowed, never copied.
pub struct LeReader<'a> {
    b: &'a [u8],
    pos: usize,
}

impl<'a> LeReader<'a> {
    /// The bytes being read.
    pub closed spec fn data(&self) -> Seq<u8> {
        self.b@
    }

    /// Offset of the next unread byte.
    pub closed spec fn pos(&self) -> int {
        self.pos as int
    }

    /// The position never passes the end.
    pub open spec fn wf(&self) -> bool {
        0 <= self.pos() <= self.data().len() <= usize::MAX
    }

    pub fn new(b: &'a [u8]) -> (r: Self)
        ensures
            r.wf(),
            r.data() == b@,
            r.pos() == 0,
    {
        let _n = b.len();
        LeReader { b, pos: 0 }
    }

    /// Every byte has been read.
    pub fn eof(&self) -> (r: bool)
        requires
            self.wf(),
        ensures
            r == (self.pos() >= self.data().len()),
    {
        self.pos >= self.b.len()
    }

    /// Bytes not yet read.
    pub fn remaining(&self) -> (r: usize)
        requires
            self.wf(),
        ensures
            r == self.data().len() - self.pos(),
    {
        self.b.len() - self.pos
    }

    /// `Ok` when `n` more bytes are available.
    fn need(&self, n: usize) -> (r: Result<(), ReadError>)
        requires
            self.wf(),
        ensures
            r is Ok <==> self.pos() + n <= self.data().len(),
            r matches Err(e) ==> e == (ReadError::UnexpectedEof { offset: self.pos as usize }),
    {
        if n > self.b.len() - self.pos {
            return Err(ReadError::UnexpectedEof { offset: self.pos });
        }
        Ok(())
    }

    /// Next byte.
    pub fn u8(&mut self) -> (r: Result<u8, ReadError>)
        requires
            old(self).wf(),
        ensures
            final(self).wf(),
            final(self).data() == old(self).data(),
            match r {
                Ok(v) => {
                    &&& old(self).pos() + 1 <= old(self).data().len()
                    &&& v == old(self).data()[old(self).pos()]
                    &&& final(self).pos() == old(self).pos() + 1
                },
                Err(e) => {
                    &&& old(self).pos() + 1 > old(self).data().len()
                    &&& e == ReadError::UnexpectedEof { offset: old(self).pos() as usize }
                    &&& final(self).pos() == old(self).pos()
                },
            },
    {
        match self.need(1) {
            Err(e) => Err(e),
            Ok(()) => {
                let v = self.b[self.pos];
                self.pos = self.pos + 1;
                Ok(v)
            },
        }
    }

    /// Next four bytes as a little-endian `u32`.
    pub fn u32(&mut self) -> (r: Result<u32, ReadError>)
        requires
            old(self).wf(),
        ensures
            final(self).wf(),
            final(self).data() == old(self).data(),
            match r {
                Ok(v) => {
                    &&& old(self).pos() + 4 <= old(self).data().len()
                    &&& v == le_u32(old(self).data().subrange(old(self).pos(), old(self).pos() + 4))
                    &&& final(self).pos() == old(self).pos() + 4
                },
                Err(e) => {
                    &&& old(self).pos() + 4 > old(self).data().len()
                    &&& e == ReadError::UnexpectedEof { offset: old(self).pos() as usize }
                    &&& final(self).pos() == old(self).pos()
                },
            },
    {
        match self.need(4) {
            Err(e) => Err(e),
            Ok(()) => {
                let p = self.pos;
                let b0 = self.b[p] as u32;
                let b1 = self.b[p + 1] as u32;
                let b2 = self.b[p + 2] as u32;
                let b3 = self.b[p + 3] as u32;
                let v = b0 + b1 * 0x100 + b2 * 0x1_0000 + b3 * 0x100_0000;
                self.pos = p + 4;
                Ok(v)
            },
        }
    }

    /// Next four bytes as a little-endian two's-complement `i32`.
    pub fn i32(&mut self) -> (r: Result<i32, ReadError>)
        requires
            old(self).wf(),
        ensures
            final(self).wf(),
            final(self).data() == old(self).data(),
            match r {
                Ok(v) => {
                    &&& old(self).pos() + 4 <= old(self).data().len()
                    &&& v == le_u32(old(self).data().subrange(old(self).pos(), old(self).pos() + 4)) as i32
                    &&& final(self).pos() == old(self).pos() + 4
                },
                Err(e) => {
                    &&& old(self).pos() + 4 > old(self).data().len()
                    &&& e == ReadError::UnexpectedEof { offset: old(self).pos() as usize }
                    &&& final(self).pos() == old(self).pos()
                },
            },
    {
        match self.u32() {
            Err(e) => Err(e),
            Ok(v) => Ok(v as i32),
        }
    }

    /// The next `n` bytes, borrowed from the source.
    pub fn bytes(&mut self, n: usize) -> (r: Result<&'a [u8], ReadError>)
        requires
            old(self).wf(),
        ensures
            final(self).wf(),
            final(self).data() == old(self).data(),
            match r {
                Ok(s) => {
                    &&& old(self).pos() + n <= old(self).data().len()
                    &&& s@ == old(self).data().subrange(old(self).pos(), old(self).pos() + n)
                    &&& final(self).pos() == old(self).pos() + n
                },
                Err(e) => {
                    &&& old(self).pos() + n > old(self).data().len()
                    &&& e == ReadError::UnexpectedEof { offset: old(self).pos() as usize }
                    &&& final(self).pos() == old(self).pos()
                },
            },
    {
        match self.need(n) {
            Err(e) => Err(e),
            Ok(()) => {
                let len = self.b.len();
                assert(self.pos + n <= len);
                let s = &self.b[self.pos..self.pos + n];
                self.pos = self.pos + n;
                Ok(s)
            },
        }
    }
}

} // verus!
