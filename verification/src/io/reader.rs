//! A byte source held in memory, read front to back from a cursor that can
//! be moved.

use vstd::prelude::*;

verus! {

/// Bytes with a read position. The position may lie past the end, where
/// nothing is left to read.
pub struct ByteReader {
    pub data: Vec<u8>,
    pub pos: u64,
}

/// What is left of `data` from position `pos` on.
pub open spec fn tail_from(data: Seq<u8>, pos: int) -> Seq<u8> {
    if 0 <= pos <= data.len() {
        data.subrange(pos, data.len() as int)
    } else {
        Seq::empty()
    }
}

impl ByteReader {
    /// The bytes that have not been read yet.
    pub open spec fn remaining(&self) -> Seq<u8> {
        tail_from(self.data@, self.pos as int)
    }

    /// A reader over `data`, positioned at its first byte.
    pub fn new(data: Vec<u8>) -> (r: Self)
        ensures
            r.data@ == data@,
            r.pos == 0,
    {
        ByteReader { data, pos: 0 }
    }

    /// The read position, counted from the first byte.
    pub fn position(&self) -> (p: u64)
        ensures
            p == self.pos,
    {
        self.pos
    }

    /// The number of bytes that are left to read.
    pub fn available(&self) -> (n: usize)
        ensures
            n == self.remaining().len(),
    {
        let len = self.data.len();
        if self.pos <= len as u64 {
            len - self.pos as usize
        } else {
            0
        }
    }

    /// Hands the bytes back.
    pub fn into_inner(self) -> (data: Vec<u8>)
        ensures
            data@ == self.data@,
    {
        self.data
    }

    /// Moves the read position to `pos`, which may lie past the end.
    pub fn seek(&mut self, pos: u64)
        ensures
            final(self).data@ == old(self).data@,
            final(self).pos == pos,
    {
        self.pos = pos;
    }

    /// Moves the read position forward by `count` bytes. Fails, and leaves
    /// the position alone, where the new position does not fit in 64 bits.
    pub fn skip(&mut self, count: u64) -> (moved: bool)
        ensures
            final(self).data@ == old(self).data@,
            moved == (old(self).pos + count <= u64::MAX),
            moved ==> final(self).pos == old(self).pos + count,
            !moved ==> final(self).pos == old(self).pos,
    {
        match self.pos.checked_add(count) {
            Some(pos) => {
                self.pos = pos;
                true
            },
            None => false,
        }
    }

    /// Reads exactly `count` bytes. Where fewer are left, nothing is handed
    /// out and the position moves to the end.
    pub fn read_exact(&mut self, count: usize) -> (out: Option<Vec<u8>>)
        ensures
            final(self).data@ == old(self).data@,
            match out {
                Some(bytes) => {
                    &&& count <= old(self).remaining().len()
                    &&& bytes@ == old(self).remaining().subrange(0, count as int)
                    &&& final(self).pos == old(self).pos + count
                    &&& final(self).remaining() == old(self).remaining().subrange(
                        count as int,
                        old(self).remaining().len() as int,
                    )
                },
                None => {
                    &&& count > old(self).remaining().len()
                    &&& final(self).remaining().len() == 0
                },
            },
    {
        let avail = self.available();
        if count > avail {
            if self.pos < self.data.len() as u64 {
                self.pos = self.data.len() as u64;
            }
            return None;
        }
        let out = self.take(count);
        Some(out)
    }

    /// Reads up to `count` bytes: all of them where that many are left,
    /// else what is left.
    pub fn read_up_to(&mut self, count: usize) -> (out: Vec<u8>)
        ensures
            final(self).data@ == old(self).data@,
            count <= old(self).remaining().len() ==> out@ == old(self).remaining().subrange(
                0,
                count as int,
            ),
            count > old(self).remaining().len() ==> out@ == old(self).remaining(),
            final(self).pos == old(self).pos + out@.len(),
            final(self).remaining() == old(self).remaining().subrange(
                out@.len() as int,
                old(self).remaining().len() as int,
            ),
    {
        let avail = self.available();
        if count > avail {
            let out = self.take(avail);
            out
        } else {
            self.take(count)
        }
    }

    /// Copies `count` bytes out from the read position and moves on.
    fn take(&mut self, count: usize) -> (out: Vec<u8>)
        requires
            count <= old(self).remaining().len(),
        ensures
            final(self).data@ == old(self).data@,
            out@ == old(self).remaining().subrange(0, count as int),
            final(self).pos == old(self).pos + count,
            final(self).remaining() == old(self).remaining().subrange(
                count as int,
                old(self).remaining().len() as int,
            ),
    {
        let mut out: Vec<u8> = Vec::new();
        if count == 0 {
            assert(self.remaining().subrange(0, self.remaining().len() as int)
                == self.remaining());
            return out;
        }
        let len = self.data.len();
        assert(self.pos + count <= len);
        let start: usize = self.pos as usize;
        let mut i: usize = 0;
        while i < count
            invariant
                start == self.pos,
                start + count <= self.data@.len(),
                self.data@.len() <= usize::MAX,
                i <= count,
                out@ == self.data@.subrange(start as int, start + i),
            decreases count - i,
        {
            out.push(self.data[start + i]);
            i += 1;
        }
        self.pos = (start + count) as u64;
        assert(out@ == old(self).remaining().subrange(0, count as int));
        assert(self.remaining() == old(self).remaining().subrange(
            count as int,
            old(self).remaining().len() as int,
        ));
        out
    }
}

} // verus!
