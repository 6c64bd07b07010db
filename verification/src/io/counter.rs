//! A sink that counts what has been written to it.

use vstd::prelude::*;

verus! {

/// Wraps a sink and counts the bytes that were written to it. The count
/// stops at the largest machine word.
pub struct Counter<W> {
    inner: W,
    count: usize,
}

/// `a + b`, held at the largest machine word.
pub open spec fn saturating_sum(a: usize, b: nat) -> usize {
    if a + b > usize::MAX {
        usize::MAX
    } else {
        (a + b) as usize
    }
}

impl<W> Counter<W> {
    /// The sink that is wrapped.
    pub closed spec fn sink(&self) -> W {
        self.inner
    }

    /// The number of bytes counted so far.
    pub closed spec fn counted(&self) -> usize {
        self.count
    }

    /// Wraps `inner`, with nothing counted yet.
    pub fn new(inner: W) -> (c: Self)
        ensures
            c.sink() == inner,
            c.counted() == 0,
    {
        Self { inner, count: 0 }
    }

    /// The number of bytes written so far.
    pub fn count(&self) -> (n: usize)
        ensures
            n == self.counted(),
    {
        self.count
    }

    /// Gives the sink back.
    pub fn into_inner(self) -> (inner: W)
        ensures
            inner == self.sink(),
    {
        self.inner
    }

    /// Counts `written` more bytes, for a caller that wrote them to the sink
    /// by its own means.
    pub fn record(&mut self, written: usize)
        ensures
            final(self).sink() == old(self).sink(),
            final(self).counted() == saturating_sum(old(self).counted(), written as nat),
    {
        self.count = self.count.saturating_add(written);
    }
}

impl Counter<Vec<u8>> {
    /// Appends `buf` to the sink and counts its bytes. Returns how many
    /// bytes were written, which is all of them.
    pub fn write(&mut self, buf: &[u8]) -> (written: usize)
        ensures
            written == buf@.len(),
            final(self).sink()@ == old(self).sink()@ + buf@,
            final(self).counted() == saturating_sum(old(self).counted(), buf@.len()),
    {
        self.inner.extend_from_slice(buf);
        self.count = self.count.saturating_add(buf.len());
        buf.len()
    }

    /// Appends all of `buf` to the sink and counts its bytes.
    pub fn write_all(&mut self, buf: &[u8])
        ensures
            final(self).sink()@ == old(self).sink()@ + buf@,
            final(self).counted() == saturating_sum(old(self).counted(), buf@.len()),
    {
        let _ = self.write(buf);
    }
}

} // verus!
