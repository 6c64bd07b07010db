//! How far an upload has come.

use vstd::prelude::*;

verus! {

/// The number of bytes sent, and the number of bytes that the upload is
/// taken to have.
#[derive(Debug, Clone, Copy, PartialEq, Eq, Structural)]
pub struct Status {
    pub total: Option<u64>,
    pub position: u64,
    pub length: u64,
}

/// `position` after `n` more bytes, held at the largest number of 64 bits.
pub open spec fn advanced(position: u64, n: usize) -> u64 {
    if position + n > u64::MAX {
        u64::MAX
    } else {
        (position + n) as u64
    }
}

impl Status {
    /// The status of an upload of which nothing is sent. Where the total is
    /// not known, the upload is taken to have no bytes yet.
    pub fn new(total: Option<u64>) -> (status: Self)
        ensures
            status.total == total,
            status.position == 0,
            status.length == match total {
                Some(size) => size,
                None => 0,
            },
    {
        let length = match total {
            Some(size) => size,
            None => 0,
        };
        Status { total, position: 0, length }
    }

    /// Counts `n` more bytes as sent. Where the total is not known, the
    /// upload is taken to have as many bytes as are sent.
    pub fn inc(&mut self, n: usize)
        ensures
            final(self).total == old(self).total,
            final(self).position == advanced(old(self).position, n),
            final(self).length == match old(self).total {
                Some(_) => old(self).length,
                None => advanced(old(self).position, n),
            },
    {
        let step: u64 = if n as u128 > u64::MAX as u128 {
            u64::MAX
        } else {
            n as u64
        };
        self.position = self.position.saturating_add(step);
        if self.total.is_none() {
            self.length = self.position;
        }
    }
}

} // verus!
