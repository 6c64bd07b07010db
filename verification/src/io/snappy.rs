//! Snappy frame compression of a payload, followed by the length of the
//! compressed bytes.

use crate::io::counter::Counter;
use crate::io::endian::{le_bytes, u64_to_le};
use snap::read::FrameDecoder;
use snap::write::FrameEncoder;
use std::io::{Cursor, Read, Write};
use vstd::prelude::*;

verus! {

/// The bytes that `snap::write::FrameEncoder` produces for `data`, written
/// to it in one piece and flushed once; `None` where it reports an error.
pub uninterp spec fn snappy_frame(data: Seq<u8>) -> Option<Seq<u8>>;

/// What `snap::read::FrameDecoder` yields when at most `limit` bytes are
/// read from it over `data`: the decompressed bytes and how many bytes of
/// `data` it took; `None` where it reports an error.
pub uninterp spec fn snappy_unframe(data: Seq<u8>, limit: u64) -> Option<(Seq<u8>, usize)>;

/// Runs `snap::write::FrameEncoder` over an empty vector: `write_all` with
/// `data`, then `into_inner`, which flushes. The result is a function of
/// `data` alone: the encoder cuts its input into chunks of 65536 bytes and
/// compresses each by itself.
#[verifier::external_body]
pub(crate) fn frame_encode(data: &[u8]) -> (r: Option<Vec<u8>>)
    ensures
        match r {
            Some(out) => snappy_frame(data@) == Some(out@),
            None => snappy_frame(data@) is None,
        },
{
    let mut encoder = FrameEncoder::new(Vec::new());
    match encoder.write_all(data) {
        Ok(()) => encoder.into_inner().ok(),
        Err(_) => None,
    }
}

/// Runs `snap::read::FrameDecoder` over a cursor on `data` and reads from it
/// until `limit` bytes have come out or the decoder ends. Also returns the
/// cursor's position afterwards: the decoder takes whole chunks from it,
/// and only when it needs more bytes to hand out.
#[verifier::external_body]
pub(crate) fn frame_decode(data: &[u8], limit: u64) -> (r: Option<(Vec<u8>, usize)>)
    ensures
        match r {
            Some((out, used)) => snappy_unframe(data@, limit) == Some((out@, used)),
            None => snappy_unframe(data@, limit) is None,
        },
{
    let mut cursor = Cursor::new(data);
    let mut out = Vec::new();
    match FrameDecoder::new(&mut cursor).take(limit).read_to_end(&mut out) {
        Ok(_) => Some((out, cursor.position() as usize)),
        Err(_) => None,
    }
}

/// A compressed payload as it stands in a version 2 block: the Snappy frame
/// of `payload`, then the number of bytes of that frame in eight bytes,
/// little-endian. The eight bytes do not count themselves.
pub open spec fn compressed_payload(payload: Seq<u8>) -> Option<Seq<u8>> {
    match snappy_frame(payload) {
        Some(frame) => Some(frame + le_bytes(frame.len(), 8)),
        None => None,
    }
}

/// Collects a payload and, when it is complete, appends it to a sink in
/// compressed form together with the compressed length.
pub struct SnapCountWriter {
    handle: Vec<u8>,
    pending: Vec<u8>,
}

impl SnapCountWriter {
    /// What the sink held when the writer was made.
    pub closed spec fn sink(&self) -> Seq<u8> {
        self.handle@
    }

    /// The payload written so far.
    pub closed spec fn written(&self) -> Seq<u8> {
        self.pending@
    }

    /// A writer that will append to `handle`.
    pub fn new(handle: Vec<u8>) -> (w: Self)
        ensures
            w.sink() == handle@,
            w.written() == Seq::<u8>::empty(),
    {
        SnapCountWriter { handle, pending: Vec::new() }
    }

    /// Adds `buf` to the payload.
    pub fn write_all(&mut self, buf: &[u8])
        ensures
            final(self).sink() == old(self).sink(),
            final(self).written() == old(self).written() + buf@,
    {
        self.pending.extend_from_slice(buf);
    }

    /// Compresses the payload, appends the frame to the sink and, after it,
    /// the number of bytes of the frame. Returns the sink, or `None` where
    /// the codec fails.
    pub fn finalize(self) -> (r: Option<Vec<u8>>)
        ensures
            match r {
                Some(out) => compressed_payload(self.written()) is Some && out@ == self.sink()
                    + compressed_payload(self.written()).unwrap(),
                None => compressed_payload(self.written()) is None,
            },
    {
        let frame = match frame_encode(self.pending.as_slice()) {
            Some(frame) => frame,
            None => {
                return None;
            },
        };
        let frame_len = frame.len();
        let mut counter = Counter::new(self.handle);
        counter.write_all(frame.as_slice());
        let count = counter.count() as u64;
        assert(count == frame_len);
        let mut handle = counter.into_inner();
        let trailer = u64_to_le(count);
        handle.extend_from_slice(trailer.as_slice());
        assert(handle@ =~= self.sink() + (frame@ + le_bytes(frame@.len(), 8)));
        Some(handle)
    }
}

/// Compresses `payload` as a version 2 block holds it.
pub fn compress(payload: &[u8]) -> (r: Option<Vec<u8>>)
    ensures
        match r {
            Some(out) => compressed_payload(payload@) == Some(out@),
            None => compressed_payload(payload@) is None,
        },
{
    let mut writer = SnapCountWriter::new(Vec::new());
    writer.write_all(payload);
    assert(writer.written() =~= payload@);
    let r = writer.finalize();
    assert(compressed_payload(payload@) is Some ==> Seq::<u8>::empty() + compressed_payload(
        payload@,
    ).unwrap() =~= compressed_payload(payload@).unwrap());
    r
}

} // verus!
