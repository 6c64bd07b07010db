//! The snapshot container: a sequence of blocks, each a 32-byte header
//! followed by its payload.

use crate::io::endian::{
    le_bytes, le_value, lemma_le_bytes_len, lemma_le_bytes_of_value, lemma_le_value_bound,
    lemma_le_value_of_bytes, lemma_radix_pow_values, u32_from_le, u32_to_le, u64_from_le,
    u64_to_le,
};
use crate::io::reader::{tail_from, ByteReader};
use crate::io::snappy::{compress, compressed_payload, frame_decode, snappy_unframe};
use crate::iomem::{lemma_piece, lemma_piece_count, piece_at, piece_count, pieces, split_ranges};
use crate::text::{decimal, decimal_text, texts};
use std::ops::Range;
use vstd::prelude::*;
use vstd::slice::slice_subrange;
use vstd::string::StringExecFns;

verus! {

/// Largest number of bytes that one compressed block stands for.
pub const MAX_BLOCK_SIZE: u64 = 0x1_0000_0000;

/// Size of one page of a memory device.
pub const PAGE_SIZE: usize = 0x1000;

/// Magic number of a version 1 header, `EMiL` when read as bytes.
pub const LIME_MAGIC: u32 = 0x4c69_4d45;

/// Magic number of a version 2 header, `AVML` when read as bytes.
pub const AVML_MAGIC: u32 = 0x4c4d_5641;

/// What was being done when reading, writing or seeking failed.
#[derive(Debug, Clone, Copy, PartialEq, Eq, Structural)]
pub enum Step {
    HeaderMagic,
    HeaderVersion,
    HeaderStart,
    HeaderEnd,
    HeaderPadding,
    WriteHeader,
    ReadPage,
    WritePage,
    CopyPages,
    Canonicalize,
    OpenSource,
    CreateSnapshot,
    SeekPage,
    WriteBlock,
    WriteCompressed,
    FinalizeCompressed,
    CopyCompressed,
    SeekCompressed,
}

impl Step {
    /// The step in words.
    pub open spec fn text(&self) -> Seq<char> {
        match self {
            Step::HeaderMagic => "unable to read header magic"@,
            Step::HeaderVersion => "unable to read header version"@,
            Step::HeaderStart => "unable to read header start offset"@,
            Step::HeaderEnd => "unable to read header end offset"@,
            Step::HeaderPadding => "unable to read header padding"@,
            Step::WriteHeader => "unable to write header"@,
            Step::ReadPage => "unable to read memory page"@,
            Step::WritePage => "unable to write memory page"@,
            Step::CopyPages => "unable to copy memory pages"@,
            Step::Canonicalize => "unable to canonicalize path"@,
            Step::OpenSource => "unable to open memory source"@,
            Step::CreateSnapshot => "unable to create snapshot file"@,
            Step::SeekPage => "unable to seek to page"@,
            Step::WriteBlock => "unable to write non-zero block"@,
            Step::WriteCompressed => "unable to write compressed block"@,
            Step::FinalizeCompressed => "unable to finalize compressed block"@,
            Step::CopyCompressed => "unable to copy compressed data"@,
            Step::SeekCompressed => "unable to seek past compressed length"@,
        }
    }

    /// The step in words.
    pub fn describe(&self) -> (text: &'static str)
        ensures
            text@ == self.text(),
    {
        match self {
            Step::HeaderMagic => "unable to read header magic",
            Step::HeaderVersion => "unable to read header version",
            Step::HeaderStart => "unable to read header start offset",
            Step::HeaderEnd => "unable to read header end offset",
            Step::HeaderPadding => "unable to read header padding",
            Step::WriteHeader => "unable to write header",
            Step::ReadPage => "unable to read memory page",
            Step::WritePage => "unable to write memory page",
            Step::CopyPages => "unable to copy memory pages",
            Step::Canonicalize => "unable to canonicalize path",
            Step::OpenSource => "unable to open memory source",
            Step::CreateSnapshot => "unable to create snapshot file",
            Step::SeekPage => "unable to seek to page",
            Step::WriteBlock => "unable to write non-zero block",
            Step::WriteCompressed => "unable to write compressed block",
            Step::FinalizeCompressed => "unable to finalize compressed block",
            Step::CopyCompressed => "unable to copy compressed data",
            Step::SeekCompressed => "unable to seek past compressed length",
        }
    }
}

/// Why a step failed.
#[derive(Debug, PartialEq, Eq)]
pub enum Cause {
    /// The source ended before the bytes asked for.
    UnexpectedEof,
    /// A seek would have moved past the largest position.
    InvalidSeek,
    /// The Snappy codec refused the data.
    InvalidData,
    /// The operating system refused, and said this.
    Os(String),
}

impl Cause {
    /// The cause in words.
    pub open spec fn text(&self) -> Seq<char> {
        match self {
            Cause::UnexpectedEof => "failed to fill whole buffer"@,
            Cause::InvalidSeek => "invalid seek to a negative or overflowing position"@,
            Cause::InvalidData => "invalid snappy data"@,
            Cause::Os(text) => text@,
        }
    }

    /// The cause in words.
    pub fn describe(&self) -> (text: String)
        ensures
            text@ == self.text(),
    {
        match self {
            Cause::UnexpectedEof => String::from_str("failed to fill whole buffer"),
            Cause::InvalidSeek => String::from_str(
                "invalid seek to a negative or overflowing position",
            ),
            Cause::InvalidData => String::from_str("invalid snappy data"),
            Cause::Os(text) => text.clone(),
        }
    }
}

/// Why a container could not be read or written.
#[derive(Debug, PartialEq, Eq)]
pub enum Error {
    /// Reading, writing or seeking failed.
    Io(Cause, Step),
    /// The padding of a header is not zero.
    InvalidPadding,
    /// An address or a size does not fit.
    TooLarge,
    /// The version is neither 1 nor 2.
    UnimplementedVersion,
    /// Magic number and version do not belong together.
    UnsupportedFormat,
    /// The block that stands for this range could not be written.
    WriteBlock(Range<u64>),
    /// A size does not fit the machine's word.
    IntConversion,
}

impl Error {
    /// What the failure says of itself.
    pub open spec fn message_text(&self) -> Seq<char> {
        match self {
            Error::Io(_, step) => "io error: "@ + step.text(),
            Error::InvalidPadding => "invalid padding"@,
            Error::TooLarge => "file is too large"@,
            Error::UnimplementedVersion => "unimplemented version"@,
            Error::UnsupportedFormat => "unsupported format"@,
            Error::WriteBlock(range) => "write block failed: "@ + decimal_text(
                range.start as nat,
            ) + ".."@ + decimal_text(range.end as nat),
            Error::IntConversion => "out of range integral type conversion attempted"@,
        }
    }

    /// What the failure says of itself.
    pub fn message(&self) -> (text: String)
        ensures
            text@ == self.message_text(),
    {
        match self {
            Error::Io(_, step) => {
                let mut text = String::from_str("io error: ");
                text.append(step.describe());
                text
            },
            Error::InvalidPadding => String::from_str("invalid padding"),
            Error::TooLarge => String::from_str("file is too large"),
            Error::UnimplementedVersion => String::from_str("unimplemented version"),
            Error::UnsupportedFormat => String::from_str("unsupported format"),
            Error::WriteBlock(range) => {
                let mut text = String::from_str("write block failed: ");
                text.append(decimal(range.start).as_str());
                text.append("..");
                text.append(decimal(range.end).as_str());
                text
            },
            Error::IntConversion => String::from_str(
                "out of range integral type conversion attempted",
            ),
        }
    }

    /// The failure's message and, after it, that of its cause.
    pub open spec fn chain_texts(&self) -> Seq<Seq<char>> {
        match self {
            Error::Io(cause, _) => seq![self.message_text(), cause.text()],
            _ => seq![self.message_text()],
        }
    }

    /// The failure's message and, after it, that of its cause.
    pub fn chain(&self) -> (messages: Vec<String>)
        ensures
            texts(messages@) == self.chain_texts(),
    {
        let mut messages: Vec<String> = Vec::new();
        messages.push(self.message());
        if let Error::Io(cause, _) = self {
            messages.push(cause.describe());
        }
        assert(texts(messages@) =~= self.chain_texts());
        messages
    }
}

/// The first 32 bytes of a block: which physical addresses it holds and in
/// which version of the format.
#[derive(Debug)]
pub struct Header {
    pub range: Range<u64>,
    pub version: u32,
}

impl Clone for Header {
    fn clone(&self) -> (r: Self)
        ensures
            r == *self,
    {
        Header { range: self.range.start..self.range.end, version: self.version }
    }
}

/// A stretch of a memory source and the physical range that it holds.
#[derive(PartialEq, Eq, Debug)]
pub struct Block {
    pub offset: u64,
    pub range: Range<u64>,
}

impl Clone for Block {
    fn clone(&self) -> (r: Self)
        ensures
            r == *self,
    {
        Block { offset: self.offset, range: self.range.start..self.range.end }
    }
}

/// The number of addresses in `start..end`, none where `end` is not above
/// `start`.
pub open spec fn span(range: Range<u64>) -> nat {
    if range.end >= range.start {
        (range.end - range.start) as nat
    } else {
        0
    }
}

/// The magic number that goes with a version.
pub open spec fn magic_for(version: u32) -> u32 {
    if version == 1 {
        LIME_MAGIC
    } else {
        AVML_MAGIC
    }
}

/// The last address of a range as the header stores it.
pub open spec fn last_address(range: Range<u64>) -> nat {
    if range.end >= 1 {
        (range.end - 1) as nat
    } else {
        0
    }
}

/// The 32 bytes of a header: magic, version, first address, last address
/// and eight zero bytes, each little-endian.
pub open spec fn header_bytes(range: Range<u64>, version: u32) -> Seq<u8> {
    le_bytes(magic_for(version) as nat, 4) + le_bytes(version as nat, 4) + le_bytes(
        range.start as nat,
        8,
    ) + le_bytes(last_address(range), 8) + le_bytes(0, 8)
}

/// What 32 bytes say when read as a header.
pub open spec fn parse_header(bytes: Seq<u8>) -> Result<Header, Error> {
    let magic = le_value(bytes.subrange(0, 4));
    let version = le_value(bytes.subrange(4, 8));
    let start = le_value(bytes.subrange(8, 16));
    let last = le_value(bytes.subrange(16, 24));
    let padding = le_value(bytes.subrange(24, 32));
    if last + 1 > u64::MAX {
        Err(Error::TooLarge)
    } else if padding != 0 {
        Err(Error::InvalidPadding)
    } else if !(magic == LIME_MAGIC && version == 1 || magic == AVML_MAGIC && version == 2) {
        Err(Error::UnsupportedFormat)
    } else {
        Ok(Header { range: (start as u64)..((last + 1) as u64), version: version as u32 })
    }
}

/// Copies `src` over the bytes of `dst` from index `at` on.
fn place(dst: &mut [u8; 32], at: usize, src: &Vec<u8>)
    requires
        at + src@.len() <= 32,
    ensures
        final(dst)@ == old(dst)@.subrange(0, at as int) + src@ + old(dst)@.subrange(
            at + src@.len(),
            32,
        ),
{
    let mut i: usize = 0;
    while i < src.len()
        invariant
            at + src@.len() <= 32,
            i <= src@.len(),
            dst@ == old(dst)@.subrange(0, at as int) + src@.subrange(0, i as int) + old(dst)@.subrange(at + i, 32),
        decreases src@.len() - i,
    {
        dst[at + i] = src[i];
        i += 1;
    }
}

/// What reading a header from `avail` yields: the bytes are taken field by
/// field, and the first field that is cut short names the failure.
pub open spec fn read_header(avail: Seq<u8>) -> Result<Header, Error> {
    if avail.len() < 4 {
        Err(Error::Io(Cause::UnexpectedEof, Step::HeaderMagic))
    } else if avail.len() < 8 {
        Err(Error::Io(Cause::UnexpectedEof, Step::HeaderVersion))
    } else if avail.len() < 16 {
        Err(Error::Io(Cause::UnexpectedEof, Step::HeaderStart))
    } else if avail.len() < 24 {
        Err(Error::Io(Cause::UnexpectedEof, Step::HeaderEnd))
    } else if le_value(avail.subrange(16, 24)) + 1 > u64::MAX {
        Err(Error::TooLarge)
    } else if avail.len() < 32 {
        Err(Error::Io(Cause::UnexpectedEof, Step::HeaderPadding))
    } else {
        parse_header(avail.subrange(0, 32))
    }
}

impl Header {
    /// Whether `version` is one that this library writes.
    pub open spec fn known_version(&self) -> bool {
        self.version == 1 || self.version == 2
    }

    /// The header as it stands in a file.
    pub fn encode(&self) -> (r: Result<[u8; 32], Error>)
        ensures
            match r {
                Ok(bytes) => self.known_version() && bytes@ == header_bytes(
                    self.range,
                    self.version,
                ),
                Err(e) => !self.known_version() && e == Error::UnimplementedVersion,
            },
    {
        let magic = if self.version == 1 {
            LIME_MAGIC
        } else if self.version == 2 {
            AVML_MAGIC
        } else {
            return Err(Error::UnimplementedVersion);
        };
        let mut bytes = [0u8; 32];
        let last = self.range.end.saturating_sub(1);
        proof {
            lemma_le_bytes_len(magic as nat, 4);
            lemma_le_bytes_len(self.version as nat, 4);
            lemma_le_bytes_len(self.range.start as nat, 8);
            lemma_le_bytes_len(last as nat, 8);
            lemma_le_bytes_len(0, 8);
        }
        place(&mut bytes, 0, &u32_to_le(magic));
        place(&mut bytes, 4, &u32_to_le(self.version));
        place(&mut bytes, 8, &u64_to_le(self.range.start));
        place(&mut bytes, 16, &u64_to_le(last));
        place(&mut bytes, 24, &u64_to_le(0));
        assert(bytes@ =~= header_bytes(self.range, self.version));
        Ok(bytes)
    }

    /// Reads the 32 bytes of a header.
    pub fn decode(bytes: &[u8; 32]) -> (r: Result<Header, Error>)
        ensures
            r == parse_header(bytes@),
    {
        let buf = bytes.as_slice();
        let magic = u32_from_le(slice_subrange(buf, 0, 4));
        let version = u32_from_le(slice_subrange(buf, 4, 8));
        let start = u64_from_le(slice_subrange(buf, 8, 16));
        let last = u64_from_le(slice_subrange(buf, 16, 24));
        let padding = u64_from_le(slice_subrange(buf, 24, 32));
        proof {
            assert(bytes@.subrange(0, 4).subrange(0, 4) == bytes@.subrange(0, 4));
            assert(bytes@.subrange(4, 8).subrange(0, 4) == bytes@.subrange(4, 8));
            assert(bytes@.subrange(8, 16).subrange(0, 8) == bytes@.subrange(8, 16));
            assert(bytes@.subrange(16, 24).subrange(0, 8) == bytes@.subrange(16, 24));
            assert(bytes@.subrange(24, 32).subrange(0, 8) == bytes@.subrange(24, 32));
        }
        let end = match last.checked_add(1) {
            Some(end) => end,
            None => {
                return Err(Error::TooLarge);
            },
        };
        if padding != 0 {
            return Err(Error::InvalidPadding);
        }
        if !(magic == LIME_MAGIC && version == 1 || magic == AVML_MAGIC && version == 2) {
            return Err(Error::UnsupportedFormat);
        }
        Ok(Header { range: start..end, version })
    }

    /// Reads a header from `src`, field by field.
    pub fn read(src: &mut ByteReader) -> (r: Result<Header, Error>)
        ensures
            r == read_header(old(src).remaining()),
            final(src).data@ == old(src).data@,
            r is Ok ==> final(src).pos == old(src).pos + 32 && final(src).remaining() == old(src).remaining().subrange(32, old(src).remaining().len() as int),
    {
        let ghost avail = src.remaining();
        let magic = match src.read_exact(4) {
            Some(b) => u32_from_le(b.as_slice()),
            None => {
                return Err(Error::Io(Cause::UnexpectedEof, Step::HeaderMagic));
            },
        };
        let version = match src.read_exact(4) {
            Some(b) => u32_from_le(b.as_slice()),
            None => {
                return Err(Error::Io(Cause::UnexpectedEof, Step::HeaderVersion));
            },
        };
        let start = match src.read_exact(8) {
            Some(b) => u64_from_le(b.as_slice()),
            None => {
                return Err(Error::Io(Cause::UnexpectedEof, Step::HeaderStart));
            },
        };
        let last = match src.read_exact(8) {
            Some(b) => u64_from_le(b.as_slice()),
            None => {
                return Err(Error::Io(Cause::UnexpectedEof, Step::HeaderEnd));
            },
        };
        proof {
            assert(avail.subrange(0, 4).subrange(0, 4) == avail.subrange(0, 4));
            assert(avail.subrange(4, avail.len() as int).subrange(0, 4).subrange(0, 4)
                == avail.subrange(4, 8));
            assert(avail.subrange(4, avail.len() as int).subrange(4, avail.len() - 4)
                == avail.subrange(8, avail.len() as int));
            assert(avail.subrange(8, avail.len() as int).subrange(0, 8).subrange(0, 8)
                == avail.subrange(8, 16));
            assert(avail.subrange(8, avail.len() as int).subrange(8, avail.len() - 8)
                == avail.subrange(16, avail.len() as int));
            assert(avail.subrange(16, avail.len() as int).subrange(0, 8).subrange(0, 8)
                == avail.subrange(16, 24));
            assert(avail.subrange(16, avail.len() as int).subrange(8, avail.len() - 16)
                == avail.subrange(24, avail.len() as int));
        }
        let end = match last.checked_add(1) {
            Some(end) => end,
            None => {
                return Err(Error::TooLarge);
            },
        };
        let padding = match src.read_exact(8) {
            Some(b) => u64_from_le(b.as_slice()),
            None => {
                return Err(Error::Io(Cause::UnexpectedEof, Step::HeaderPadding));
            },
        };
        proof {
            assert(avail.subrange(24, avail.len() as int).subrange(0, 8).subrange(0, 8)
                == avail.subrange(24, 32));
            assert(avail.subrange(24, avail.len() as int).subrange(8, avail.len() - 24)
                == avail.subrange(32, avail.len() as int));
            let head = avail.subrange(0, 32);
            assert(head.subrange(0, 4) == avail.subrange(0, 4));
            assert(head.subrange(4, 8) == avail.subrange(4, 8));
            assert(head.subrange(8, 16) == avail.subrange(8, 16));
            assert(head.subrange(16, 24) == avail.subrange(16, 24));
            assert(head.subrange(24, 32) == avail.subrange(24, 32));
        }
        if padding != 0 {
            return Err(Error::InvalidPadding);
        }
        if !(magic == LIME_MAGIC && version == 1 || magic == AVML_MAGIC && version == 2) {
            return Err(Error::UnsupportedFormat);
        }
        Ok(Header { range: start..end, version })
    }

    /// Appends the encoded header to `dst`.
    pub fn write(&self, dst: &mut Vec<u8>) -> (r: Result<(), Error>)
        ensures
            match r {
                Ok(()) => self.known_version() && final(dst)@ == old(dst)@ + header_bytes(
                    self.range,
                    self.version,
                ),
                Err(e) => !self.known_version() && e == Error::UnimplementedVersion && final(dst)@ == old(dst)@,
            },
    {
        let bytes = self.encode()?;
        dst.extend_from_slice(bytes.as_slice());
        Ok(())
    }

    /// The number of bytes that the range stands for.
    pub fn size(&self) -> (r: Result<usize, Error>)
        ensures
            match r {
                Ok(n) => n == span(self.range),
                Err(e) => span(self.range) > usize::MAX && e == Error::IntConversion,
            },
    {
        range_usize(&self.range)
    }
}

/// The number of addresses in `value`, none where its end is not above its
/// start.
pub fn range_len(value: &Range<u64>) -> (n: u64)
    ensures
        n == span(*value),
{
    value.end.saturating_sub(value.start)
}

/// The number of addresses in `value` as a machine word.
pub fn range_usize(value: &Range<u64>) -> (r: Result<usize, Error>)
    ensures
        match r {
            Ok(n) => n == span(*value),
            Err(e) => span(*value) > usize::MAX && e == Error::IntConversion,
        },
{
    let n = value.end.saturating_sub(value.start);
    if n > usize::MAX as u64 {
        Err(Error::IntConversion)
    } else {
        Ok(n as usize)
    }
}

/// A header with version 1 or 2 and a range that ends above address 0 is
/// read back from its own encoding unchanged.
pub proof fn lemma_header_round_trip(h: Header)
    requires
        h.known_version(),
        h.range.end >= 1,
    ensures
        parse_header(header_bytes(h.range, h.version)) == Ok::<Header, Error>(h),
        read_header(header_bytes(h.range, h.version)) == Ok::<Header, Error>(h),
{
    let magic = le_bytes(magic_for(h.version) as nat, 4);
    let version = le_bytes(h.version as nat, 4);
    let start = le_bytes(h.range.start as nat, 8);
    let last = le_bytes(last_address(h.range), 8);
    let padding = le_bytes(0, 8);
    let bytes = header_bytes(h.range, h.version);
    lemma_le_bytes_len(magic_for(h.version) as nat, 4);
    lemma_le_bytes_len(h.version as nat, 4);
    lemma_le_bytes_len(h.range.start as nat, 8);
    lemma_le_bytes_len(last_address(h.range), 8);
    lemma_le_bytes_len(0, 8);
    lemma_radix_pow_values();
    lemma_le_value_of_bytes(magic_for(h.version) as nat, 4);
    lemma_le_value_of_bytes(h.version as nat, 4);
    lemma_le_value_of_bytes(h.range.start as nat, 8);
    lemma_le_value_of_bytes(last_address(h.range), 8);
    lemma_le_value_of_bytes(0, 8);
    assert(bytes.subrange(0, 4) =~= magic);
    assert(bytes.subrange(4, 8) =~= version);
    assert(bytes.subrange(8, 16) =~= start);
    assert(bytes.subrange(16, 24) =~= last);
    assert(bytes.subrange(24, 32) =~= padding);
    assert(bytes.subrange(0, 32) =~= bytes);
}

/// Whatever 32 bytes are read as a header, encoding that header gives the
/// same 32 bytes back.
pub proof fn lemma_header_bytes_of_parsed(bytes: Seq<u8>)
    requires
        bytes.len() == 32,
        parse_header(bytes) is Ok,
    ensures
        header_bytes(parse_header(bytes).unwrap().range, parse_header(bytes).unwrap().version)
            == bytes,
{
    let h = parse_header(bytes).unwrap();
    lemma_radix_pow_values();
    lemma_le_value_bound(bytes.subrange(0, 4));
    lemma_le_value_bound(bytes.subrange(4, 8));
    lemma_le_value_bound(bytes.subrange(8, 16));
    lemma_le_value_bound(bytes.subrange(16, 24));
    lemma_le_bytes_of_value(bytes.subrange(0, 4));
    lemma_le_bytes_of_value(bytes.subrange(4, 8));
    lemma_le_bytes_of_value(bytes.subrange(8, 16));
    lemma_le_bytes_of_value(bytes.subrange(16, 24));
    lemma_le_bytes_of_value(bytes.subrange(24, 32));
    assert(header_bytes(h.range, h.version) =~= bytes);
}

/// Whether every byte is zero.
pub open spec fn all_zero(bytes: Seq<u8>) -> bool {
    forall|i: int| 0 <= i < bytes.len() ==> bytes[i] == 0
}

/// `count` zero bytes.
pub open spec fn zeros(count: nat) -> Seq<u8> {
    Seq::new(count, |i: int| 0u8)
}

/// The bytes that a copy of `size` bytes takes from `avail`: the first
/// `size`, or all of them where there are fewer.
pub open spec fn copied(avail: Seq<u8>, size: nat) -> Seq<u8> {
    if size <= avail.len() {
        avail.subrange(0, size as int)
    } else {
        avail
    }
}

/// The largest multiple of the page size that is not above `count`.
pub open spec fn whole_pages(count: nat) -> nat {
    (count / (PAGE_SIZE as nat)) * (PAGE_SIZE as nat)
}

/// Whether every byte of `buf` is zero.
pub fn is_zero(buf: &[u8]) -> (zero: bool)
    ensures
        zero == all_zero(buf@),
{
    let mut i: usize = 0;
    while i < buf.len()
        invariant
            i <= buf@.len(),
            forall|j: int| 0 <= j < i ==> buf@[j] == 0,
        decreases buf@.len() - i,
    {
        if buf[i] != 0 {
            return false;
        }
        i += 1;
    }
    true
}

/// Copies `size` bytes from `src` to the end of `dst`.
///
/// With `align_src` the bytes are read one page at a time, each page is
/// written before the next is read, and a source that ends early is an
/// error. Without it the copy takes what the source has, up to `size`
/// bytes, and a source that ends early is no error.
pub fn copy(size: usize, align_src: bool, src: &mut ByteReader, dst: &mut Vec<u8>) -> (r: Result<
    (),
    Error,
>)
    ensures
        final(src).data@ == old(src).data@,
        match r {
            Ok(()) => {
                &&& align_src ==> size <= old(src).remaining().len()
                &&& final(dst)@ == old(dst)@ + copied(old(src).remaining(), size as nat)
                &&& final(src).pos == old(src).pos + copied(
                    old(src).remaining(),
                    size as nat,
                ).len()
            },
            Err(e) => {
                &&& align_src
                &&& size > old(src).remaining().len()
                &&& e == Error::Io(Cause::UnexpectedEof, Step::ReadPage)
                &&& final(dst)@ == old(dst)@ + old(src).remaining().subrange(
                    0,
                    whole_pages(old(src).remaining().len()) as int,
                )
            },
        },
{
    let ghost avail = src.remaining();
    let ghost before = dst@;
    if align_src {
        let mut left: usize = size;
        let ghost mut done: nat = 0;
        while left >= PAGE_SIZE
            invariant
                align_src,
                avail == old(src).remaining(),
                before == old(dst)@,
                src.data@ == old(src).data@,
                done + left == size,
                done % (PAGE_SIZE as nat) == 0,
                done <= avail.len(),
                src.remaining() == avail.skip(done as int),
                src.pos == old(src).pos + done,
                dst@ == before + avail.subrange(0, done as int),
            decreases left,
        {
            match src.read_exact(PAGE_SIZE) {
                Some(page) => {
                    dst.extend_from_slice(page.as_slice());
                    proof {
                        assert(avail.skip(done as int).subrange(0, PAGE_SIZE as int)
                            == avail.subrange(done as int, done + PAGE_SIZE));
                        assert(avail.subrange(0, done as int) + avail.subrange(
                            done as int,
                            done + PAGE_SIZE,
                        ) == avail.subrange(0, done + PAGE_SIZE));
                        assert(avail.skip(done as int).subrange(
                            PAGE_SIZE as int,
                            avail.skip(done as int).len() as int,
                        ) == avail.skip(done + PAGE_SIZE));
                        done = done + PAGE_SIZE as nat;
                    }
                    left = left - PAGE_SIZE;
                },
                None => {
                    proof {
                        lemma_whole_pages(avail.len(), done);
                    }
                    return Err(Error::Io(Cause::UnexpectedEof, Step::ReadPage));
                },
            }
        }
        if left > 0 {
            match src.read_exact(left) {
                Some(page) => {
                    dst.extend_from_slice(page.as_slice());
                    proof {
                        assert(avail.skip(done as int).subrange(0, left as int) == avail.subrange(
                            done as int,
                            done + left,
                        ));
                        assert(avail.subrange(0, done as int) + avail.subrange(
                            done as int,
                            done + left,
                        ) == avail.subrange(0, size as int));
                    }
                },
                None => {
                    proof {
                        lemma_whole_pages(avail.len(), done);
                    }
                    return Err(Error::Io(Cause::UnexpectedEof, Step::ReadPage));
                },
            }
        }
        Ok(())
    } else {
        let bytes = src.read_up_to(size);
        dst.extend_from_slice(bytes.as_slice());
        Ok(())
    }
}

/// Of `len` bytes, `done` is the number that lies in whole pages, where
/// `done` is a multiple of the page size and less than a page is left.
proof fn lemma_whole_pages(len: nat, done: nat)
    requires
        done % (PAGE_SIZE as nat) == 0,
        done <= len < done + PAGE_SIZE,
    ensures
        whole_pages(len) == done,
{
    let p = PAGE_SIZE as nat;
    assert(len / p == done / p && (done / p) * p == done) by (nonlinear_arith)
        requires
            done % p == 0,
            done <= len < done + p,
            p > 0,
    ;
}

/// What copying a range appends to the sink and how many bytes of the
/// source it takes.
pub struct Emitted {
    pub out: Seq<u8>,
    pub taken: nat,
}

/// The payload of a piece of `size` bytes that is read whole before it is
/// written: the next `size` bytes of the source. A source that ends early is
/// filled up with zero bytes, unless it is read page by page, where nothing
/// comes out.
pub open spec fn piece_payload(align_src: bool, avail: Seq<u8>, size: nat) -> Option<Seq<u8>> {
    if size <= avail.len() {
        Some(avail.subrange(0, size as int))
    } else if align_src {
        None
    } else {
        Some(avail + zeros((size - avail.len()) as nat))
    }
}

/// One block as it stands in the container: the header, then the payload as
/// it is in version 1, or its compressed form in version 2. `None` where the
/// codec fails.
pub open spec fn block_bytes(version: u32, range: Range<u64>, payload: Seq<u8>) -> Option<
    Seq<u8>,
> {
    if version == 1 {
        Some(header_bytes(range, version) + payload)
    } else {
        match compressed_payload(payload) {
            Some(body) => Some(header_bytes(range, version) + body),
            None => None,
        }
    }
}

/// Copying a piece that is read whole first: a piece of zero bytes leaves
/// nothing in the container, any other becomes one block.
#[verifier::opaque]
pub open spec fn small_piece(version: u32, align_src: bool, avail: Seq<u8>, range: Range<u64>)
    -> Result<Emitted, Error> {
    if version != 1 && version != 2 {
        Err(Error::UnimplementedVersion)
    } else if span(range) > usize::MAX {
        Err(Error::IntConversion)
    } else {
        match piece_payload(align_src, avail, span(range)) {
            None => Err(Error::Io(Cause::UnexpectedEof, Step::ReadPage)),
            Some(payload) => {
                let taken = copied(avail, span(range)).len();
                if all_zero(payload) {
                    Ok(Emitted { out: Seq::empty(), taken })
                } else {
                    match block_bytes(version, range, payload) {
                        Some(out) => Ok(Emitted { out, taken }),
                        None => Err(Error::Io(Cause::InvalidData, Step::FinalizeCompressed)),
                    }
                }
            },
        }
    }
}

/// Copying a piece that is too large to be read whole: it becomes one block
/// whatever it holds, and its payload is what the source had.
#[verifier::opaque]
pub open spec fn large_piece(version: u32, align_src: bool, avail: Seq<u8>, range: Range<u64>)
    -> Result<Emitted, Error> {
    if version != 1 && version != 2 {
        Err(Error::UnimplementedVersion)
    } else if span(range) > usize::MAX {
        Err(Error::IntConversion)
    } else if align_src && span(range) > avail.len() {
        Err(Error::Io(Cause::UnexpectedEof, Step::ReadPage))
    } else {
        let payload = copied(avail, span(range));
        match block_bytes(version, range, payload) {
            Some(out) => Ok(Emitted { out, taken: payload.len() }),
            None => Err(Error::Io(Cause::InvalidData, Step::FinalizeCompressed)),
        }
    }
}

/// Copying a piece takes no more bytes than the source has.
pub proof fn lemma_piece_taken(version: u32, align_src: bool, avail: Seq<u8>, range: Range<u64>)
    ensures
        small_piece(version, align_src, avail, range) matches Ok(e) ==> e.taken <= avail.len(),
        large_piece(version, align_src, avail, range) matches Ok(e) ==> e.taken <= avail.len(),
{
    reveal(small_piece);
    reveal(large_piece);
}

/// Copying one piece, by its size.
pub open spec fn piece(version: u32, align_src: bool, avail: Seq<u8>, range: Range<u64>)
    -> Result<Emitted, Error> {
    if span(range) > MAX_BLOCK_SIZE {
        large_piece(version, align_src, avail, range)
    } else {
        small_piece(version, align_src, avail, range)
    }
}

/// Copying a range. In version 2 it is cut into pieces of `MAX_BLOCK_SIZE`
/// bytes and a shorter last one, which are copied one after the other; in
/// version 1 it is one piece. An empty range copies nothing.
pub open spec fn copied_block(version: u32, align_src: bool, avail: Seq<u8>, range: Range<u64>)
    -> Result<Emitted, Error>
    decreases span(range),
{
    if version == 2 && span(range) > MAX_BLOCK_SIZE {
        let cut = (range.start + MAX_BLOCK_SIZE) as u64;
        match small_piece(version, align_src, avail, range.start..cut) {
            Err(e) => Err(e),
            Ok(first) => match copied_block(
                version,
                align_src,
                avail.skip(first.taken as int),
                cut..range.end,
            ) {
                Err(e) => Err(e),
                Ok(rest) => Ok(
                    Emitted { out: first.out + rest.out, taken: first.taken + rest.taken },
                ),
            },
        }
    } else if range.end > range.start {
        piece(version, align_src, avail, range)
    } else {
        Ok(Emitted { out: Seq::empty(), taken: 0 })
    }
}

/// A piece of a range, and whether it is read whole before it is written.
#[derive(Debug, PartialEq, Eq)]
pub struct Piece {
    pub range: Range<u64>,
    pub whole: bool,
}

/// The pieces in which a range is copied: in version 2 its pieces of at
/// most `MAX_BLOCK_SIZE` bytes, each read whole; else the range itself,
/// read whole unless it is larger than that. An empty range has no piece.
pub open spec fn planned(version: u32, range: Range<u64>) -> Seq<Piece> {
    if version == 2 {
        pieces(range, MAX_BLOCK_SIZE).map_values(|r: Range<u64>| Piece { range: r, whole: true })
    } else if range.end > range.start {
        seq![Piece { range, whole: span(range) <= MAX_BLOCK_SIZE }]
    } else {
        Seq::empty()
    }
}

/// Copying pieces one after the other.
pub open spec fn copied_pieces(version: u32, align_src: bool, avail: Seq<u8>, plan: Seq<Piece>)
    -> Result<Emitted, Error>
    decreases plan.len(),
{
    if plan.len() == 0 {
        Ok(Emitted { out: Seq::empty(), taken: 0 })
    } else {
        let one = if plan[0].whole {
            small_piece(version, align_src, avail, plan[0].range)
        } else {
            large_piece(version, align_src, avail, plan[0].range)
        };
        match one {
            Err(e) => Err(e),
            Ok(first) => match copied_pieces(
                version,
                align_src,
                avail.skip(first.taken as int),
                plan.drop_first(),
            ) {
                Err(e) => Err(e),
                Ok(rest) => Ok(
                    Emitted { out: first.out + rest.out, taken: first.taken + rest.taken },
                ),
            },
        }
    }
}

/// The pieces in which `range` is copied, in their order.
pub fn copy_plan(version: u32, range: Range<u64>) -> (plan: Vec<Piece>)
    ensures
        plan@ == planned(version, range),
{
    let mut plan: Vec<Piece> = Vec::new();
    if version == 2 {
        let mut whole: Vec<Range<u64>> = Vec::new();
        whole.push(range.start..range.end);
        let cut = split_ranges(whole, MAX_BLOCK_SIZE);
        proof {
            let one = seq![range];
            assert(crate::iomem::split(one, MAX_BLOCK_SIZE) =~= pieces(range, MAX_BLOCK_SIZE)) by {
                reveal_with_fuel(crate::iomem::split, 2);
                assert(one.drop_last() =~= Seq::<Range<u64>>::empty());
            }
        }
        let mut i: usize = 0;
        while i < cut.len()
            invariant
                i <= cut@.len(),
                plan@ == cut@.take(i as int).map_values(
                    |r: Range<u64>| Piece { range: r, whole: true },
                ),
            decreases cut@.len() - i,
        {
            plan.push(Piece { range: cut[i].start..cut[i].end, whole: true });
            proof {
                let f = |r: Range<u64>| Piece { range: r, whole: true };
                assert(cut@.take(i + 1) =~= cut@.take(i as int).push(cut@[i as int]));
                assert(cut@.take(i + 1).map_values(f) =~= cut@.take(i as int).map_values(f).push(
                    f(cut@[i as int]),
                ));
            }
            i += 1;
        }
        assert(cut@.take(i as int) =~= cut@);
    } else if range.end > range.start {
        let whole = range.end - range.start <= MAX_BLOCK_SIZE;
        plan.push(Piece { range: range.start..range.end, whole });
        assert(plan@ =~= planned(version, range));
    }
    plan
}

/// The plan of a range of more than `MAX_BLOCK_SIZE` bytes in version 2 is
/// its first piece and then the plan of what is left.
proof fn lemma_plan_first(range: Range<u64>)
    requires
        span(range) > MAX_BLOCK_SIZE,
    ensures
        planned(2, range).len() > 0,
        planned(2, range)[0] == (Piece {
            range: range.start..(range.start + MAX_BLOCK_SIZE) as u64,
            whole: true,
        }),
        planned(2, range).drop_first() == planned(
            2,
            (range.start + MAX_BLOCK_SIZE) as u64..range.end,
        ),
{
    let plan = planned(2, range);
    let cut = (range.start + MAX_BLOCK_SIZE) as u64;
    let rest = cut..range.end;
    let shifted = planned(2, rest);
    lemma_piece_count(range, MAX_BLOCK_SIZE);
    lemma_piece_count(rest, MAX_BLOCK_SIZE);
    lemma_piece(range, MAX_BLOCK_SIZE, 0);
    let c = piece_count(range, MAX_BLOCK_SIZE) as int;
    let d = piece_count(rest, MAX_BLOCK_SIZE) as int;
    assert(d == c - 1) by (nonlinear_arith)
        requires
            (c - 1) * MAX_BLOCK_SIZE < span(range) <= c * MAX_BLOCK_SIZE,
            (d - 1) * MAX_BLOCK_SIZE < span(rest) <= d * MAX_BLOCK_SIZE,
            span(rest) == span(range) - MAX_BLOCK_SIZE,
            d >= 1,
            c >= 1,
    ;
    assert(plan.len() == c);
    assert(shifted.len() == d);
    assert forall|k: int| 0 <= k < d implies plan.drop_first()[k] == shifted[k] by {
        assert((k + 1) * MAX_BLOCK_SIZE == k * MAX_BLOCK_SIZE + MAX_BLOCK_SIZE)
            by (nonlinear_arith);
        assert(piece_at(range, MAX_BLOCK_SIZE, k + 1) == piece_at(rest, MAX_BLOCK_SIZE, k));
        assert(plan.drop_first()[k] == plan[k + 1]);
    }
    assert(plan.drop_first() =~= shifted);
}

/// The plan of a range that is copied in one piece.
proof fn lemma_plan_single(version: u32, range: Range<u64>)
    requires
        range.start < range.end,
        version != 2 || span(range) <= MAX_BLOCK_SIZE,
    ensures
        planned(version, range) == seq![
            Piece { range, whole: version == 2 || span(range) <= MAX_BLOCK_SIZE },
        ],
{
    if version == 2 {
        lemma_piece_count(range, MAX_BLOCK_SIZE);
        lemma_piece(range, MAX_BLOCK_SIZE, 0);
        assert(piece_count(range, MAX_BLOCK_SIZE) == 1);
        assert(planned(version, range) =~= seq![Piece { range, whole: true }]);
    }
}

/// Copying a range is copying its pieces one after the other.
pub proof fn lemma_copy_follows_plan(
    version: u32,
    align_src: bool,
    avail: Seq<u8>,
    range: Range<u64>,
)
    ensures
        copied_block(version, align_src, avail, range) == copied_pieces(
            version,
            align_src,
            avail,
            planned(version, range),
        ),
    decreases span(range),
{
    let plan = planned(version, range);
    if version == 2 && span(range) > MAX_BLOCK_SIZE {
        let cut = (range.start + MAX_BLOCK_SIZE) as u64;
        lemma_plan_first(range);
        if let Ok(first) = small_piece(version, align_src, avail, range.start..cut) {
            lemma_copy_follows_plan(
                version,
                align_src,
                avail.skip(first.taken as int),
                cut..range.end,
            );
        }
    } else if range.end > range.start {
        reveal_with_fuel(copied_pieces, 2);
        lemma_plan_single(version, range);
        assert(plan.drop_first() =~= Seq::<Piece>::empty());
        if let Ok(first) = piece(version, align_src, avail, range) {
            assert(first.out + Seq::<u8>::empty() =~= first.out);
        }
    } else {
        if version == 2 {
            lemma_piece_count(range, MAX_BLOCK_SIZE);
        }
        assert(plan =~= Seq::<Piece>::empty());
    }
}

/// Writing blocks one after the other. A block with an offset above zero is
/// read from that position of the source, a block with offset zero from
/// where the source stands. Yields what is appended to the sink and where
/// the source stands afterwards. The first block that fails ends the run,
/// and the error names its range.
pub open spec fn written_blocks(
    version: u32,
    align_src: bool,
    data: Seq<u8>,
    pos: int,
    blocks: Seq<Block>,
) -> Result<(Seq<u8>, int), Error>
    decreases blocks.len(),
{
    if blocks.len() == 0 {
        Ok((Seq::empty(), pos))
    } else {
        let block = blocks[0];
        let at = block_start(pos, block);
        match copied_block(version, align_src, tail_from(data, at), block.range) {
            Err(_) => Err(Error::WriteBlock(block.range)),
            Ok(one) => match written_blocks(
                version,
                align_src,
                data,
                at + one.taken,
                blocks.drop_first(),
            ) {
                Err(e) => Err(e),
                Ok((out, end)) => Ok((one.out + out, end)),
            },
        }
    }
}

/// Converting the block that starts `avail` to `version`. A version 1 block
/// is copied as a range is copied from a memory source. A version 2 block is
/// decompressed and written as one block, after which the source skips the
/// eight bytes of the compressed length. `pos` is where the source stands.
pub open spec fn converted_block(version: u32, avail: Seq<u8>, pos: int) -> Result<
    Emitted,
    Error,
> {
    match read_header(avail) {
        Err(e) => Err(e),
        Ok(header) => if header.version == 1 {
            match copied_block(version, false, avail.skip(32), header.range) {
                Err(e) => Err(e),
                Ok(body) => Ok(Emitted { out: body.out, taken: 32 + body.taken }),
            }
        } else if version != 1 && version != 2 {
            Err(Error::UnimplementedVersion)
        } else {
            match snappy_unframe(avail.skip(32), span(header.range) as u64) {
                None => Err(Error::Io(Cause::InvalidData, Step::CopyCompressed)),
                Some((payload, used)) => if pos + 32 + used + 8 > u64::MAX {
                    Err(Error::Io(Cause::InvalidSeek, Step::SeekCompressed))
                } else {
                    match block_bytes(version, header.range, payload) {
                        Some(out) => Ok(Emitted { out, taken: 32 + used as nat + 8 }),
                        None => Err(Error::Io(Cause::InvalidData, Step::FinalizeCompressed)),
                    }
                },
            }
        },
    }
}

/// Whether the file at this path is read one page at a time: it is, where
/// the path, with links resolved, is that of a memory device or of the
/// kernel's core file.
pub open spec fn page_aligned(path: Seq<char>) -> bool {
    path == "/dev/crash"@ || path == "/dev/mem"@ || path == "/proc/kcore"@ || path
        == "/dev/kcore"@
}

/// Whether a source must be read one page at a time. `path` is the path of
/// the source with links resolved.
pub fn is_page_aligned(path: &str) -> (aligned: bool)
    ensures
        aligned == page_aligned(path@),
{
    let path = String::from_str(path);
    path == String::from_str("/dev/crash") || path == String::from_str("/dev/mem") || path
        == String::from_str("/proc/kcore") || path == String::from_str("/dev/kcore")
}

/// A memory source, the version of the container to write, and the
/// container written so far.
pub struct Image {
    pub version: u32,
    pub align_src: bool,
    pub src: ByteReader,
    pub dst: Vec<u8>,
}

impl Image {
    /// An image that reads `src` from its start and has written nothing.
    pub fn new(version: u32, align_src: bool, src: Vec<u8>) -> (image: Image)
        ensures
            image.version == version,
            image.align_src == align_src,
            image.src.data@ == src@,
            image.src.pos == 0,
            image.dst@ == Seq::<u8>::empty(),
    {
        Image { version, align_src, src: ByteReader::new(src), dst: Vec::new() }
    }

    /// Whether `self` is `before` with `result` applied: on success the sink
    /// has grown by what was emitted and the source has moved on by what
    /// was taken; on failure the sink has lost nothing.
    pub open spec fn follows(&self, before: &Image, result: Result<Emitted, Error>) -> bool {
        &&& self.version == before.version
        &&& self.align_src == before.align_src
        &&& self.src.data@ == before.src.data@
        &&& before.dst@.is_prefix_of(self.dst@)
        &&& result matches Ok(e) ==> self.dst@ == before.dst@ + e.out && self.src.pos
            == before.src.pos + e.taken
    }

    /// Reads the header of the next block from the source.
    pub fn read_header(&mut self) -> (r: Result<Header, Error>)
        ensures
            r == read_header(old(self).src.remaining()),
            final(self).version == old(self).version,
            final(self).align_src == old(self).align_src,
            final(self).dst@ == old(self).dst@,
            final(self).src.data@ == old(self).src.data@,
            r is Ok ==> final(self).src.pos == old(self).src.pos + 32,
    {
        Header::read(&mut self.src)
    }

    /// Appends the header of a block for `range` to the sink.
    pub fn write_header(&mut self, range: Range<u64>) -> (r: Result<(), Error>)
        ensures
            final(self).version == old(self).version,
            final(self).align_src == old(self).align_src,
            final(self).src == old(self).src,
            match r {
                Ok(()) => (old(self).version == 1 || old(self).version == 2) && final(self).dst@
                    == old(self).dst@ + header_bytes(range, old(self).version),
                Err(e) => !(old(self).version == 1 || old(self).version == 2) && e
                    == Error::UnimplementedVersion && final(self).dst@ == old(self).dst@,
            },
    {
        Header { range, version: self.version }.write(&mut self.dst)
    }

    /// Reads a piece whole and writes it as one block, unless it holds
    /// nothing but zero bytes.
    fn copy_if_nonzero(&mut self, range: Range<u64>) -> (r: Result<(), Error>)
        ensures
            final(self).follows(
                old(self),
                small_piece(
                    old(self).version,
                    old(self).align_src,
                    old(self).src.remaining(),
                    range,
                ),
            ),
            match small_piece(
                old(self).version,
                old(self).align_src,
                old(self).src.remaining(),
                range,
            ) {
                Ok(_) => r is Ok,
                Err(e) => r == Err::<(), Error>(e) && final(self).dst@ == old(self).dst@,
            },
    {
        reveal(small_piece);
        let ghost avail = self.src.remaining();
        let header = Header { range: range.start..range.end, version: self.version }.encode()?;
        let size = range_usize(&range)?;
        let mut buf: Vec<u8> = Vec::new();
        copy(size, self.align_src, &mut self.src, &mut buf)?;
        assert(buf@ =~= copied(avail, size as nat));
        let mut missing: usize = size - buf.len();
        while missing > 0
            invariant
                buf@ == copied(avail, size as nat) + zeros((size - copied(avail, size as nat).len()
                    - missing) as nat),
                missing <= size - copied(avail, size as nat).len(),
            decreases missing,
        {
            buf.push(0);
            missing -= 1;
            assert(buf@ =~= copied(avail, size as nat) + zeros((size - copied(
                avail,
                size as nat,
            ).len() - missing) as nat));
        }
        assert(buf@ =~= piece_payload(self.align_src, avail, size as nat).unwrap());
        if is_zero(buf.as_slice()) {
            assert(self.dst@.is_prefix_of(self.dst@));
            assert(self.dst@ =~= self.dst@ + Seq::<u8>::empty());
            return Ok(());
        }
        let ghost before = self.dst@;
        if self.version == 1 {
            self.dst.extend_from_slice(header.as_slice());
            self.dst.extend_from_slice(buf.as_slice());
            assert(self.dst@ =~= before + (header_bytes(range, 1) + buf@));
        } else {
            let body = match compress(buf.as_slice()) {
                Some(body) => body,
                None => {
                    assert(self.dst@.is_prefix_of(self.dst@));
                    return Err(Error::Io(Cause::InvalidData, Step::FinalizeCompressed));
                },
            };
            self.dst.extend_from_slice(header.as_slice());
            self.dst.extend_from_slice(body.as_slice());
            assert(self.dst@ =~= before + (header_bytes(range, 2) + body@));
        }
        Ok(())
    }

    /// Writes the header of a block and then its payload straight from the
    /// source.
    fn copy_large_block(&mut self, range: Range<u64>) -> (r: Result<(), Error>)
        ensures
            final(self).follows(
                old(self),
                large_piece(
                    old(self).version,
                    old(self).align_src,
                    old(self).src.remaining(),
                    range,
                ),
            ),
            match large_piece(
                old(self).version,
                old(self).align_src,
                old(self).src.remaining(),
                range,
            ) {
                Ok(_) => r is Ok,
                Err(e) => r == Err::<(), Error>(e),
            },
    {
        reveal(large_piece);
        let ghost avail = self.src.remaining();
        let ghost before = self.dst@;
        assert(before.is_prefix_of(before));
        self.write_header(range.start..range.end)?;
        assert(before.is_prefix_of(self.dst@));
        let size = range_usize(&range)?;
        if self.version == 1 {
            let r = copy(size, self.align_src, &mut self.src, &mut self.dst);
            assert(before.is_prefix_of(self.dst@));
            r?;
            assert(self.dst@ =~= before + (header_bytes(range, 1) + copied(avail, size as nat)));
        } else {
            let mut payload: Vec<u8> = Vec::new();
            copy(size, self.align_src, &mut self.src, &mut payload)?;
            assert(payload@ =~= copied(avail, size as nat));
            let body = match compress(payload.as_slice()) {
                Some(body) => body,
                None => {
                    return Err(Error::Io(Cause::InvalidData, Step::FinalizeCompressed));
                },
            };
            self.dst.extend_from_slice(body.as_slice());
            assert(self.dst@ =~= before + (header_bytes(range, 2) + body@));
        }
        Ok(())
    }

    /// Copies one piece: straight from the source where it is larger than
    /// `MAX_BLOCK_SIZE`, else read whole and left out where it is all zero.
    fn copy_block_impl(&mut self, range: Range<u64>) -> (r: Result<(), Error>)
        ensures
            final(self).follows(
                old(self),
                piece(old(self).version, old(self).align_src, old(self).src.remaining(), range),
            ),
            match piece(
                old(self).version,
                old(self).align_src,
                old(self).src.remaining(),
                range,
            ) {
                Ok(_) => r is Ok,
                Err(e) => r == Err::<(), Error>(e),
            },
    {
        if range_len(&range) > MAX_BLOCK_SIZE {
            self.copy_large_block(range)
        } else {
            self.copy_if_nonzero(range)
        }
    }

    /// Copies the bytes of `range` from the source into the container.
    pub fn copy_block(&mut self, range: Range<u64>) -> (r: Result<(), Error>)
        ensures
            final(self).follows(
                old(self),
                copied_block(
                    old(self).version,
                    old(self).align_src,
                    old(self).src.remaining(),
                    range,
                ),
            ),
            match copied_block(
                old(self).version,
                old(self).align_src,
                old(self).src.remaining(),
                range,
            ) {
                Ok(_) => r is Ok,
                Err(e) => r == Err::<(), Error>(e),
            },
    {
        let ghost avail = self.src.remaining();
        let ghost before = self.dst@;
        let ghost start_pos = self.src.pos;
        let ghost mut out: Seq<u8> = Seq::empty();
        let ghost mut taken: nat = 0;
        let mut left = range.start..range.end;
        assert(before.is_prefix_of(before));
        assert(before =~= before + out);
        assert(avail.skip(0) =~= avail);
        if self.version == 2 {
            while left.end.saturating_sub(left.start) > MAX_BLOCK_SIZE
                invariant
                    self.version == 2,
                    self.version == old(self).version,
                    self.align_src == old(self).align_src,
                    self.src.data@ == old(self).src.data@,
                    avail == old(self).src.remaining(),
                    before == old(self).dst@,
                    start_pos == old(self).src.pos,
                    taken <= avail.len(),
                    self.src.remaining() == avail.skip(taken as int),
                    self.src.pos == start_pos + taken,
                    self.dst@ == before + out,
                    copied_block(2, self.align_src, avail, range) == match copied_block(
                        2,
                        self.align_src,
                        avail.skip(taken as int),
                        left,
                    ) {
                        Err(e) => Err::<Emitted, Error>(e),
                        Ok(rest) => Ok(Emitted { out: out + rest.out, taken: taken + rest.taken }),
                    },
                decreases span(left),
            {
                let cut = left.start + MAX_BLOCK_SIZE;
                let ghost here = self.src.remaining();
                let ghost step = small_piece(2, self.align_src, here, left.start..cut);
                let ghost dst_before = self.dst@;
                let r = self.copy_block_impl(left.start..cut);
                match r {
                    Err(e) => {
                        assert(before.is_prefix_of(self.dst@));
                        return Err(e);
                    },
                    Ok(()) => {},
                }
                proof {
                    let first = step.unwrap();
                    lemma_piece_taken(2, self.align_src, here, left.start..cut);
                    assert(here.skip(first.taken as int) =~= avail.skip((taken + first.taken) as int));
                    assert(self.dst@ =~= before + (out + first.out));
                    let inner = copied_block(
                        2,
                        self.align_src,
                        avail.skip((taken + first.taken) as int),
                        cut..left.end,
                    );
                    assert(copied_block(2, self.align_src, here, left) == match inner {
                        Err(e) => Err::<Emitted, Error>(e),
                        Ok(rest) => Ok(
                            Emitted { out: first.out + rest.out, taken: first.taken + rest.taken },
                        ),
                    });
                    if let Ok(rest) = inner {
                        assert(out + (first.out + rest.out) =~= (out + first.out) + rest.out);
                    }
                    out = out + first.out;
                    taken = taken + first.taken;
                }
                left = cut..left.end;
            }
        }
        if left.end > left.start {
            let ghost last = piece(self.version, self.align_src, self.src.remaining(), left);
            let r = self.copy_block_impl(left.start..left.end);
            match r {
                Err(e) => {
                    assert(before.is_prefix_of(self.dst@));
                    return Err(e);
                },
                Ok(()) => {},
            }
            proof {
                assert(self.dst@ =~= before + (out + last.unwrap().out));
            }
        } else {
            proof {
                assert(self.dst@ =~= before + (out + Seq::<u8>::empty()));
            }
        }
        Ok(())
    }

    /// Moves the source to the block's offset, unless that is zero, and
    /// copies the block's range.
    pub fn write_block(&mut self, block: &Block) -> (r: Result<(), Error>)
        ensures
            final(self).version == old(self).version,
            final(self).align_src == old(self).align_src,
            final(self).src.data@ == old(self).src.data@,
            old(self).dst@.is_prefix_of(final(self).dst@),
            match copied_block(
                old(self).version,
                old(self).align_src,
                tail_from(old(self).src.data@, block_start(old(self).src.pos as int, *block)),
                block.range,
            ) {
                Ok(one) => r is Ok && final(self).dst@ == old(self).dst@ + one.out && final(self).src.pos == block_start(old(self).src.pos as int, *block) + one.taken,
                Err(e) => r == Err::<(), Error>(e),
            },
    {
        if block.offset > 0 {
            self.src.seek(block.offset);
        }
        self.copy_block(block.range.start..block.range.end)
    }

    /// Writes the blocks in their order.
    pub fn write_blocks(&mut self, blocks: &[Block]) -> (r: Result<(), Error>)
        ensures
            final(self).version == old(self).version,
            final(self).align_src == old(self).align_src,
            final(self).src.data@ == old(self).src.data@,
            old(self).dst@.is_prefix_of(final(self).dst@),
            match written_blocks(
                old(self).version,
                old(self).align_src,
                old(self).src.data@,
                old(self).src.pos as int,
                blocks@,
            ) {
                Ok((out, end)) => r is Ok && final(self).dst@ == old(self).dst@ + out && final(self).src.pos == end,
                Err(e) => r == Err::<(), Error>(e),
            },
    {
        let ghost before = self.dst@;
        let ghost start_pos = self.src.pos as int;
        let ghost mut out: Seq<u8> = Seq::empty();
        let ghost goal = written_blocks(
            self.version,
            self.align_src,
            self.src.data@,
            start_pos,
            blocks@,
        );
        proof {
            assert(before.is_prefix_of(before));
            assert(before =~= before + out);
            assert(blocks@.skip(0) =~= blocks@);
            if let Ok((more, end)) = goal {
                assert(out + more =~= more);
            }
        }
        let mut i: usize = 0;
        while i < blocks.len()
            invariant
                i <= blocks@.len(),
                self.version == old(self).version,
                self.align_src == old(self).align_src,
                self.src.data@ == old(self).src.data@,
                before == old(self).dst@,
                self.dst@ == before + out,
                goal == written_blocks(
                    old(self).version,
                    old(self).align_src,
                    old(self).src.data@,
                    old(self).src.pos as int,
                    blocks@,
                ),
                goal == written_then(
                    out,
                    written_blocks(
                        self.version,
                        self.align_src,
                        self.src.data@,
                        self.src.pos as int,
                        blocks@.skip(i as int),
                    ),
                ),
            decreases blocks@.len() - i,
        {
            let block = &blocks[i];
            let ghost pos = self.src.pos as int;
            let ghost dst_before = self.dst@;
            proof {
                lemma_written_step(
                    out,
                    self.version,
                    self.align_src,
                    self.src.data@,
                    pos,
                    blocks@,
                    i as int,
                );
            }
            match self.write_block(block) {
                Ok(()) => {},
                Err(_) => {
                    assert(dst_before.is_prefix_of(self.dst@));
                    assert(before.is_prefix_of(self.dst@));
                    return Err(Error::WriteBlock(block.range.start..block.range.end));
                },
            }
            proof {
                let one = copied_block(
                    self.version,
                    self.align_src,
                    tail_from(self.src.data@, block_start(pos, *block)),
                    block.range,
                ).unwrap();
                assert(self.dst@ =~= before + (out + one.out));
                out = out + one.out;
            }
            i += 1;
        }
        proof {
            assert(blocks@.skip(i as int) =~= Seq::<Block>::empty());
            assert(out + Seq::<u8>::empty() =~= out);
            assert(before.is_prefix_of(self.dst@));
        }
        Ok(())
    }

    /// Reads the next block of a container from the source and writes it in
    /// this image's version.
    pub fn convert_block(&mut self) -> (r: Result<(), Error>)
        ensures
            final(self).follows(
                old(self),
                converted_block(
                    old(self).version,
                    old(self).src.remaining(),
                    old(self).src.pos as int,
                ),
            ),
            final(self).align_src == old(self).align_src,
            match converted_block(
                old(self).version,
                old(self).src.remaining(),
                old(self).src.pos as int,
            ) {
                Ok(_) => r is Ok,
                Err(e) => r == Err::<(), Error>(e),
            },
    {
        let ghost avail = self.src.remaining();
        let ghost before = self.dst@;
        assert(before.is_prefix_of(before));
        let header = self.read_header()?;
        assert(self.src.remaining() =~= avail.skip(32));
        if header.version == 1 {
            let align = self.align_src;
            self.align_src = false;
            let r = self.copy_block(header.range.start..header.range.end);
            self.align_src = align;
            r
        } else {
            let encoded = Header {
                range: header.range.start..header.range.end,
                version: self.version,
            }.encode()?;
            let limit = range_len(&header.range);
            let pos = self.src.pos as usize;
            let rest = slice_subrange(self.src.data.as_slice(), pos, self.src.data.len());
            assert(rest@ =~= avail.skip(32));
            let (payload, used) = match frame_decode(rest, limit) {
                Some(decoded) => decoded,
                None => {
                    return Err(Error::Io(Cause::InvalidData, Step::CopyCompressed));
                },
            };
            if !self.src.skip(used as u64) || !self.src.skip(8) {
                return Err(Error::Io(Cause::InvalidSeek, Step::SeekCompressed));
            }
            if self.version == 1 {
                self.dst.extend_from_slice(encoded.as_slice());
                self.dst.extend_from_slice(payload.as_slice());
                assert(self.dst@ =~= before + (header_bytes(header.range, 1) + payload@));
            } else {
                let body = match compress(payload.as_slice()) {
                    Some(body) => body,
                    None => {
                        return Err(Error::Io(Cause::InvalidData, Step::FinalizeCompressed));
                    },
                };
                self.dst.extend_from_slice(encoded.as_slice());
                self.dst.extend_from_slice(body.as_slice());
                assert(self.dst@ =~= before + (header_bytes(header.range, 2) + body@));
            }
            Ok(())
        }
    }
}

/// `out`, then what writing further blocks appends.
pub open spec fn written_then(out: Seq<u8>, rest: Result<(Seq<u8>, int), Error>) -> Result<
    (Seq<u8>, int),
    Error,
> {
    match rest {
        Err(e) => Err(e),
        Ok((more, end)) => Ok((out + more, end)),
    }
}

/// What writing block number `i` adds to what the blocks after it append.
proof fn lemma_written_step(
    out: Seq<u8>,
    version: u32,
    align_src: bool,
    data: Seq<u8>,
    pos: int,
    blocks: Seq<Block>,
    i: int,
)
    requires
        0 <= i < blocks.len(),
    ensures
        match copied_block(
            version,
            align_src,
            tail_from(data, block_start(pos, blocks[i])),
            blocks[i].range,
        ) {
            Err(_) => written_then(
                out,
                written_blocks(version, align_src, data, pos, blocks.skip(i)),
            ) == Err::<(Seq<u8>, int), Error>(Error::WriteBlock(blocks[i].range)),
            Ok(one) => written_then(
                out,
                written_blocks(version, align_src, data, pos, blocks.skip(i)),
            ) == written_then(
                out + one.out,
                written_blocks(
                    version,
                    align_src,
                    data,
                    block_start(pos, blocks[i]) + one.taken,
                    blocks.skip(i + 1),
                ),
            ),
        },
{
    let rest = blocks.skip(i);
    assert(rest[0] == blocks[i]);
    assert(rest.drop_first() =~= blocks.skip(i + 1));
    let at = block_start(pos, blocks[i]);
    if let Ok(one) = copied_block(version, align_src, tail_from(data, at), blocks[i].range) {
        if let Ok((more, end)) = written_blocks(
            version,
            align_src,
            data,
            at + one.taken,
            blocks.skip(i + 1),
        ) {
            assert(out + (one.out + more) =~= (out + one.out) + more);
        }
    }
}

/// Where a block is read from: at its offset, or where the source stands
/// when its offset is zero.
pub open spec fn block_start(pos: int, block: Block) -> int {
    if block.offset > 0 {
        block.offset as int
    } else {
        pos
    }
}

} // verus!
