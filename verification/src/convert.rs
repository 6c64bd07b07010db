//! Turning a snapshot from one format into another: the raw bytes of
//! memory, the container of version 1, and the compressed container of
//! version 2.

use crate::image::{
    all_zero, block_bytes, block_start, converted_block, copied, copied_block, copy,
    header_bytes, last_address, lemma_header_round_trip, magic_for, piece_payload, range_usize,
    read_header, small_piece, span, written_blocks, zeros, Block, Cause, Emitted, Error, Header,
    Image, Step, MAX_BLOCK_SIZE,
};
use crate::io::endian::{le_bytes, lemma_le_bytes_len};
use crate::io::reader::{tail_from, ByteReader};
use crate::io::snappy::{compressed_payload, frame_decode, snappy_frame, snappy_unframe};
use crate::iomem::{lemma_piece, lemma_piece_count, piece_count, pieces, split, split_ranges};
use crate::snapshot::{blocks_of, device_blocks};
use std::ops::Range;
use vstd::prelude::*;
use vstd::slice::slice_subrange;

verus! {

/// The formats of a snapshot.
#[derive(Debug, Clone, Copy, PartialEq, Eq, Structural)]
pub enum Format {
    /// The bytes of memory from address 0 on, with zero bytes where there
    /// is no memory.
    Raw,
    /// The container of version 1.
    Lime,
    /// The container of version 2, with compressed blocks.
    LimeCompressed,
}

/// The number of bytes from position `pos` to the end of `len` bytes, none
/// where the position lies past the end.
pub open spec fn unread(len: nat, pos: int) -> nat {
    if pos < len {
        (len - pos) as nat
    } else {
        0
    }
}

/// `out`, then what converting the rest appends.
pub open spec fn out_then(out: Seq<u8>, rest: Result<Seq<u8>, Error>) -> Result<Seq<u8>, Error> {
    match rest {
        Err(e) => Err(e),
        Ok(more) => Ok(out + more),
    }
}

/// The container in `version` that holds what the container in `data`
/// holds from position `pos` on: its blocks, converted one after the
/// other, for as long as the position lies before the end.
pub open spec fn converted(version: u32, data: Seq<u8>, pos: int) -> Result<Seq<u8>, Error>
    decreases unread(data.len(), pos),
    via converted_ends
{
    if pos < 0 || pos >= data.len() {
        Ok(Seq::empty())
    } else {
        match converted_block(version, tail_from(data, pos), pos) {
            Err(e) => Err(e),
            Ok(one) => out_then(one.out, converted(version, data, pos + one.taken)),
        }
    }
}

#[via_fn]
proof fn converted_ends(version: u32, data: Seq<u8>, pos: int) {
    lemma_converted_block_taken(version, tail_from(data, pos), pos);
}

/// A block that is converted takes its header from the source, and so at
/// least 32 bytes.
pub proof fn lemma_converted_block_taken(version: u32, avail: Seq<u8>, pos: int)
    ensures
        converted_block(version, avail, pos) matches Ok(one) ==> one.taken >= 32,
{
}

/// What converting the block at `pos` adds to what the blocks after it
/// give.
proof fn lemma_converted_step(out: Seq<u8>, version: u32, data: Seq<u8>, pos: int)
    requires
        0 <= pos < data.len(),
    ensures
        match converted_block(version, tail_from(data, pos), pos) {
            Err(e) => out_then(out, converted(version, data, pos)) == Err::<Seq<u8>, Error>(e),
            Ok(one) => one.taken >= 32 && out_then(out, converted(version, data, pos))
                == out_then(out + one.out, converted(version, data, pos + one.taken)),
        },
{
    lemma_converted_block_taken(version, tail_from(data, pos), pos);
    if let Ok(one) = converted_block(version, tail_from(data, pos), pos) {
        if let Ok(more) = converted(version, data, pos + one.taken) {
            assert(out + (one.out + more) =~= (out + one.out) + more);
        }
    }
}

/// Converts a container to version 2 where `compress` is set, else to
/// version 1.
pub fn convert(src: Vec<u8>, compress: bool) -> (r: Result<Vec<u8>, Error>)
    ensures
        match r {
            Ok(out) => converted(
                if compress {
                    2u32
                } else {
                    1u32
                },
                src@,
                0,
            ) == Ok::<Seq<u8>, Error>(out@),
            Err(e) => converted(
                if compress {
                    2u32
                } else {
                    1u32
                },
                src@,
                0,
            ) == Err::<Seq<u8>, Error>(e),
        },
{
    let version: u32 = if compress {
        2
    } else {
        1
    };
    let len = src.len();
    let mut image = Image::new(version, false, src);
    let ghost goal = converted(version, src@, 0);
    proof {
        if let Ok(all) = goal {
            assert(image.dst@ + all =~= all);
        }
    }
    while image.src.position() < len as u64
        invariant
            image.version == version,
            !image.align_src,
            image.src.data@ == src@,
            len == src@.len(),
            version == if compress {
                2u32
            } else {
                1u32
            },
            goal == converted(version, src@, 0),
            goal == out_then(image.dst@, converted(version, src@, image.src.pos as int)),
        decreases unread(src@.len(), image.src.pos as int),
    {
        proof {
            lemma_converted_step(image.dst@, version, src@, image.src.pos as int);
        }
        image.convert_block()?;
    }
    proof {
        assert(image.dst@ + Seq::<u8>::empty() =~= image.dst@);
    }
    Ok(image.dst)
}

/// What the block that starts `avail` adds to the raw bytes of which
/// `written` are there: zero bytes up to the first address of the block,
/// then the payload of the block, decompressed where the block is of
/// version 2. A block that starts below `written` cannot be placed.
pub open spec fn raw_block(avail: Seq<u8>, pos: int, written: nat) -> Result<Emitted, Error> {
    match read_header(avail) {
        Err(e) => Err(e),
        Ok(header) => if header.range.start < written || header.range.start - written
            > usize::MAX || span(header.range) > usize::MAX {
            Err(Error::IntConversion)
        } else {
            let gap = zeros((header.range.start - written) as nat);
            if header.version == 1 {
                let payload = copied(avail.skip(32), span(header.range));
                Ok(Emitted { out: gap + payload, taken: 32 + payload.len() })
            } else {
                match snappy_unframe(avail.skip(32), span(header.range) as u64) {
                    None => Err(Error::Io(Cause::InvalidData, Step::CopyCompressed)),
                    Some((payload, used)) => if pos + 32 + used + 8 > u64::MAX {
                        Err(Error::Io(Cause::InvalidSeek, Step::SeekCompressed))
                    } else {
                        Ok(Emitted { out: gap + payload, taken: 32 + used as nat + 8 })
                    },
                }
            }
        },
    }
}

/// The raw bytes that the container in `data` adds from position `pos` on
/// to `written` bytes that are there.
pub open spec fn raw_of(data: Seq<u8>, pos: int, written: nat) -> Result<Seq<u8>, Error>
    decreases unread(data.len(), pos),
    via raw_of_ends
{
    if pos < 0 || pos >= data.len() {
        Ok(Seq::empty())
    } else {
        match raw_block(tail_from(data, pos), pos, written) {
            Err(e) => Err(e),
            Ok(one) => out_then(one.out, raw_of(data, pos + one.taken, written + one.out.len())),
        }
    }
}

#[via_fn]
proof fn raw_of_ends(data: Seq<u8>, pos: int, written: nat) {
    lemma_raw_block_taken(tail_from(data, pos), pos, written);
}

/// A block that is turned into raw bytes takes its header from the source,
/// and so at least 32 bytes.
pub proof fn lemma_raw_block_taken(avail: Seq<u8>, pos: int, written: nat)
    ensures
        raw_block(avail, pos, written) matches Ok(one) ==> one.taken >= 32,
{
}

/// What the block at `pos` adds to the raw bytes that the blocks after it
/// give.
proof fn lemma_raw_step(out: Seq<u8>, data: Seq<u8>, pos: int)
    requires
        0 <= pos < data.len(),
    ensures
        match raw_block(tail_from(data, pos), pos, out.len()) {
            Err(e) => out_then(out, raw_of(data, pos, out.len())) == Err::<Seq<u8>, Error>(e),
            Ok(one) => one.taken >= 32 && out_then(out, raw_of(data, pos, out.len()))
                == out_then(
                out + one.out,
                raw_of(data, pos + one.taken, (out + one.out).len()),
            ),
        },
{
    lemma_raw_block_taken(tail_from(data, pos), pos, out.len());
    if let Ok(one) = raw_block(tail_from(data, pos), pos, out.len()) {
        if let Ok(more) = raw_of(data, pos + one.taken, out.len() + one.out.len()) {
            assert(out + (one.out + more) =~= (out + one.out) + more);
        }
    }
}

/// Appends `count` zero bytes.
fn push_zeros(dst: &mut Vec<u8>, count: usize)
    ensures
        final(dst)@ == old(dst)@ + zeros(count as nat),
{
    let mut i: usize = 0;
    assert(dst@ =~= old(dst)@ + zeros(0));
    while i < count
        invariant
            i <= count,
            dst@ == old(dst)@ + zeros(i as nat),
        decreases count - i,
    {
        dst.push(0);
        i += 1;
        assert(dst@ =~= old(dst)@ + zeros(i as nat));
    }
}

/// Reads the next block of a container from `src` and appends to `dst` the
/// raw bytes that it stands for.
fn raw_step(src: &mut ByteReader, dst: &mut Vec<u8>) -> (r: Result<(), Error>)
    ensures
        final(src).data@ == old(src).data@,
        match raw_block(old(src).remaining(), old(src).pos as int, old(dst)@.len()) {
            Ok(one) => r is Ok && final(dst)@ == old(dst)@ + one.out && final(src).pos == old(src).pos + one.taken,
            Err(e) => r == Err::<(), Error>(e),
        },
{
    let ghost avail = src.remaining();
    let ghost before = dst@;
    let header = Header::read(src)?;
    assert(src.remaining() =~= avail.skip(32));
    let written = dst.len();
    if header.range.start < written as u64 || header.range.start - written as u64
        > usize::MAX as u64 {
        return Err(Error::IntConversion);
    }
    let size = range_usize(&header.range)?;
    let unmapped = (header.range.start - written as u64) as usize;
    push_zeros(dst, unmapped);
    if header.version == 1 {
        let r = copy(size, false, src, dst);
        assert(r is Ok);
        assert(dst@ =~= before + (zeros(unmapped as nat) + copied(avail.skip(32), size as nat)));
    } else {
        let pos = src.pos as usize;
        let rest = slice_subrange(src.data.as_slice(), pos, src.data.len());
        assert(rest@ =~= avail.skip(32));
        let (payload, used) = match frame_decode(rest, size as u64) {
            Some(decoded) => decoded,
            None => {
                return Err(Error::Io(Cause::InvalidData, Step::CopyCompressed));
            },
        };
        if !src.skip(used as u64) || !src.skip(8) {
            return Err(Error::Io(Cause::InvalidSeek, Step::SeekCompressed));
        }
        dst.extend_from_slice(payload.as_slice());
        assert(dst@ =~= before + (zeros(unmapped as nat) + payload@));
    }
    Ok(())
}

/// Turns a container into the raw bytes of memory. Where the container
/// holds no block for an address, the raw bytes are zero.
pub fn convert_to_raw(src: Vec<u8>) -> (r: Result<Vec<u8>, Error>)
    ensures
        match r {
            Ok(out) => raw_of(src@, 0, 0) == Ok::<Seq<u8>, Error>(out@),
            Err(e) => raw_of(src@, 0, 0) == Err::<Seq<u8>, Error>(e),
        },
{
    let len = src.len();
    let mut reader = ByteReader::new(src);
    let mut dst: Vec<u8> = Vec::new();
    let ghost goal = raw_of(src@, 0, 0);
    proof {
        if let Ok(all) = goal {
            assert(dst@ + all =~= all);
        }
    }
    while reader.position() < len as u64
        invariant
            reader.data@ == src@,
            len == src@.len(),
            goal == raw_of(src@, 0, 0),
            goal == out_then(dst@, raw_of(src@, reader.pos as int, dst@.len())),
        decreases unread(src@.len(), reader.pos as int),
    {
        proof {
            lemma_raw_step(dst@, src@, reader.pos as int);
        }
        raw_step(&mut reader, &mut dst)?;
    }
    proof {
        assert(dst@ + Seq::<u8>::empty() =~= dst@);
    }
    Ok(dst)
}

/// The blocks of a raw file of `len` bytes: the file from address 0 on, cut
/// into pieces of `MAX_BLOCK_SIZE` bytes, each read at its own address.
pub open spec fn raw_blocks(len: nat) -> Seq<Block> {
    device_blocks(split(seq![0..len as u64], MAX_BLOCK_SIZE), false)
}

/// Turns the raw bytes of memory into a container, of version 2 where
/// `compress` is set, else of version 1.
pub fn convert_from_raw(src: Vec<u8>, compress: bool) -> (r: Result<Vec<u8>, Error>)
    ensures
        match written_blocks(
            if compress {
                2u32
            } else {
                1u32
            },
            false,
            src@,
            0,
            raw_blocks(src@.len()),
        ) {
            Ok((out, _)) => r matches Ok(container) && container@ == out,
            Err(e) => r == Err::<Vec<u8>, Error>(e),
        },
{
    let version: u32 = if compress {
        2
    } else {
        1
    };
    let mut whole: Vec<Range<u64>> = Vec::new();
    whole.push(0..src.len() as u64);
    assert(whole@ =~= seq![0..src@.len() as u64]);
    let ranges = split_ranges(whole, MAX_BLOCK_SIZE);
    let blocks = blocks_of(ranges.as_slice(), false);
    let mut image = Image::new(version, false, src);
    image.write_blocks(blocks.as_slice())?;
    assert(image.dst@ =~= Seq::<u8>::empty() + image.dst@);
    Ok(image.dst)
}

/// What converting between two formats yields: a container or raw bytes,
/// or the failure. Converting a format into itself is refused.
pub open spec fn converted_format(from: Format, to: Format, data: Seq<u8>) -> Result<
    Seq<u8>,
    crate::Error,
> {
    let target: u32 = if to == Format::LimeCompressed {
        2
    } else {
        1
    };
    if from == to {
        Err(crate::Error::NoConversionRequired)
    } else {
        let done = if to == Format::Raw {
            raw_of(data, 0, 0)
        } else if from == Format::Raw {
            match written_blocks(target, false, data, 0, raw_blocks(data.len())) {
                Ok((out, _)) => Ok(out),
                Err(e) => Err(e),
            }
        } else {
            converted(target, data, 0)
        };
        match done {
            Ok(out) => Ok(out),
            Err(e) => Err(crate::Error::Image(e)),
        }
    }
}

/// Converts a snapshot from one format into another.
pub fn convert_format(source_format: Format, format: Format, src: Vec<u8>) -> (r: Result<
    Vec<u8>,
    crate::Error,
>)
    ensures
        match r {
            Ok(out) => converted_format(source_format, format, src@) == Ok::<
                Seq<u8>,
                crate::Error,
            >(out@),
            Err(e) => converted_format(source_format, format, src@) == Err::<
                Seq<u8>,
                crate::Error,
            >(e),
        },
{
    let done = match (source_format, format) {
        (Format::Lime, Format::Raw) => convert_to_raw(src),
        (Format::LimeCompressed, Format::Raw) => convert_to_raw(src),
        (Format::Lime, Format::LimeCompressed) => convert(src, true),
        (Format::LimeCompressed, Format::Lime) => convert(src, false),
        (Format::Raw, Format::Lime) => convert_from_raw(src, false),
        (Format::Raw, Format::LimeCompressed) => convert_from_raw(src, true),
        _ => {
            return Err(crate::Error::NoConversionRequired);
        },
    };
    match done {
        Ok(out) => Ok(out),
        Err(e) => Err(crate::Error::Image(e)),
    }
}

/// Where piece number `k` of a raw file of `len` bytes starts, or the end of
/// the file where there are fewer pieces.
pub open spec fn piece_start(len: nat, k: int) -> int {
    if k * MAX_BLOCK_SIZE < len {
        k * MAX_BLOCK_SIZE
    } else {
        len as int
    }
}

/// Block number `k` of a raw file is its piece number `k`, read at its own
/// address.
proof fn lemma_raw_block(len: nat, k: int)
    requires
        len <= u64::MAX,
        0 <= k < piece_count(0..len as u64, MAX_BLOCK_SIZE),
    ensures
        raw_blocks(len).len() == piece_count(0..len as u64, MAX_BLOCK_SIZE),
        raw_blocks(len)[k].offset == piece_start(len, k),
        raw_blocks(len)[k].range.start == piece_start(len, k),
        raw_blocks(len)[k].range.end == piece_start(len, k + 1),
        0 <= piece_start(len, k) < piece_start(len, k + 1) <= len,
        piece_start(len, k + 1) - piece_start(len, k) <= MAX_BLOCK_SIZE,
        k > 0 ==> piece_start(len, k) > 0,
{
    let whole = 0..len as u64;
    let one = seq![whole];
    assert(split(one, MAX_BLOCK_SIZE) =~= pieces(whole, MAX_BLOCK_SIZE)) by {
        reveal_with_fuel(split, 2);
        assert(one.drop_last() =~= Seq::<Range<u64>>::empty());
    }
    lemma_piece(whole, MAX_BLOCK_SIZE, k);
    lemma_piece_count(whole, MAX_BLOCK_SIZE);
}

/// Past the last piece the file is at its end.
proof fn lemma_raw_blocks_end(len: nat)
    requires
        len <= u64::MAX,
    ensures
        raw_blocks(len).len() == piece_count(0..len as u64, MAX_BLOCK_SIZE),
        piece_start(len, piece_count(0..len as u64, MAX_BLOCK_SIZE) as int) == len,
{
    let whole = 0..len as u64;
    let one = seq![whole];
    assert(split(one, MAX_BLOCK_SIZE) =~= pieces(whole, MAX_BLOCK_SIZE)) by {
        reveal_with_fuel(split, 2);
        assert(one.drop_last() =~= Seq::<Range<u64>>::empty());
    }
    lemma_piece_count(whole, MAX_BLOCK_SIZE);
}

/// What the Snappy codec is taken to do: a frame, whatever follows it,
/// decompresses to the bytes that were compressed, and the decoder takes
/// the frame and no more.
#[verifier::opaque]
pub open spec fn codec_round_trips() -> bool {
    forall|payload: Seq<u8>, rest: Seq<u8>|
        snappy_frame(payload) is Some ==> #[trigger] snappy_unframe(
            snappy_frame(payload).unwrap() + rest,
            payload.len() as u64,
        ) == Some((payload, snappy_frame(payload).unwrap().len() as usize))
}

/// A header has 32 bytes.
proof fn lemma_header_len(range: Range<u64>, version: u32)
    ensures
        header_bytes(range, version).len() == 32,
{
    lemma_le_bytes_len(magic_for(version) as nat, 4);
    lemma_le_bytes_len(version as nat, 4);
    lemma_le_bytes_len(range.start as nat, 8);
    lemma_le_bytes_len(last_address(range), 8);
    lemma_le_bytes_len(0, 8);
}

/// A block has at least the 32 bytes of its header.
proof fn lemma_block_len(version: u32, range: Range<u64>, payload: Seq<u8>)
    requires
        block_bytes(version, range, payload) is Some,
    ensures
        block_bytes(version, range, payload).unwrap().len() >= 32,
{
    lemma_header_len(range, version);
}

/// A header is read back from bytes that start with its encoding.
proof fn lemma_read_header(range: Range<u64>, version: u32, after: Seq<u8>)
    requires
        version == 1 || version == 2,
        range.end >= 1,
    ensures
        read_header(header_bytes(range, version) + after) == Ok::<Header, Error>(
            Header { range, version },
        ),
{
    let head = header_bytes(range, version);
    let all = head + after;
    lemma_header_len(range, version);
    lemma_header_round_trip(Header { range, version });
    assert(all.subrange(0, 32) =~= head);
    assert(all.subrange(16, 24) =~= head.subrange(16, 24));
    assert(head.subrange(0, 32) =~= head);
}

/// What copying piece number `k` of a raw file puts into the container:
/// nothing where the piece is all zero, else its block.
proof fn lemma_copied_piece(version: u32, data: Seq<u8>, k: int)
    requires
        version == 1 || version == 2,
        data.len() <= usize::MAX,
        0 <= k < piece_count(0..data.len() as u64, MAX_BLOCK_SIZE),
    ensures
        ({
            let from = piece_start(data.len(), k);
            let to = piece_start(data.len(), k + 1);
            let range = raw_blocks(data.len())[k].range;
            let payload = data.subrange(from, to);
            let copied = copied_block(version, false, tail_from(data, from), range);
            &&& range == ((from as u64)..(to as u64))
            &&& copied matches Ok(one) ==> one.taken == to - from && one.out == if all_zero(
                payload,
            ) {
                Seq::<u8>::empty()
            } else {
                block_bytes(version, range, payload).unwrap()
            }
            &&& copied is Ok && !all_zero(payload) ==> block_bytes(version, range, payload)
                is Some
            &&& version == 1 ==> copied is Ok
        }),
{
    reveal(small_piece);
    let len = data.len();
    lemma_raw_block(len, k);
    let from = piece_start(len, k);
    let to = piece_start(len, k + 1);
    let range = raw_blocks(len)[k].range;
    let avail = tail_from(data, from);
    let payload = data.subrange(from, to);
    assert(avail.subrange(0, to - from) =~= payload);
    assert(piece_payload(false, avail, span(range)) == Some(payload));
    assert(copied(avail, span(range)) =~= payload);
    assert(copied_block(version, false, avail, range) == small_piece(
        version,
        false,
        avail,
        range,
    ));
}

/// Reading a block back: after the zero bytes that fill the gap before its
/// first address come the bytes that the block was made of.
proof fn lemma_raw_block_of(
    version: u32,
    range: Range<u64>,
    payload: Seq<u8>,
    after: Seq<u8>,
    at: int,
    written: nat,
)
    requires
        version == 1 || (version == 2 && codec_round_trips()),
        range.start < range.end,
        payload.len() == span(range),
        payload.len() <= usize::MAX,
        written <= range.start,
        range.end <= usize::MAX,
        block_bytes(version, range, payload) is Some,
        0 <= at,
        at + block_bytes(version, range, payload).unwrap().len() <= usize::MAX,
    ensures
        raw_block(block_bytes(version, range, payload).unwrap() + after, at, written) == Ok::<
            Emitted,
            Error,
        >(
            Emitted {
                out: zeros((range.start - written) as nat) + payload,
                taken: block_bytes(version, range, payload).unwrap().len(),
            },
        ),
{
    reveal(codec_round_trips);
    let block = block_bytes(version, range, payload).unwrap();
    let all = block + after;
    let head = header_bytes(range, version);
    lemma_header_len(range, version);
    if version == 1 {
        assert(block == head + payload);
        assert(all =~= head + (payload + after));
        lemma_read_header(range, version, payload + after);
        assert(all.skip(32) =~= payload + after);
        assert((payload + after).subrange(0, payload.len() as int) =~= payload);
    } else {
        let frame = snappy_frame(payload).unwrap();
        let trailer = le_bytes(frame.len(), 8);
        lemma_le_bytes_len(frame.len(), 8);
        assert(block == head + (frame + trailer));
        assert(all =~= head + (frame + (trailer + after)));
        lemma_read_header(range, version, frame + (trailer + after));
        assert(all.skip(32) =~= frame + (trailer + after));
        assert(snappy_unframe(frame + (trailer + after), payload.len() as u64) == Some(
            (payload, frame.len() as usize),
        ));
        assert(block.len() == 32 + frame.len() + 8);
    }
}

/// Bytes that are zero up to `from` and from there up to `to` are zero up
/// to `to`.
proof fn lemma_zero_extends(data: Seq<u8>, written: int, from: int, to: int)
    requires
        0 <= written <= from <= to <= data.len(),
        all_zero(data.subrange(written, from)),
        all_zero(data.subrange(from, to)),
    ensures
        all_zero(data.subrange(written, to)),
{
    assert forall|i: int| 0 <= i < to - written implies data.subrange(written, to)[i] == 0 by {
        if written + i < from {
            assert(data.subrange(written, from)[i] == 0);
        } else {
            assert(data.subrange(from, to)[written + i - from] == 0);
        }
    }
}

/// Zero bytes for a stretch that is zero, then the bytes up to `to`, then
/// the bytes that follow are the bytes from `written` on.
proof fn lemma_stretches_join(data: Seq<u8>, written: int, from: int, to: int, more: int)
    requires
        0 <= written <= from <= to,
        0 <= more,
        to + more <= data.len(),
        all_zero(data.subrange(written, from)),
    ensures
        zeros((from - written) as nat) + data.subrange(from, to) + data.subrange(to, to + more)
            == data.subrange(written, to + more),
{
    let gap = zeros((from - written) as nat);
    assert forall|i: int| 0 <= i < from - written implies gap[i] == data[written + i] by {
        assert(data.subrange(written, from)[i] == 0);
    }
    assert(gap + data.subrange(from, to) + data.subrange(to, to + more) =~= data.subrange(
        written,
        to + more,
    ));
}

/// The first of some blocks is written, then the others from where the
/// source then stands.
proof fn lemma_written_first(
    version: u32,
    data: Seq<u8>,
    pos: int,
    blocks: Seq<Block>,
    k: int,
)
    requires
        0 <= k < blocks.len(),
        written_blocks(version, false, data, pos, blocks.skip(k)) is Ok,
    ensures
        ({
            let at = block_start(pos, blocks[k]);
            let copied = copied_block(version, false, tail_from(data, at), blocks[k].range);
            &&& copied matches Ok(one)
            &&& written_blocks(version, false, data, at + one.taken, blocks.skip(k + 1)) matches Ok(
                (more, _),
            )
            &&& written_blocks(version, false, data, pos, blocks.skip(k)).unwrap().0 == one.out
                + more
        }),
{
    let rest = blocks.skip(k);
    assert(rest[0] == blocks[k]);
    assert(rest.drop_first() =~= blocks.skip(k + 1));
}

/// Reading back the blocks of a raw file from number `k` on gives the
/// bytes of the file from `written` on, up to the end of the last block
/// that holds a byte that is not zero.
proof fn lemma_round_trip_from(
    version: u32,
    data: Seq<u8>,
    k: int,
    pos: int,
    lime: Seq<u8>,
    at: int,
    written: nat,
)
    requires
        version == 1 || (version == 2 && codec_round_trips()),
        data.len() <= usize::MAX,
        lime.len() <= usize::MAX,
        0 <= k <= piece_count(0..data.len() as u64, MAX_BLOCK_SIZE),
        k == 0 ==> pos == 0,
        0 <= at <= lime.len(),
        written_blocks(version, false, data, pos, raw_blocks(data.len()).skip(k)) matches Ok(
            (out, _),
        ) && tail_from(lime, at) == out,
        written <= piece_start(data.len(), k),
        all_zero(data.subrange(written as int, piece_start(data.len(), k))),
    ensures
        raw_of(lime, at, written) matches Ok(back) && written + back.len() <= data.len() && back
            == data.subrange(written as int, (written + back.len()) as int) && all_zero(
            data.skip((written + back.len()) as int),
        ),
    decreases piece_count(0..data.len() as u64, MAX_BLOCK_SIZE) - k, 2nat,
{
    let len = data.len();
    let count = piece_count(0..len as u64, MAX_BLOCK_SIZE) as int;
    lemma_raw_blocks_end(len);
    if k == count {
        assert(raw_blocks(len).skip(k) =~= Seq::<Block>::empty());
        assert(tail_from(lime, at).len() == 0);
        assert(at == lime.len());
        assert(data.subrange(written as int, written as int) =~= Seq::<u8>::empty());
        assert(data.skip(written as int) =~= data.subrange(written as int, len as int));
    } else {
        lemma_round_trip_step(version, data, k, pos, lime, at, written);
    }
}

/// The step of `lemma_round_trip_from` for one block.
proof fn lemma_round_trip_step(
    version: u32,
    data: Seq<u8>,
    k: int,
    pos: int,
    lime: Seq<u8>,
    at: int,
    written: nat,
)
    requires
        version == 1 || (version == 2 && codec_round_trips()),
        data.len() <= usize::MAX,
        lime.len() <= usize::MAX,
        0 <= k < piece_count(0..data.len() as u64, MAX_BLOCK_SIZE),
        k == 0 ==> pos == 0,
        0 <= at <= lime.len(),
        written_blocks(version, false, data, pos, raw_blocks(data.len()).skip(k)) matches Ok(
            (out, _),
        ) && tail_from(lime, at) == out,
        written <= piece_start(data.len(), k),
        all_zero(data.subrange(written as int, piece_start(data.len(), k))),
    ensures
        raw_of(lime, at, written) matches Ok(back) && written + back.len() <= data.len() && back
            == data.subrange(written as int, (written + back.len()) as int) && all_zero(
            data.skip((written + back.len()) as int),
        ),
    decreases piece_count(0..data.len() as u64, MAX_BLOCK_SIZE) - k, 1nat,
{
    let len = data.len();
    lemma_raw_block(len, k);
    lemma_step_setup(version, data, k, pos, lime, at);
    let from = piece_start(len, k);
    let to = piece_start(len, k + 1);
    let more = written_blocks(version, false, data, to, raw_blocks(len).skip(k + 1)).unwrap().0;
    if all_zero(data.subrange(from, to)) {
        lemma_zero_extends(data, written as int, from, to);
        lemma_round_trip_from(version, data, k + 1, to, lime, at, written);
    } else {
        lemma_round_trip_next(version, data, k, lime, at, written, more);
    }
}

/// What the container holds from block number `k` of a raw file on: the
/// block, unless its piece is all zero, then what the later blocks give.
proof fn lemma_step_setup(
    version: u32,
    data: Seq<u8>,
    k: int,
    pos: int,
    lime: Seq<u8>,
    at: int,
)
    requires
        version == 1 || version == 2,
        data.len() <= usize::MAX,
        0 <= k < piece_count(0..data.len() as u64, MAX_BLOCK_SIZE),
        k == 0 ==> pos == 0,
        written_blocks(version, false, data, pos, raw_blocks(data.len()).skip(k)) matches Ok(
            (out, _),
        ) && tail_from(lime, at) == out,
    ensures
        ({
            let from = piece_start(data.len(), k);
            let to = piece_start(data.len(), k + 1);
            let range = raw_blocks(data.len())[k].range;
            let payload = data.subrange(from, to);
            &&& written_blocks(
                version,
                false,
                data,
                to,
                raw_blocks(data.len()).skip(k + 1),
            ) matches Ok((more, _))
            &&& !all_zero(payload) ==> block_bytes(version, range, payload) is Some
            &&& tail_from(lime, at) == if all_zero(payload) {
                more
            } else {
                block_bytes(version, range, payload).unwrap() + more
            }
        }),
{
    let len = data.len();
    lemma_raw_block(len, k);
    lemma_copied_piece(version, data, k);
    lemma_written_first(version, data, pos, raw_blocks(len), k);
    let block = raw_blocks(len)[k];
    let from = piece_start(len, k);
    let to = piece_start(len, k + 1);
    assert(block_start(pos, block) == from);
    let one = copied_block(version, false, tail_from(data, from), block.range).unwrap();
    assert(from + one.taken == to);
    let more = written_blocks(version, false, data, to, raw_blocks(len).skip(k + 1)).unwrap().0;
    if all_zero(data.subrange(from, to)) {
        assert(one.out + more =~= more);
    }
}

/// Reading back block number `k` of a raw file, which is not all zero,
/// from where it stands in the container.
proof fn lemma_block_read_back(
    version: u32,
    data: Seq<u8>,
    k: int,
    lime: Seq<u8>,
    at: int,
    written: nat,
    more: Seq<u8>,
)
    requires
        version == 1 || (version == 2 && codec_round_trips()),
        data.len() <= usize::MAX,
        lime.len() <= usize::MAX,
        0 <= k < piece_count(0..data.len() as u64, MAX_BLOCK_SIZE),
        0 <= at <= lime.len(),
        written <= piece_start(data.len(), k),
        block_bytes(
            version,
            raw_blocks(data.len())[k].range,
            data.subrange(piece_start(data.len(), k), piece_start(data.len(), k + 1)),
        ) matches Some(enc) && tail_from(lime, at) == enc + more,
    ensures
        raw_block(tail_from(lime, at), at, written) matches Ok(e) && e.taken >= 32 && e.out
            == zeros((piece_start(data.len(), k) - written) as nat) + data.subrange(
            piece_start(data.len(), k),
            piece_start(data.len(), k + 1),
        ) && at + e.taken <= lime.len() && tail_from(lime, at + e.taken) == more,
{
    let len = data.len();
    lemma_raw_block(len, k);
    let range = raw_blocks(len)[k].range;
    let from = piece_start(len, k);
    let to = piece_start(len, k + 1);
    let payload = data.subrange(from, to);
    let enc = block_bytes(version, range, payload).unwrap();
    let rest = tail_from(lime, at);
    assert(rest.len() == enc.len() + more.len());
    assert(rest.len() == lime.len() - at);
    lemma_block_len(version, range, payload);
    lemma_raw_block_of(version, range, payload, more, at, written);
    assert(lime.skip(at).skip(enc.len() as int) =~= lime.skip(at + enc.len()));
    assert((enc + more).skip(enc.len() as int) =~= more);
}

/// The step of `lemma_round_trip_from` for a block that is not all zero.
proof fn lemma_round_trip_next(
    version: u32,
    data: Seq<u8>,
    k: int,
    lime: Seq<u8>,
    at: int,
    written: nat,
    more: Seq<u8>,
)
    requires
        version == 1 || (version == 2 && codec_round_trips()),
        data.len() <= usize::MAX,
        lime.len() <= usize::MAX,
        0 <= k < piece_count(0..data.len() as u64, MAX_BLOCK_SIZE),
        0 <= at <= lime.len(),
        written <= piece_start(data.len(), k),
        all_zero(data.subrange(written as int, piece_start(data.len(), k))),
        written_blocks(
            version,
            false,
            data,
            piece_start(data.len(), k + 1),
            raw_blocks(data.len()).skip(k + 1),
        ) matches Ok((out, _)) && out == more,
        block_bytes(
            version,
            raw_blocks(data.len())[k].range,
            data.subrange(piece_start(data.len(), k), piece_start(data.len(), k + 1)),
        ) matches Some(enc) && tail_from(lime, at) == enc + more,
    ensures
        raw_of(lime, at, written) matches Ok(back) && written + back.len() <= data.len() && back
            == data.subrange(written as int, (written + back.len()) as int) && all_zero(
            data.skip((written + back.len()) as int),
        ),
    decreases piece_count(0..data.len() as u64, MAX_BLOCK_SIZE) - k, 0nat,
{
    let len = data.len();
    lemma_raw_block(len, k);
    lemma_block_read_back(version, data, k, lime, at, written, more);
    let from = piece_start(len, k);
    let to = piece_start(len, k + 1);
    let e = raw_block(tail_from(lime, at), at, written).unwrap();
    assert(e.out.len() == to - written);
    assert(data.subrange(to, to) =~= Seq::<u8>::empty());
    lemma_round_trip_from(version, data, k + 1, to, lime, at + e.taken, to as nat);
    let back = raw_of(lime, at + e.taken, to as nat).unwrap();
    assert(at < lime.len());
    assert(raw_of(lime, at, written) == Ok::<Seq<u8>, Error>(e.out + back));
    lemma_stretches_join(data, written as int, from, to, back.len() as int);
}

/// Making a raw file into a container of version 1 does not fail.
pub proof fn lemma_from_raw_succeeds(data: Seq<u8>)
    requires
        data.len() <= usize::MAX,
    ensures
        written_blocks(1, false, data, 0, raw_blocks(data.len())) is Ok,
{
    assert(raw_blocks(data.len()).skip(0) =~= raw_blocks(data.len()));
    lemma_from_raw_succeeds_from(data, 0, 0);
}

/// Writing the blocks of a raw file from number `k` on in version 1 does
/// not fail.
proof fn lemma_from_raw_succeeds_from(data: Seq<u8>, k: int, pos: int)
    requires
        data.len() <= usize::MAX,
        0 <= k <= piece_count(0..data.len() as u64, MAX_BLOCK_SIZE),
        k == 0 ==> pos == 0,
    ensures
        written_blocks(1, false, data, pos, raw_blocks(data.len()).skip(k)) is Ok,
    decreases piece_count(0..data.len() as u64, MAX_BLOCK_SIZE) - k,
{
    let len = data.len();
    let blocks = raw_blocks(len).skip(k);
    lemma_raw_blocks_end(len);
    if k == piece_count(0..len as u64, MAX_BLOCK_SIZE) {
        assert(blocks =~= Seq::<Block>::empty());
    } else {
        lemma_raw_block(len, k);
        lemma_copied_piece(1, data, k);
        assert(blocks[0] == raw_blocks(len)[k]);
        assert(blocks.drop_first() =~= raw_blocks(len).skip(k + 1));
        assert(block_start(pos, raw_blocks(len)[k]) == piece_start(len, k));
        lemma_from_raw_succeeds_from(data, k + 1, piece_start(len, k + 1));
    }
}

/// A raw file that is made into a container and back into a raw file comes
/// back as it was, up to the end of its last block that holds a byte that is
/// not zero: what comes back is the start of the file, and what does not
/// come back is zero. For the compressed container this rests on the Snappy
/// codec giving back what it was given.
pub proof fn lemma_raw_round_trip(data: Seq<u8>, compress: bool, lime: Seq<u8>)
    requires
        data.len() <= usize::MAX,
        lime.len() <= usize::MAX,
        compress ==> codec_round_trips(),
        written_blocks(
            if compress {
                2u32
            } else {
                1u32
            },
            false,
            data,
            0,
            raw_blocks(data.len()),
        ) matches Ok((out, _)) && out == lime,
    ensures
        raw_of(lime, 0, 0) matches Ok(back) && back.len() <= data.len() && back == data.take(
            back.len() as int,
        ) && all_zero(data.skip(back.len() as int)),
{
    let version: u32 = if compress {
        2
    } else {
        1
    };
    assert(raw_blocks(data.len()).skip(0) =~= raw_blocks(data.len()));
    assert(tail_from(lime, 0) =~= lime);
    assert(data.subrange(0, 0) =~= Seq::<u8>::empty());
    lemma_round_trip_from(version, data, 0, 0, lime, 0, 0);
    let back = raw_of(lime, 0, 0).unwrap();
    assert(data.subrange(0, back.len() as int) =~= data.take(back.len() as int));
}

} // verus!
