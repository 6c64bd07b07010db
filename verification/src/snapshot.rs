//! Planning a snapshot: which memory source is read, and which stretch of
//! it holds which physical range.

use crate::image::Block;
use crate::disk_usage::{check, within_limits, Limit};
use crate::text::{
    decimal, decimal_text, failure_text, format_error, indent, indented, join, joined, texts,
};
use crate::iomem::{covers, inside};
use crate::order::{sort_by_key, sorted, Keyed};
use elf::endian::NativeEndian;
use elf::ElfStream;
use std::io::Cursor;
use std::ops::Range;
use vstd::prelude::*;
use vstd::string::StringExecFns;

verus! {

/// The type of a program header that describes a loadable segment.
pub const PT_LOAD: u32 = 1;

/// A program header of an ELF core file, as far as a snapshot reads it.
#[derive(Debug, Clone, Copy, PartialEq, Eq, Structural)]
pub struct Segment {
    pub p_type: u32,
    pub p_offset: u64,
    pub p_vaddr: u64,
    pub p_memsz: u64,
}

/// A segment is ordered by its virtual address.
impl Keyed for Segment {
    open spec fn key(&self) -> u64 {
        self.p_vaddr
    }

    fn key_value(&self) -> (k: u64) {
        self.p_vaddr
    }
}

/// The last address of `start..end` as the search for a segment uses it:
/// one below `end`, and address 0 where `end` is 0.
pub open spec fn last_of(end: u64) -> int {
    if end >= 1 {
        end - 1
    } else {
        0
    }
}

/// Where `address`, which lies in `segment`, stands in the memory source:
/// as far behind the segment's offset as the address is behind the
/// segment's start, held at the largest offset there is.
pub open spec fn translated(segment: Block, address: u64) -> u64 {
    let at = segment.offset + (address - segment.range.start);
    if at > u64::MAX {
        u64::MAX
    } else {
        at as u64
    }
}

/// The blocks for the addresses from `start` to `end`, found by going
/// through `segments` once. A segment that holds `start` gives a block: up
/// to `end` where the segment holds the last address too, which ends the
/// search, else up to the segment's end, from where the search goes on.
pub open spec fn walked(start: u64, end: u64, segments: Seq<Block>) -> Seq<Block>
    decreases segments.len(),
{
    if segments.len() == 0 {
        Seq::empty()
    } else {
        let segment = segments[0];
        if inside(segment.range, start as int) {
            if inside(segment.range, last_of(end)) {
                seq![Block { offset: translated(segment, start), range: start..end }]
            } else {
                seq![Block { offset: translated(segment, start), range: start..segment.range.end }]
                    + walked(segment.range.end, end, segments.drop_first())
            }
        } else {
            walked(start, end, segments.drop_first())
        }
    }
}

/// The blocks for every range, in the order of the ranges.
pub open spec fn kcore_blocks(ranges: Seq<Range<u64>>, segments: Seq<Block>) -> Seq<Block>
    decreases ranges.len(),
{
    if ranges.len() == 0 {
        Seq::empty()
    } else {
        walked(ranges[0].start, ranges[0].end, segments) + kcore_blocks(
            ranges.drop_first(),
            segments,
        )
    }
}

/// Finds, for physical ranges and the segments of a core file, the
/// stretches of the file that hold the ranges. A range that starts in no
/// segment gives no block.
pub fn find_kcore_blocks(ranges: &[Range<u64>], headers: &[Block]) -> (result: Vec<Block>)
    ensures
        result@ == kcore_blocks(ranges@, headers@),
{
    let mut result: Vec<Block> = Vec::new();
    let mut i: usize = 0;
    assert(ranges@.skip(0) =~= ranges@);
    while i < ranges.len()
        invariant
            i <= ranges@.len(),
            kcore_blocks(ranges@, headers@) == result@ + kcore_blocks(
                ranges@.skip(i as int),
                headers@,
            ),
        decreases ranges@.len() - i,
    {
        let ghost base = result@;
        let ghost left = ranges@.skip(i as int);
        let mut start = ranges[i].start;
        let end = ranges[i].end;
        let last = end.saturating_sub(1);
        let mut j: usize = 0;
        let mut done = false;
        proof {
            assert(left[0] == ranges@[i as int]);
            assert(left.drop_first() =~= ranges@.skip(i + 1));
            assert(headers@.skip(0) =~= headers@);
            assert(base + walked(start, end, headers@) =~= result@ + walked(
                start,
                end,
                headers@.skip(0),
            ));
        }
        while j < headers.len() && !done
            invariant
                j <= headers@.len(),
                last == last_of(end),
                !done ==> base + walked(ranges@[i as int].start, end, headers@) == result@
                    + walked(start, end, headers@.skip(j as int)),
                done ==> base + walked(ranges@[i as int].start, end, headers@) == result@,
            decreases headers@.len() - j,
        {
            let header = &headers[j];
            let ghost segments = headers@.skip(j as int);
            proof {
                assert(segments[0] == *header);
                assert(segments.drop_first() =~= headers@.skip(j + 1));
            }
            if header.range.start <= start && start < header.range.end {
                let offset = header.offset.saturating_add(start - header.range.start);
                if header.range.start <= last && last < header.range.end {
                    proof {
                        assert(result@ + seq![Block { offset, range: start..end }]
                            =~= result@.push(Block { offset, range: start..end }));
                    }
                    result.push(Block { offset, range: start..end });
                    done = true;
                } else {
                    proof {
                        let block = Block { offset, range: start..header.range.end };
                        assert(result@ + (seq![block] + walked(
                            header.range.end,
                            end,
                            segments.drop_first(),
                        )) =~= result@.push(block) + walked(
                            header.range.end,
                            end,
                            segments.drop_first(),
                        ));
                    }
                    result.push(Block { offset, range: start..header.range.end });
                    start = header.range.end;
                }
            }
            j += 1;
        }
        proof {
            if !done {
                assert(headers@.skip(j as int) =~= Seq::<Block>::empty());
                assert(result@ + Seq::<Block>::empty() =~= result@);
            }
            let blocks = walked(ranges@[i as int].start, end, headers@);
            let rest = kcore_blocks(ranges@.skip(i + 1), headers@);
            assert(base + (blocks + rest) =~= (base + blocks) + rest);
        }
        i += 1;
    }
    assert(ranges@.skip(i as int) =~= Seq::<Range<u64>>::empty());
    assert(result@ + Seq::<Block>::empty() =~= result@);
    result
}

/// Whether address `x` lies in one of the segments.
pub open spec fn mapped(segments: Seq<Block>, x: int) -> bool {
    exists|i: int| 0 <= i < segments.len() && inside((#[trigger] segments[i]).range, x)
}

/// Whether address `x` lies in the range of one of the blocks.
pub open spec fn in_blocks(blocks: Seq<Block>, x: int) -> bool {
    exists|k: int| 0 <= k < blocks.len() && inside((#[trigger] blocks[k]).range, x)
}

/// Whether every segment holds an address and ends no later than the next
/// one starts.
pub open spec fn segments_apart(segments: Seq<Block>) -> bool {
    &&& forall|i: int|
        0 <= i < segments.len() ==> (#[trigger] segments[i]).range.start
            < segments[i].range.end
    &&& forall|i: int, j: int|
        0 <= i < j < segments.len() ==> (#[trigger] segments[i]).range.end <= (
        #[trigger] segments[j]).range.start
}

/// Whether the addresses of `start..end` that lie in a segment come before
/// all those that lie in none.
pub open spec fn mapped_from_start(start: u64, end: u64, segments: Seq<Block>) -> bool {
    forall|x: int, y: int|
        start <= y <= x < end && #[trigger] mapped(segments, x) ==> #[trigger] mapped(
            segments,
            y,
        )
}

/// Whether `block` lies in `segment` and its offset is that of its first
/// address there.
pub open spec fn cut_from(segment: Block, block: Block) -> bool {
    &&& segment.range.start <= block.range.start
    &&& block.range.start < block.range.end
    &&& block.range.end <= segment.range.end
    &&& block.offset == translated(segment, block.range.start)
}

/// Whether `block` is cut from one of the segments.
pub open spec fn from_segment(segments: Seq<Block>, block: Block) -> bool {
    exists|i: int| 0 <= i < segments.len() && cut_from(#[trigger] segments[i], block)
}

/// An address lies in one of the segments where it lies in the first or in
/// one of the others.
proof fn lemma_mapped_step(segments: Seq<Block>, x: int)
    requires
        segments.len() > 0,
    ensures
        mapped(segments, x) == (inside(segments[0].range, x) || mapped(
            segments.drop_first(),
            x,
        )),
{
    let rest = segments.drop_first();
    if mapped(segments, x) {
        let i = choose|i: int| 0 <= i < segments.len() && inside((#[trigger] segments[i]).range, x);
        if i > 0 {
            assert(rest[i - 1] == segments[i]);
        }
    }
    if mapped(rest, x) {
        let i = choose|i: int| 0 <= i < rest.len() && inside((#[trigger] rest[i]).range, x);
        assert(segments[i + 1] == rest[i]);
    }
}

/// A block cut from one of the later segments is cut from one of the
/// segments.
proof fn lemma_from_segment_step(segments: Seq<Block>, block: Block)
    requires
        segments.len() > 0,
        from_segment(segments.drop_first(), block),
    ensures
        from_segment(segments, block),
{
    let rest = segments.drop_first();
    let i = choose|i: int| 0 <= i < rest.len() && cut_from(#[trigger] rest[i], block);
    assert(segments[i + 1] == rest[i]);
}

/// Where the first segment does not hold `start`, it holds no address of a
/// range whose mapped addresses come first.
proof fn lemma_first_segment_out(start: u64, end: u64, segments: Seq<Block>, x: int)
    requires
        segments.len() > 0,
        segments_apart(segments),
        mapped_from_start(start, end, segments),
        !inside(segments[0].range, start as int),
        start <= x < end,
    ensures
        !inside(segments[0].range, x),
{
    if inside(segments[0].range, x) {
        assert(mapped(segments, x));
        assert(mapped(segments, start as int));
        let i = choose|i: int|
            0 <= i < segments.len() && inside((#[trigger] segments[i]).range, start as int);
        assert(segments[0].range.end <= segments[i].range.start);
    }
}

/// The blocks found for a range whose mapped addresses come first, in
/// segments that lie apart: they cover exactly the addresses of the range
/// that lie in a segment; the first starts where the range starts and each
/// further one where the one before ends; and each is cut from a segment.
pub proof fn lemma_walked(start: u64, end: u64, segments: Seq<Block>)
    requires
        start < end,
        segments_apart(segments),
        mapped_from_start(start, end, segments),
    ensures
        forall|x: int|
            #[trigger] in_blocks(walked(start, end, segments), x) == (start <= x < end && mapped(
                segments,
                x,
            )),
        walked(start, end, segments).len() > 0 ==> walked(start, end, segments)[0].range.start
            == start,
        forall|k: int|
            0 <= k < walked(start, end, segments).len() - 1 ==> (#[trigger] walked(
                start,
                end,
                segments,
            )[k]).range.end == walked(start, end, segments)[k + 1].range.start,
        forall|k: int|
            0 <= k < walked(start, end, segments).len() ==> from_segment(
                segments,
                #[trigger] walked(start, end, segments)[k],
            ),
    decreases segments.len(),
{
    let blocks = walked(start, end, segments);
    if segments.len() == 0 {
        assert forall|x: int| #[trigger] in_blocks(blocks, x) == (start <= x < end && mapped(
            segments,
            x,
        )) by {}
    } else {
        let segment = segments[0];
        let rest = segments.drop_first();
        assert(segments_apart(rest)) by {
            assert forall|i: int| 0 <= i < rest.len() implies (#[trigger] rest[i]).range.start
                < rest[i].range.end by {
                assert(rest[i] == segments[i + 1]);
            }
            assert forall|i: int, j: int| 0 <= i < j < rest.len() implies (
            #[trigger] rest[i]).range.end <= (#[trigger] rest[j]).range.start by {
                assert(rest[i] == segments[i + 1] && rest[j] == segments[j + 1]);
            }
        }
        if inside(segment.range, start as int) {
            if inside(segment.range, last_of(end)) {
                let block = Block { offset: translated(segment, start), range: start..end };
                assert(blocks =~= seq![block]);
                assert forall|x: int| #[trigger] in_blocks(blocks, x) == (start <= x < end
                    && mapped(segments, x)) by {
                    if in_blocks(blocks, x) {
                        let k = choose|k: int|
                            0 <= k < blocks.len() && inside((#[trigger] blocks[k]).range, x);
                        assert(inside(segments[0].range, x));
                    }
                    if start <= x < end {
                        assert(inside(blocks[0].range, x));
                    }
                }
                assert(cut_from(segments[0], block));
            } else {
                let block = Block {
                    offset: translated(segment, start),
                    range: start..segment.range.end,
                };
                let more = walked(segment.range.end, end, rest);
                assert(blocks =~= seq![block] + more);
                assert(mapped_from_start(segment.range.end, end, rest)) by {
                    assert forall|x: int, y: int|
                        segment.range.end <= y <= x < end && #[trigger] mapped(
                            rest,
                            x,
                        ) implies #[trigger] mapped(rest, y) by {
                        lemma_mapped_step(segments, x);
                        lemma_mapped_step(segments, y);
                        assert(mapped(segments, x));
                        assert(mapped(segments, y));
                    }
                }
                lemma_walked(segment.range.end, end, rest);
                assert forall|x: int| #[trigger] in_blocks(blocks, x) == (start <= x < end
                    && mapped(segments, x)) by {
                    lemma_mapped_step(segments, x);
                    if in_blocks(blocks, x) {
                        let k = choose|k: int|
                            0 <= k < blocks.len() && inside((#[trigger] blocks[k]).range, x);
                        if k > 0 {
                            assert(blocks[k] == more[k - 1]);
                            assert(in_blocks(more, x));
                        }
                    }
                    if start <= x < end && mapped(segments, x) {
                        if x < segment.range.end {
                            assert(inside(blocks[0].range, x));
                        } else {
                            assert(in_blocks(more, x));
                            let k = choose|k: int|
                                0 <= k < more.len() && inside((#[trigger] more[k]).range, x);
                            assert(blocks[k + 1] == more[k]);
                        }
                    }
                }
                assert forall|k: int| 0 <= k < blocks.len() - 1 implies (
                #[trigger] blocks[k]).range.end == blocks[k + 1].range.start by {
                    if k > 0 {
                        assert(blocks[k] == more[k - 1] && blocks[k + 1] == more[k]);
                    } else {
                        assert(blocks[1] == more[0]);
                    }
                }
                assert forall|k: int| 0 <= k < blocks.len() implies from_segment(
                    segments,
                    #[trigger] blocks[k],
                ) by {
                    if k > 0 {
                        assert(blocks[k] == more[k - 1]);
                        lemma_from_segment_step(segments, blocks[k]);
                    } else {
                        assert(cut_from(segments[0], block));
                    }
                }
            }
        } else {
            assert(blocks == walked(start, end, rest));
            assert(mapped_from_start(start, end, rest)) by {
                assert forall|x: int, y: int|
                    start <= y <= x < end && #[trigger] mapped(rest, x) implies #[trigger] mapped(
                    rest,
                    y,
                ) by {
                    lemma_mapped_step(segments, x);
                    lemma_mapped_step(segments, y);
                    assert(mapped(segments, x));
                    assert(mapped(segments, y));
                    lemma_first_segment_out(start, end, segments, y);
                }
            }
            lemma_walked(start, end, rest);
            assert forall|x: int| #[trigger] in_blocks(blocks, x) == (start <= x < end && mapped(
                segments,
                x,
            )) by {
                lemma_mapped_step(segments, x);
                if start <= x < end {
                    lemma_first_segment_out(start, end, segments, x);
                }
            }
            assert forall|k: int| 0 <= k < blocks.len() implies from_segment(
                segments,
                #[trigger] blocks[k],
            ) by {
                lemma_from_segment_step(segments, blocks[k]);
            }
        }
    }
}

/// Whatever the segments are, every address in the blocks found for a range
/// that holds an address lies in the range and in a segment.
pub proof fn lemma_walked_within(start: u64, end: u64, segments: Seq<Block>, x: int)
    requires
        start < end,
        in_blocks(walked(start, end, segments), x),
    ensures
        start <= x < end,
        mapped(segments, x),
    decreases segments.len(),
{
    let blocks = walked(start, end, segments);
    let k = choose|k: int| 0 <= k < blocks.len() && inside((#[trigger] blocks[k]).range, x);
    if segments.len() > 0 {
        let segment = segments[0];
        let rest = segments.drop_first();
        lemma_mapped_step(segments, x);
        if inside(segment.range, start as int) {
            if !inside(segment.range, last_of(end)) {
                let first = Block {
                    offset: translated(segment, start),
                    range: start..segment.range.end,
                };
                let more = walked(segment.range.end, end, rest);
                assert(blocks =~= seq![first] + more);
                if k > 0 {
                    assert(blocks[k] == more[k - 1]);
                    assert(in_blocks(more, x));
                    lemma_walked_within(segment.range.end, end, rest, x);
                }
            }
        } else {
            lemma_walked_within(start, end, rest, x);
        }
    }
}

/// Whatever the segments are, the blocks found for a range that holds an
/// address make up one stretch from the start of the range on.
pub proof fn lemma_walked_stretch(start: u64, end: u64, segments: Seq<Block>, x: int, y: int)
    requires
        start < end,
        in_blocks(walked(start, end, segments), x),
        start <= y <= x,
    ensures
        in_blocks(walked(start, end, segments), y),
    decreases segments.len(),
{
    let blocks = walked(start, end, segments);
    let k = choose|k: int| 0 <= k < blocks.len() && inside((#[trigger] blocks[k]).range, x);
    if segments.len() > 0 {
        let segment = segments[0];
        let rest = segments.drop_first();
        if inside(segment.range, start as int) {
            if inside(segment.range, last_of(end)) {
                assert(inside(blocks[0].range, y));
            } else {
                let first = Block {
                    offset: translated(segment, start),
                    range: start..segment.range.end,
                };
                let more = walked(segment.range.end, end, rest);
                assert(blocks =~= seq![first] + more);
                if k == 0 || y < segment.range.end {
                    assert(inside(blocks[0].range, y));
                } else {
                    assert(blocks[k] == more[k - 1]);
                    assert(in_blocks(more, x));
                    lemma_walked_stretch(segment.range.end, end, rest, x, y);
                    let j = choose|j: int|
                        0 <= j < more.len() && inside((#[trigger] more[j]).range, y);
                    assert(blocks[j + 1] == more[j]);
                }
            }
        } else {
            lemma_walked_stretch(start, end, rest, x, y);
        }
    }
}

/// The blocks found for a range cover every address of the range that lies
/// in a segment only where those addresses come first in the range.
pub proof fn lemma_mapped_first_is_needed(start: u64, end: u64, segments: Seq<Block>)
    requires
        start < end,
        forall|x: int|
            #[trigger] in_blocks(walked(start, end, segments), x) == (start <= x < end && mapped(
                segments,
                x,
            )),
    ensures
        mapped_from_start(start, end, segments),
{
    assert forall|x: int, y: int|
        start <= y <= x < end && #[trigger] mapped(segments, x) implies #[trigger] mapped(
        segments,
        y,
    ) by {
        assert(in_blocks(walked(start, end, segments), x));
        lemma_walked_stretch(start, end, segments, x, y);
        assert(in_blocks(walked(start, end, segments), y));
    }
}

/// Whether ranges and segments are such that every mapped address is
/// found: the segments lie apart, every range holds an address, and in
/// every range the addresses that lie in a segment come first.
pub open spec fn findable(ranges: Seq<Range<u64>>, segments: Seq<Block>) -> bool {
    &&& segments_apart(segments)
    &&& forall|r: int|
        0 <= r < ranges.len() ==> (#[trigger] ranges[r]).start < ranges[r].end
            && mapped_from_start(ranges[r].start, ranges[r].end, segments)
}

/// For ranges and segments that are findable, the blocks of
/// `find_kcore_blocks` cover exactly the addresses that lie both in a range
/// and in a segment, and every block is cut from a segment: it lies in the
/// segment, and its offset is the segment's offset plus the distance of the
/// block's start from the segment's start.
pub proof fn lemma_kcore_blocks(ranges: Seq<Range<u64>>, segments: Seq<Block>)
    requires
        findable(ranges, segments),
    ensures
        forall|x: int|
            #[trigger] in_blocks(kcore_blocks(ranges, segments), x) == (covers(ranges, x)
                && mapped(segments, x)),
        forall|k: int|
            0 <= k < kcore_blocks(ranges, segments).len() ==> from_segment(
                segments,
                #[trigger] kcore_blocks(ranges, segments)[k],
            ),
    decreases ranges.len(),
{
    let blocks = kcore_blocks(ranges, segments);
    if ranges.len() == 0 {
        assert forall|x: int| #[trigger] in_blocks(blocks, x) == (covers(ranges, x) && mapped(
            segments,
            x,
        )) by {}
    } else {
        let first = walked(ranges[0].start, ranges[0].end, segments);
        let rest = ranges.drop_first();
        let more = kcore_blocks(rest, segments);
        assert(findable(rest, segments)) by {
            assert forall|r: int| 0 <= r < rest.len() implies (#[trigger] rest[r]).start
                < rest[r].end && mapped_from_start(rest[r].start, rest[r].end, segments) by {
                assert(rest[r] == ranges[r + 1]);
            }
        }
        lemma_walked(ranges[0].start, ranges[0].end, segments);
        lemma_kcore_blocks(rest, segments);
        assert forall|x: int| #[trigger] in_blocks(blocks, x) == (covers(ranges, x) && mapped(
            segments,
            x,
        )) by {
            if in_blocks(blocks, x) {
                let k = choose|k: int|
                    0 <= k < blocks.len() && inside((#[trigger] blocks[k]).range, x);
                if k < first.len() {
                    assert(blocks[k] == first[k]);
                    assert(in_blocks(first, x));
                    assert(inside(ranges[0], x));
                } else {
                    assert(blocks[k] == more[k - first.len()]);
                    assert(in_blocks(more, x));
                    let r = choose|r: int| 0 <= r < rest.len() && inside(#[trigger] rest[r], x);
                    assert(inside(ranges[r + 1], x));
                }
            }
            if covers(ranges, x) && mapped(segments, x) {
                let r = choose|r: int| 0 <= r < ranges.len() && inside(#[trigger] ranges[r], x);
                if r == 0 {
                    assert(in_blocks(first, x));
                    let k = choose|k: int|
                        0 <= k < first.len() && inside((#[trigger] first[k]).range, x);
                    assert(blocks[k] == first[k]);
                } else {
                    assert(inside(rest[r - 1], x));
                    assert(covers(rest, x));
                    assert(in_blocks(more, x));
                    let k = choose|k: int|
                        0 <= k < more.len() && inside((#[trigger] more[k]).range, x);
                    assert(blocks[first.len() + k] == more[k]);
                }
            }
        }
        assert forall|k: int| 0 <= k < blocks.len() implies from_segment(
            segments,
            #[trigger] blocks[k],
        ) by {
            if k < first.len() {
                assert(blocks[k] == first[k]);
            } else {
                assert(blocks[k] == more[k - first.len()]);
            }
        }
    }
}

/// Where the memory is read from.
#[derive(Debug, PartialEq, Eq)]
pub enum Source {
    /// `/dev/crash`: physical memory, read one page at a time.
    DevCrash,
    /// `/dev/mem`: physical memory, as far as the kernel lets it be read.
    DevMem,
    /// `/proc/kcore`: the kernel's memory as an ELF core file.
    ProcKcore,
    /// A file that holds memory as it is, from address 0 on.
    Raw(String),
}

impl Clone for Source {
    fn clone(&self) -> (r: Self)
        ensures
            r == *self,
    {
        match self {
            Source::DevCrash => Source::DevCrash,
            Source::DevMem => Source::DevMem,
            Source::ProcKcore => Source::ProcKcore,
            Source::Raw(path) => Source::Raw(path.clone()),
        }
    }
}

impl Source {
    /// The path of the source.
    pub open spec fn path_text(&self) -> Seq<char> {
        match self {
            Source::DevCrash => "/dev/crash"@,
            Source::DevMem => "/dev/mem"@,
            Source::ProcKcore => "/proc/kcore"@,
            Source::Raw(path) => path@,
        }
    }

    /// The path of the source.
    pub fn path(&self) -> (path: String)
        ensures
            path@ == self.path_text(),
    {
        match self {
            Source::DevCrash => String::from_str("/dev/crash"),
            Source::DevMem => String::from_str("/dev/mem"),
            Source::ProcKcore => String::from_str("/proc/kcore"),
            Source::Raw(path) => path.clone(),
        }
    }
}

/// The address of the page that holds `address`.
pub open spec fn page_floor(address: u64) -> u64 {
    (address - address % 4096) as u64
}

/// The block for a range of a memory device: the range is read at its own
/// address. `/dev/crash` hands out whole pages only, so there the range
/// ends at the last page boundary.
pub open spec fn phys_block(range: Range<u64>, is_crash: bool) -> Block {
    Block {
        offset: range.start,
        range: if is_crash {
            range.start..page_floor(range.end)
        } else {
            range
        },
    }
}

/// Whether two texts are the same.
fn same_text(a: &str, b: &str) -> (same: bool)
    ensures
        same == (a@ == b@),
{
    String::from_str(a) == String::from_str(b)
}

/// The blocks for the ranges of a memory device or file, in the order of
/// the ranges.
pub open spec fn device_blocks(ranges: Seq<Range<u64>>, is_crash: bool) -> Seq<Block> {
    ranges.map_values(|r: Range<u64>| phys_block(r, is_crash))
}

/// The blocks to read for `ranges` from a memory device or file, which is
/// `/dev/crash` where `is_crash` is set.
pub fn blocks_of(ranges: &[Range<u64>], is_crash: bool) -> (blocks: Vec<Block>)
    ensures
        blocks@ == device_blocks(ranges@, is_crash),
{
    let mut blocks: Vec<Block> = Vec::new();
    let mut i: usize = 0;
    assert(ranges@.take(0) =~= Seq::<Range<u64>>::empty());
    assert(blocks@ =~= device_blocks(ranges@.take(0), is_crash));
    while i < ranges.len()
        invariant
            i <= ranges@.len(),
            blocks@ == device_blocks(ranges@.take(i as int), is_crash),
        decreases ranges@.len() - i,
    {
        let start = ranges[i].start;
        let end = ranges[i].end;
        let stop = if is_crash {
            assert((end >> 12) << 12 == (end - end % 4096) as u64) by (bit_vector);
            (end >> 12) << 12
        } else {
            end
        };
        blocks.push(Block { offset: start, range: start..stop });
        proof {
            assert(ranges@.take(i + 1) =~= ranges@.take(i as int).push(ranges@[i as int]));
            assert(device_blocks(ranges@.take(i + 1), is_crash) =~= device_blocks(
                ranges@.take(i as int),
                is_crash,
            ).push(phys_block(ranges@[i as int], is_crash)));
        }
        i += 1;
    }
    assert(ranges@.take(i as int) =~= ranges@);
    blocks
}

/// The blocks to read from the memory device or file `mem` for `ranges`.
pub fn phys_blocks(ranges: &[Range<u64>], mem: &str) -> (blocks: Vec<Block>)
    ensures
        blocks@ == device_blocks(ranges@, mem@ == "/dev/crash"@),
{
    blocks_of(ranges, same_text(mem, "/dev/crash"))
}

/// Why no snapshot could be planned or made.
#[derive(Debug, PartialEq, Eq)]
pub enum Reason {
    /// The core file has no loadable segment.
    NoInitialAddresses,
    /// There is no physical range to read.
    NoInitialMemoryRange,
    /// A segment starts below the address that stands for physical
    /// address 0.
    StartAddress,
    /// A segment ends above the last address there is.
    EndAddress,
    /// No memory source can be opened.
    NoSourceAvailable,
    /// Every memory source was tried and failed; the text holds what each
    /// of them reported.
    AllSourcesFailed(String),
}

/// The segments that are loadable, in their order.
pub open spec fn loadable(segments: Seq<Segment>) -> Seq<Segment>
    decreases segments.len(),
{
    if segments.len() == 0 {
        Seq::empty()
    } else if segments.last().p_type == PT_LOAD {
        loadable(segments.drop_last()).push(segments.last())
    } else {
        loadable(segments.drop_last())
    }
}

/// The physical range and the file offset of every segment, where `base` is
/// the virtual address that stands for physical address 0; or what is wrong
/// with the first segment that has no physical range.
pub open spec fn physical_segments(segments: Seq<Segment>, base: u64) -> Result<
    Seq<Block>,
    Reason,
>
    decreases segments.len(),
{
    if segments.len() == 0 {
        Ok(Seq::empty())
    } else {
        let segment = segments[0];
        if segment.p_vaddr < base {
            Err(Reason::StartAddress)
        } else if segment.p_vaddr - base + segment.p_memsz > u64::MAX {
            Err(Reason::EndAddress)
        } else {
            let start = (segment.p_vaddr - base) as u64;
            let block = Block {
                offset: segment.p_offset,
                range: start..(start + segment.p_memsz) as u64,
            };
            match physical_segments(segments.drop_first(), base) {
                Err(e) => Err(e),
                Ok(more) => Ok(seq![block] + more),
            }
        }
    }
}

/// The virtual address that stands for physical address 0: the lowest
/// virtual address of a segment holds the first physical range.
pub open spec fn kcore_base(first_vaddr: u64, first_start: u64) -> u64 {
    if first_vaddr >= first_start {
        (first_vaddr - first_start) as u64
    } else {
        0
    }
}

/// The blocks to read from a core file with these program headers for
/// `ranges`: the loadable segments are sorted by their virtual address and
/// turned into physical ranges, in which the ranges are then found.
pub open spec fn kcore_plan(ranges: Seq<Range<u64>>, segments: Seq<Segment>) -> Result<
    Seq<Block>,
    Reason,
> {
    let loads = sorted(loadable(segments));
    if loads.len() == 0 {
        Err(Reason::NoInitialAddresses)
    } else if ranges.len() == 0 {
        Err(Reason::NoInitialMemoryRange)
    } else {
        match physical_segments(loads, kcore_base(loads[0].p_vaddr, ranges[0].start)) {
            Err(e) => Err(e),
            Ok(physical) => Ok(kcore_blocks(ranges, physical)),
        }
    }
}

/// Plans the blocks to read from a core file with these program headers.
#[verifier::loop_isolation(false)]
pub fn plan_kcore(ranges: &[Range<u64>], segments: &[Segment]) -> (r: Result<Vec<Block>, Reason>)
    ensures
        match r {
            Ok(blocks) => kcore_plan(ranges@, segments@) == Ok::<Seq<Block>, Reason>(blocks@),
            Err(e) => kcore_plan(ranges@, segments@) == Err::<Seq<Block>, Reason>(e),
        },
{
    let mut loads: Vec<Segment> = Vec::new();
    let mut i: usize = 0;
    assert(segments@.take(0) =~= Seq::<Segment>::empty());
    while i < segments.len()
        invariant
            i <= segments@.len(),
            loads@ == loadable(segments@.take(i as int)),
        decreases segments@.len() - i,
    {
        proof {
            assert(segments@.take(i + 1).drop_last() =~= segments@.take(i as int));
            assert(segments@.take(i + 1).last() == segments@[i as int]);
        }
        if segments[i].p_type == PT_LOAD {
            loads.push(segments[i]);
        }
        i += 1;
    }
    assert(segments@.take(i as int) =~= segments@);
    let loads = sort_by_key(loads);
    if loads.len() == 0 {
        return Err(Reason::NoInitialAddresses);
    }
    if ranges.len() == 0 {
        return Err(Reason::NoInitialMemoryRange);
    }
    let base = loads[0].p_vaddr.saturating_sub(ranges[0].start);
    let mut physical: Vec<Block> = Vec::new();
    let mut j: usize = 0;
    assert(loads@.skip(0) =~= loads@);
    while j < loads.len()
        invariant
            j <= loads@.len(),
            physical_segments(loads@, base) == match physical_segments(
                loads@.skip(j as int),
                base,
            ) {
                Err(e) => Err::<Seq<Block>, Reason>(e),
                Ok(more) => Ok(physical@ + more),
            },
        decreases loads@.len() - j,
    {
        let ghost rest = loads@.skip(j as int);
        proof {
            assert(rest[0] == loads@[j as int]);
            assert(rest.drop_first() =~= loads@.skip(j + 1));
        }
        let start = match loads[j].p_vaddr.checked_sub(base) {
            Some(start) => start,
            None => {
                return Err(Reason::StartAddress);
            },
        };
        let end = match start.checked_add(loads[j].p_memsz) {
            Some(end) => end,
            None => {
                return Err(Reason::EndAddress);
            },
        };
        let block = Block { offset: loads[j].p_offset, range: start..end };
        proof {
            if let Ok(more) = physical_segments(rest.drop_first(), base) {
                assert(physical@ + (seq![block] + more) =~= physical@.push(block) + more);
            }
        }
        physical.push(block);
        j += 1;
    }
    proof {
        assert(loads@.skip(j as int) =~= Seq::<Segment>::empty());
        assert(physical@ + Seq::<Block>::empty() =~= physical@);
    }
    Ok(find_kcore_blocks(ranges, physical.as_slice()))
}

#[verifier::external_type_specification]
#[verifier::external_body]
pub struct ExParseError(elf::ParseError);

/// Whether bytes begin as an ELF file does: with the magic number, a class
/// of 32 or of 64 bits, a byte order, version 1 of the format, and as many
/// bytes as the file header of that class has.
pub open spec fn begins_as_elf(data: Seq<u8>) -> bool {
    &&& data.len() >= 16
    &&& data[0] == 0x7f
    &&& data[1] == 0x45
    &&& data[2] == 0x4c
    &&& data[3] == 0x46
    &&& (data[4] == 1 || data[4] == 2)
    &&& (data[5] == 1 || data[5] == 2)
    &&& data[6] == 1
    &&& data.len() >= if data[4] == 1 {
        52int
    } else {
        64int
    }
}

/// Calls `elf::ElfStream::open_stream` with the byte order of this machine
/// on a cursor over `data`, and copies four fields out of every program
/// header that `segments` then returns. The crate reads the file header,
/// the section headers and the program headers.
///
/// Which headers come out depends on the machine, so only this is claimed:
/// the crate first reads the sixteen bytes of the identification and then
/// the rest of the file header, and it gives up where they are not all
/// there, where the magic number or the version is wrong, and where the
/// class or the byte order is none that it knows.
#[verifier::external_body]
pub(crate) fn elf_program_headers(data: &[u8]) -> (r: Result<Vec<Segment>, elf::ParseError>)
    ensures
        r is Ok ==> begins_as_elf(data@),
{
    let file = ElfStream::<NativeEndian, _>::open_stream(Cursor::new(data))?;
    let mut out = Vec::new();
    for header in file.segments() {
        out.push(
            Segment {
                p_type: header.p_type,
                p_offset: header.p_offset,
                p_vaddr: header.p_vaddr,
                p_memsz: header.p_memsz,
            },
        );
    }
    Ok(out)
}

/// The text that `elf::ParseError` shows for itself.
#[verifier::external_body]
pub(crate) fn elf_error_text(error: &elf::ParseError) -> (text: String) {
    format!("{error}")
}

impl Reason {
    /// The reason in words.
    pub open spec fn text(&self) -> Seq<char> {
        match self {
            Reason::NoInitialAddresses => "no initial addresses"@,
            Reason::NoInitialMemoryRange => "no initial memory range"@,
            Reason::StartAddress => "unable to calculate start address"@,
            Reason::EndAddress => "unable to calculate end address"@,
            Reason::NoSourceAvailable => "no source available"@,
            Reason::AllSourcesFailed(text) => text@,
        }
    }

    /// The reason in words.
    pub fn describe(&self) -> (text: String)
        ensures
            text@ == self.text(),
    {
        match self {
            Reason::NoInitialAddresses => String::from_str("no initial addresses"),
            Reason::NoInitialMemoryRange => String::from_str("no initial memory range"),
            Reason::StartAddress => String::from_str("unable to calculate start address"),
            Reason::EndAddress => String::from_str("unable to calculate end address"),
            Reason::NoSourceAvailable => String::from_str("no source available"),
            Reason::AllSourcesFailed(text) => text.clone(),
        }
    }
}

/// Why no snapshot was made.
#[derive(Debug, PartialEq, Eq)]
pub enum Error {
    /// The core file is no ELF file that can be read; the text says why.
    Elf(String),
    /// `/proc/kcore` is there but cannot be used.
    LockedDownKcore,
    /// The snapshot is estimated to take more room than is allowed.
    DiskUsageEstimateExceeded { estimated: u64, allowed: u64 },
    /// Reading the memory or writing the container failed.
    UnableToCreateMemorySnapshot(crate::image::Error),
    /// The snapshot could not be made from this source.
    UnableToCreateSnapshotFromSource(Box<Error>, Source),
    /// The snapshot could not be made at all.
    UnableToCreateSnapshot(Reason),
    /// Something else failed: what, and the details.
    Other(String, String),
    /// The file system could not be asked; the text is what it said.
    Disk(String),
}

impl Error {
    /// What the failure says of itself.
    pub open spec fn message_text(&self) -> Seq<char> {
        match self {
            Error::Elf(text) => "unable to parse elf structures: "@ + text@,
            Error::LockedDownKcore => "locked down /proc/kcore"@,
            Error::DiskUsageEstimateExceeded { estimated, allowed } =>
                "estimated usage exceeds specified bounds: estimated size:"@ + decimal_text(
                    *estimated as nat,
                ) + " bytes. allowed:"@ + decimal_text(*allowed as nat) + " bytes"@,
            Error::UnableToCreateMemorySnapshot(_) => "unable to create memory snapshot"@,
            Error::UnableToCreateSnapshotFromSource(_, source) =>
                "unable to create memory snapshot from source: "@ + source.path_text(),
            Error::UnableToCreateSnapshot(reason) => "unable to create memory snapshot: "@
                + reason.text(),
            Error::Other(what, details) => what@ + ": "@ + details@,
            Error::Disk(_) => "disk error"@,
        }
    }

    /// What the failure says of itself.
    pub fn message(&self) -> (text: String)
        ensures
            text@ == self.message_text(),
    {
        match self {
            Error::Elf(detail) => {
                let mut text = String::from_str("unable to parse elf structures: ");
                text.append(detail.as_str());
                text
            },
            Error::LockedDownKcore => String::from_str("locked down /proc/kcore"),
            Error::DiskUsageEstimateExceeded { estimated, allowed } => {
                let mut text = String::from_str(
                    "estimated usage exceeds specified bounds: estimated size:",
                );
                text.append(decimal(*estimated).as_str());
                text.append(" bytes. allowed:");
                text.append(decimal(*allowed).as_str());
                text.append(" bytes");
                text
            },
            Error::UnableToCreateMemorySnapshot(_) => String::from_str(
                "unable to create memory snapshot",
            ),
            Error::UnableToCreateSnapshotFromSource(_, source) => {
                let mut text = String::from_str("unable to create memory snapshot from source: ");
                text.append(source.path().as_str());
                text
            },
            Error::UnableToCreateSnapshot(reason) => {
                let mut text = String::from_str("unable to create memory snapshot: ");
                text.append(reason.describe().as_str());
                text
            },
            Error::Other(what, details) => {
                let mut text = what.clone();
                text.append(": ");
                text.append(details.as_str());
                text
            },
            Error::Disk(_) => String::from_str("disk error"),
        }
    }

    /// The failure's message and, after it, those of its causes, the
    /// nearest first.
    pub open spec fn chain_texts(&self) -> Seq<Seq<char>>
        decreases self,
    {
        match self {
            Error::UnableToCreateMemorySnapshot(cause) => seq![self.message_text()]
                + cause.chain_texts(),
            Error::UnableToCreateSnapshotFromSource(cause, _) => seq![self.message_text()]
                + cause.chain_texts(),
            Error::Disk(cause) => seq![self.message_text(), cause@],
            _ => seq![self.message_text()],
        }
    }

    /// The failure's message and, after it, those of its causes, the
    /// nearest first.
    pub fn chain(&self) -> (messages: Vec<String>)
        ensures
            texts(messages@) == self.chain_texts(),
        decreases self,
    {
        let mut messages: Vec<String> = Vec::new();
        messages.push(self.message());
        match self {
            Error::UnableToCreateMemorySnapshot(cause) => {
                let mut more = cause.chain();
                let ghost first = messages@;
                let ghost rest = more@;
                messages.append(&mut more);
                assert(texts(first + rest) =~= texts(first) + texts(rest));
                assert(texts(first) =~= seq![self.message_text()]);
            },
            Error::UnableToCreateSnapshotFromSource(cause, _) => {
                let mut more = cause.chain();
                let ghost first = messages@;
                let ghost rest = more@;
                messages.append(&mut more);
                assert(texts(first + rest) =~= texts(first) + texts(rest));
                assert(texts(first) =~= seq![self.message_text()]);
            },
            Error::Disk(cause) => {
                messages.push(cause.clone());
                assert(texts(messages@) =~= seq![self.message_text(), cause@]);
            },
            _ => {
                assert(texts(messages@) =~= seq![self.message_text()]);
            },
        }
        messages
    }

    /// The failure with its causes as one text.
    pub open spec fn report_text(&self) -> Seq<char> {
        failure_text(self.chain_texts())
    }

    /// The failure with its causes as one text: `error:` and the message,
    /// then the causes, numbered.
    pub fn report(&self) -> (text: String)
        ensures
            text@ == self.report_text(),
    {
        format_error(&self.chain())
    }
}

/// What is to be made: from where, to where, of which ranges, in which
/// version of the container, and within how many megabytes.
pub struct Snapshot {
    pub source: Option<Source>,
    pub destination: String,
    pub memory_ranges: Vec<Range<u64>>,
    pub version: u32,
    pub max_disk_usage: Option<u64>,
}

/// Whether `/proc/kcore` can be used: it is larger than two pages, and it
/// can be opened. `len` is its size, if the file is there.
pub fn kcore_usable(len: Option<u64>, openable: bool) -> (usable: bool)
    ensures
        usable == (len matches Some(n) && n > 0x2000 && openable),
{
    match len {
        Some(n) => n > 0x2000 && openable,
        None => false,
    }
}

impl Snapshot {
    /// A snapshot of `memory_ranges` to `destination`, in version 1 of the
    /// container, from whichever source works, of any size.
    pub fn new(destination: &str, memory_ranges: Vec<Range<u64>>) -> (snapshot: Self)
        ensures
            snapshot.source is None,
            snapshot.destination@ == destination@,
            snapshot.memory_ranges@ == memory_ranges@,
            snapshot.version == 1,
            snapshot.max_disk_usage is None,
    {
        Self {
            source: None,
            destination: String::from_str(destination),
            memory_ranges,
            version: 1,
            max_disk_usage: None,
        }
    }

    /// Sets the number of megabytes that the snapshot may take. It is held
    /// against an estimate before memory is read.
    pub fn max_disk_usage(self, max_disk_usage: Option<u64>) -> (snapshot: Self)
        ensures
            snapshot == (Snapshot { max_disk_usage, ..self }),
    {
        Self { max_disk_usage, ..self }
    }

    /// Sets the source to read from, or leaves the choice open.
    pub fn source(self, source: Option<Source>) -> (snapshot: Self)
        ensures
            snapshot == (Snapshot { source, ..self }),
    {
        Self { source, ..self }
    }

    /// Sets the version of the container.
    pub fn version(self, version: u32) -> (snapshot: Self)
        ensures
            snapshot == (Snapshot { version, ..self }),
    {
        Self { version, ..self }
    }

    /// Finds the stretches of a core file that hold the ranges.
    pub fn find_kcore_blocks(ranges: &[Range<u64>], headers: &[Block]) -> (result: Vec<Block>)
        ensures
            result@ == kcore_blocks(ranges@, headers@),
    {
        find_kcore_blocks(ranges, headers)
    }

    /// The blocks to read from the memory device or file `mem`.
    pub fn phys(&self, mem: &str) -> (blocks: Vec<Block>)
        ensures
            blocks@ == device_blocks(self.memory_ranges@, mem@ == "/dev/crash"@),
    {
        phys_blocks(self.memory_ranges.as_slice(), mem)
    }

    /// The blocks to read from a core file with these program headers.
    pub fn kcore(&self, segments: &[Segment]) -> (r: Result<Vec<Block>, Error>)
        ensures
            match r {
                Ok(blocks) => kcore_plan(self.memory_ranges@, segments@) == Ok::<
                    Seq<Block>,
                    Reason,
                >(blocks@),
                Err(e) => e matches Error::UnableToCreateSnapshot(reason) && kcore_plan(
                    self.memory_ranges@,
                    segments@,
                ) == Err::<Seq<Block>, Reason>(reason),
            },
    {
        match plan_kcore(self.memory_ranges.as_slice(), segments) {
            Ok(blocks) => Ok(blocks),
            Err(reason) => Err(Error::UnableToCreateSnapshot(reason)),
        }
    }

    /// Reads the program headers of a core file from the bytes of its
    /// start. Bytes that do not begin as an ELF file does are refused; of
    /// the others the ELF reader decides, and which headers it finds is
    /// left to it. A file that it refuses is reported with the reader's
    /// words.
    pub fn kcore_segments(data: &[u8]) -> (r: Result<Vec<Segment>, Error>)
        ensures
            match r {
                Ok(_) => begins_as_elf(data@),
                Err(e) => e is Elf,
            },
    {
        match elf_program_headers(data) {
            Ok(segments) => Ok(segments),
            Err(error) => Err(Error::Elf(elf_error_text(&error))),
        }
    }

    /// Holds the estimated size of the snapshot against the megabytes
    /// allowed and against `limit`, the share of the disk allowed.
    pub fn check_disk_usage(&self, limit: Option<Limit>) -> (r: Result<(), Error>)
        ensures
            r == within_limits(self.memory_ranges@, self.max_disk_usage, limit),
    {
        check(self.memory_ranges.as_slice(), self.max_disk_usage, limit)
    }
}

/// What the caller is to do next.
#[derive(Debug, PartialEq, Eq)]
pub enum Action {
    /// Find out whether the source can be used, without reading from it.
    Probe(Source),
    /// Make the destination anew and write the snapshot from the source.
    Attempt(Source),
    /// Nothing more: the snapshot is made, or it failed for good.
    Finish(Result<(), Error>),
}

/// What the caller found.
#[derive(Debug, PartialEq, Eq)]
pub enum Event {
    /// Whether the source that was probed can be used.
    Probed(bool),
    /// How the attempt went.
    Attempted(Result<(), Error>),
}

/// How far the making of a snapshot has come.
#[derive(Debug, PartialEq, Eq)]
pub enum State {
    /// The source that the caller named is being tried.
    Named(Source),
    /// The output cannot be started over, so sources are probed before one
    /// is read: this is the number of the one being probed.
    Probing(usize),
    /// The source that was found usable is being tried.
    Chosen(Source),
    /// The sources are tried in turn: the number of the one being tried,
    /// and what those before it reported.
    Trying(usize, Vec<String>),
    /// There is nothing more to do.
    Done,
}

/// The sources in the order in which they are probed when the snapshot
/// goes to standard output.
pub open spec fn probe_order(k: int) -> Source {
    if k == 0 {
        Source::ProcKcore
    } else if k == 1 {
        Source::DevCrash
    } else {
        Source::DevMem
    }
}

/// The sources in the order in which they are tried when the snapshot goes
/// to a file.
pub open spec fn try_order(k: int) -> Source {
    if k == 0 {
        Source::DevCrash
    } else if k == 1 {
        Source::ProcKcore
    } else {
        Source::DevMem
    }
}

/// What one source adds to the report of the sources that failed: the
/// failure with its causes, indented by four spaces.
pub open spec fn attempt_report(error: Error) -> Seq<char> {
    indented(error.report_text(), 4)
}

/// The report of all sources that failed: an empty line, then what each
/// reported, all indented by four spaces more.
pub open spec fn failures_report(failures: Seq<Seq<char>>) -> Seq<char> {
    indented(joined(seq![Seq::<char>::empty()] + failures, "\n"@), 4)
}

/// The source that is probed as number `k`.
fn probe_source(k: usize) -> (source: Source)
    ensures
        source == probe_order(k as int),
{
    if k == 0 {
        Source::ProcKcore
    } else if k == 1 {
        Source::DevCrash
    } else {
        Source::DevMem
    }
}

/// The source that is tried as number `k`.
fn try_source(k: usize) -> (source: Source)
    ensures
        source == try_order(k as int),
{
    if k == 0 {
        Source::DevCrash
    } else if k == 1 {
        Source::ProcKcore
    } else {
        Source::DevMem
    }
}

/// The failure of a source that was probed or tried out of turn.
pub open spec fn out_of_turn(error: Error) -> bool {
    error matches Error::Other(what, details) && what@ == "unexpected event"@ && details@
        == Seq::<char>::empty()
}

impl Snapshot {
    /// Whether the snapshot goes to standard output.
    pub open spec fn to_stdout(&self) -> bool {
        self.destination@ == "/dev/stdout"@
    }

    /// The first thing to do. A source that the caller named is tried, and
    /// no other. Else, where the snapshot goes to standard output,
    /// `/proc/kcore` is probed first, for the output cannot be started
    /// over; where it goes to a file, `/dev/crash` is tried first.
    pub fn start(&self) -> (r: (State, Action))
        ensures
            match self.source {
                Some(source) => r.0 == State::Named(source) && r.1 == Action::Attempt(source),
                None => if self.to_stdout() {
                    r.0 == State::Probing(0) && r.1 == Action::Probe(probe_order(0))
                } else {
                    &&& r.0 matches State::Trying(k, failures)
                    &&& k == 0
                    &&& failures@.len() == 0
                    &&& r.1 == Action::Attempt(try_order(0))
                },
            },
    {
        match &self.source {
            Some(source) => (State::Named(source.clone()), Action::Attempt(source.clone())),
            None => {
                if same_text(self.destination.as_str(), "/dev/stdout") {
                    (State::Probing(0), Action::Probe(probe_source(0)))
                } else {
                    (State::Trying(0, Vec::new()), Action::Attempt(try_source(0)))
                }
            },
        }
    }
}

impl State {
    /// What follows from `event` in this state.
    ///
    /// A source that is tried on its own ends the work: with success, or
    /// with its failure under the name of the source. A source that was
    /// probed is tried where it can be used; else the next is probed, and
    /// after the last the work fails for want of a source. Of sources tried
    /// in turn, the first that succeeds ends the work. One that fails
    /// because the snapshot is estimated too large ends it too, with that
    /// failure. Any other failure is kept as a report, and the next source
    /// is tried; after the last, the work fails with all reports.
    pub fn next(self, event: Event) -> (r: (State, Action))
        ensures
            match (self, event) {
                (State::Named(source), Event::Attempted(Ok(()))) => r.0 is Done && r.1
                    == Action::Finish(Ok(())),
                (State::Chosen(source), Event::Attempted(Ok(()))) => r.0 is Done && r.1
                    == Action::Finish(Ok(())),
                (State::Trying(_, _), Event::Attempted(Ok(()))) => r.0 is Done && r.1
                    == Action::Finish(Ok(())),
                (State::Named(source), Event::Attempted(Err(e))) => r.0 is Done && r.1
                    == Action::Finish(
                    Err(Error::UnableToCreateSnapshotFromSource(Box::new(e), source)),
                ),
                (State::Chosen(source), Event::Attempted(Err(e))) => r.0 is Done && r.1
                    == Action::Finish(
                    Err(Error::UnableToCreateSnapshotFromSource(Box::new(e), source)),
                ),
                (State::Probing(k), Event::Probed(usable)) => if k >= 3 {
                    r.0 is Done && r.1 == Action::Finish(
                        Err(Error::UnableToCreateSnapshot(Reason::NoSourceAvailable)),
                    )
                } else if usable {
                    r.0 == State::Chosen(probe_order(k as int)) && r.1 == Action::Attempt(
                        probe_order(k as int),
                    )
                } else if k < 2 {
                    r.0 == State::Probing((k + 1) as usize) && r.1 == Action::Probe(
                        probe_order(k + 1),
                    )
                } else {
                    r.0 is Done && r.1 == Action::Finish(
                        Err(Error::UnableToCreateSnapshot(Reason::NoSourceAvailable)),
                    )
                },
                (State::Trying(k, failures), Event::Attempted(Err(e))) => {
                    let failed = Error::UnableToCreateSnapshotFromSource(
                        Box::new(e),
                        try_order(k as int),
                    );
                    let reports = texts(failures@).push(attempt_report(failed));
                    if e is DiskUsageEstimateExceeded {
                        r.0 is Done && r.1 == Action::Finish(Err(failed))
                    } else if k < 2 {
                        &&& r.0 matches State::Trying(n, kept)
                        &&& n == k + 1
                        &&& texts(kept@) == reports
                        &&& r.1 == Action::Attempt(try_order(k + 1))
                    } else {
                        &&& r.0 is Done
                        &&& r.1 matches Action::Finish(
                            Err(Error::UnableToCreateSnapshot(Reason::AllSourcesFailed(report))),
                        )
                        &&& report@ == failures_report(reports)
                    }
                },
                _ => {
                    &&& r.0 is Done
                    &&& r.1 matches Action::Finish(Err(e))
                    &&& out_of_turn(e)
                },
            },
    {
        match (self, event) {
            (State::Named(_), Event::Attempted(Ok(()))) => (State::Done, Action::Finish(Ok(()))),
            (State::Chosen(_), Event::Attempted(Ok(()))) => (State::Done, Action::Finish(Ok(()))),
            (State::Trying(_, _), Event::Attempted(Ok(()))) => (
                State::Done,
                Action::Finish(Ok(())),
            ),
            (State::Named(source), Event::Attempted(Err(e))) => (
                State::Done,
                Action::Finish(Err(Error::UnableToCreateSnapshotFromSource(Box::new(e), source))),
            ),
            (State::Chosen(source), Event::Attempted(Err(e))) => (
                State::Done,
                Action::Finish(Err(Error::UnableToCreateSnapshotFromSource(Box::new(e), source))),
            ),
            (State::Probing(k), Event::Probed(usable)) => {
                if k < 3 && usable {
                    (State::Chosen(probe_source(k)), Action::Attempt(probe_source(k)))
                } else if k < 2 {
                    (State::Probing(k + 1), Action::Probe(probe_source(k + 1)))
                } else {
                    (
                        State::Done,
                        Action::Finish(
                            Err(Error::UnableToCreateSnapshot(Reason::NoSourceAvailable)),
                        ),
                    )
                }
            },
            (State::Trying(k, failures), Event::Attempted(Err(e))) => {
                let exceeded = match &e {
                    Error::DiskUsageEstimateExceeded { .. } => true,
                    _ => false,
                };
                let failed = Error::UnableToCreateSnapshotFromSource(Box::new(e), try_source(k));
                if exceeded {
                    return (State::Done, Action::Finish(Err(failed)));
                }
                let mut failures = failures;
                let ghost before = failures@;
                let report = indent(failed.report().as_str(), 4);
                failures.push(report);
                assert(texts(failures@) =~= texts(before).push(attempt_report(failed)));
                if k < 2 {
                    (State::Trying(k + 1, failures), Action::Attempt(try_source(k + 1)))
                } else {
                    let mut lines: Vec<String> = Vec::new();
                    lines.push(String::new());
                    let ghost first = lines@;
                    let ghost rest = failures@;
                    lines.append(&mut failures);
                    assert(texts(first + rest) =~= seq![Seq::<char>::empty()] + texts(rest));
                    let reason = indent(join(&lines, "\n").as_str(), 4);
                    (
                        State::Done,
                        Action::Finish(
                            Err(Error::UnableToCreateSnapshot(Reason::AllSourcesFailed(reason))),
                        ),
                    )
                }
            },
            _ => (
                State::Done,
                Action::Finish(
                    Err(Error::Other(String::from_str("unexpected event"), String::new())),
                ),
            ),
        }
    }
}

} // verus!
