//! The physical address ranges of the machine's memory, as the kernel's
//! iomem table lists them.

use crate::image::span;
use crate::order::{lemma_sorted, lemma_sorted_same_elements, ordered, sort_by_key, sorted};
use crate::text::{index_of, lemma_index_of, lemma_index_of_bound, texts};
use std::ops::Range;
use vstd::prelude::*;
use vstd::slice::slice_subrange;
use vstd::string::StringExecFns;

verus! {

/// Whether address `x` lies in `range`.
pub open spec fn inside(range: Range<u64>, x: int) -> bool {
    range.start <= x < range.end
}

/// Whether address `x` lies in one of `ranges`.
pub open spec fn covers(ranges: Seq<Range<u64>>, x: int) -> bool {
    exists|i: int| 0 <= i < ranges.len() && inside(#[trigger] ranges[i], x)
}

/// Merging from the front: `rest` is taken one range at a time into
/// `current` as long as `current` reaches the start of the next range; the
/// merged range then ends where that next range ends.
pub open spec fn folded(current: Range<u64>, rest: Seq<Range<u64>>) -> Seq<Range<u64>>
    decreases rest.len(),
{
    if rest.len() == 0 {
        seq![current]
    } else if current.end >= rest[0].start {
        folded(current.start..rest[0].end, rest.drop_first())
    } else {
        seq![current] + folded(rest[0], rest.drop_first())
    }
}

/// `ranges`, which are in the order of their starts, with every run of
/// ranges that touch or overlap made one.
pub open spec fn merged(ranges: Seq<Range<u64>>) -> Seq<Range<u64>> {
    if ranges.len() == 0 {
        Seq::empty()
    } else {
        folded(ranges[0], ranges.drop_first())
    }
}

/// Sorts the ranges by their start and merges those that touch or overlap.
pub fn merge_ranges(ranges: Vec<Range<u64>>) -> (result: Vec<Range<u64>>)
    ensures
        result@ == merged(sorted(ranges@)),
{
    let ranges = sort_by_key(ranges);
    let mut result: Vec<Range<u64>> = Vec::new();
    if ranges.len() == 0 {
        return result;
    }
    let mut current: Range<u64> = ranges[0].start..ranges[0].end;
    let mut i: usize = 1;
    assert(ranges@.drop_first() =~= ranges@.skip(1));
    while i < ranges.len()
        invariant
            1 <= i <= ranges@.len(),
            merged(ranges@) == result@ + folded(current, ranges@.skip(i as int)),
        decreases ranges@.len() - i,
    {
        let ghost rest = ranges@.skip(i as int);
        assert(rest[0] == ranges@[i as int]);
        assert(rest.drop_first() =~= ranges@.skip(i + 1));
        if current.end >= ranges[i].start {
            current = current.start..ranges[i].end;
        } else {
            assert(result@.push(current) + folded(rest[0], rest.drop_first()) =~= result@ + (
            seq![current] + folded(rest[0], rest.drop_first())));
            result.push(current);
            current = ranges[i].start..ranges[i].end;
        }
        i += 1;
    }
    assert(result@.push(current) =~= result@ + folded(current, ranges@.skip(i as int)));
    result.push(current);
    result
}

/// In what merging yields from ranges in the order of their starts, the
/// starts do not fall, and each range ends below the start of the next.
pub proof fn lemma_folded_apart(current: Range<u64>, rest: Seq<Range<u64>>)
    requires
        ordered(seq![current] + rest),
    ensures
        folded(current, rest).len() >= 1,
        folded(current, rest)[0].start == current.start,
        forall|k: int|
            0 <= k < folded(current, rest).len() - 1 ==> (#[trigger] folded(current, rest)[k]).end
                < folded(current, rest)[k + 1].start,
        ordered(folded(current, rest)),
    decreases rest.len(),
{
    let all = seq![current] + rest;
    if rest.len() == 0 {
    } else {
        let tail = rest.drop_first();
        assert(all[0] == current && all[1] == rest[0]);
        if current.end >= rest[0].start {
            let wide = current.start..rest[0].end;
            assert forall|i: int, j: int| 0 <= i <= j < (seq![wide] + tail).len() implies (seq![
                wide,
            ] + tail)[i].start <= (seq![wide] + tail)[j].start by {
                if i > 0 {
                    assert((seq![wide] + tail)[i] == all[i + 1]);
                }
                if j > 0 {
                    assert((seq![wide] + tail)[j] == all[j + 1]);
                }
            }
            lemma_folded_apart(wide, tail);
        } else {
            assert forall|i: int, j: int| 0 <= i <= j < (seq![rest[0]] + tail).len() implies (seq![
                rest[0],
            ] + tail)[i].start <= (seq![rest[0]] + tail)[j].start by {
                assert((seq![rest[0]] + tail)[i] == all[i + 1]);
                assert((seq![rest[0]] + tail)[j] == all[j + 1]);
            }
            lemma_folded_apart(rest[0], tail);
            let inner = folded(rest[0], tail);
            let out = folded(current, rest);
            assert(out =~= seq![current] + inner);
            assert forall|k: int| 0 <= k < out.len() - 1 implies (#[trigger] out[k]).end < out[k
                + 1].start by {
                if k > 0 {
                    assert(out[k] == inner[k - 1] && out[k + 1] == inner[k]);
                } else {
                    assert(out[1] == inner[0]);
                }
            }
            assert forall|i: int, j: int| 0 <= i <= j < out.len() implies out[i].start
                <= out[j].start by {
                if i > 0 {
                    assert(out[i] == inner[i - 1] && out[j] == inner[j - 1]);
                } else if j > 0 {
                    assert(out[j] == inner[j - 1]);
                    assert(inner[0].start <= inner[j - 1].start);
                }
            }
        }
    }
}

/// An address that lies in a merged range lay in one of the ranges before.
pub proof fn lemma_folded_within(current: Range<u64>, rest: Seq<Range<u64>>, x: int)
    requires
        covers(folded(current, rest), x),
    ensures
        inside(current, x) || covers(rest, x),
    decreases rest.len(),
{
    let out = folded(current, rest);
    let k = choose|k: int| 0 <= k < out.len() && inside(#[trigger] out[k], x);
    if rest.len() == 0 {
    } else {
        let tail = rest.drop_first();
        if current.end >= rest[0].start {
            let wide = current.start..rest[0].end;
            lemma_folded_within(wide, tail, x);
            if inside(wide, x) {
                if !inside(current, x) {
                    assert(inside(rest[0], x));
                }
            } else {
                let i = choose|i: int| 0 <= i < tail.len() && inside(#[trigger] tail[i], x);
                assert(tail[i] == rest[i + 1]);
            }
        } else {
            let inner = folded(rest[0], tail);
            assert(out =~= seq![current] + inner);
            if k > 0 {
                assert(out[k] == inner[k - 1]);
                lemma_folded_within(rest[0], tail, x);
                if !inside(rest[0], x) {
                    let i = choose|i: int| 0 <= i < tail.len() && inside(#[trigger] tail[i], x);
                    assert(tail[i] == rest[i + 1]);
                }
            }
        }
    }
}

/// Where no range ends before one that comes earlier, every address of the
/// ranges lies in a merged range.
pub proof fn lemma_folded_keeps(current: Range<u64>, rest: Seq<Range<u64>>, x: int)
    requires
        ordered(seq![current] + rest),
        forall|i: int, j: int|
            0 <= i <= j < (seq![current] + rest).len() ==> (seq![current] + rest)[i].end <= (seq![
                current,
            ] + rest)[j].end,
        inside(current, x) || covers(rest, x),
    ensures
        covers(folded(current, rest), x),
    decreases rest.len(),
{
    let all = seq![current] + rest;
    let out = folded(current, rest);
    if rest.len() == 0 {
        assert(inside(out[0], x));
    } else {
        let tail = rest.drop_first();
        assert(all[0] == current && all[1] == rest[0]);
        let next = if current.end >= rest[0].start {
            current.start..rest[0].end
        } else {
            rest[0]
        };
        let shorter = seq![next] + tail;
        assert forall|i: int, j: int| 0 <= i <= j < shorter.len() implies shorter[i].start
            <= shorter[j].start && shorter[i].end <= shorter[j].end by {
            if i > 0 {
                assert(shorter[i] == all[i + 1]);
            }
            if j > 0 {
                assert(shorter[j] == all[j + 1]);
            }
            assert(all[0].start <= all[1].start && all[0].end <= all[1].end);
            assert(all[1].start <= all[j + 1].start && all[1].end <= all[j + 1].end);
        }
        let in_tail = covers(tail, x);
        if covers(rest, x) {
            let i = choose|i: int| 0 <= i < rest.len() && inside(#[trigger] rest[i], x);
            if i > 0 {
                assert(rest[i] == tail[i - 1]);
                assert(covers(tail, x));
            }
        }
        if current.end >= rest[0].start {
            assert(inside(next, x) || covers(tail, x));
            lemma_folded_keeps(next, tail, x);
        } else {
            let inner = folded(rest[0], tail);
            assert(out =~= seq![current] + inner);
            if inside(current, x) {
                assert(inside(out[0], x));
            } else {
                lemma_folded_keeps(next, tail, x);
                let k = choose|k: int| 0 <= k < inner.len() && inside(#[trigger] inner[k], x);
                assert(out[k + 1] == inner[k]);
            }
        }
    }
}

/// What `merge_ranges` yields is in the order of its starts, and no address
/// lies in two of its ranges: each range ends below the start of the next.
pub proof fn lemma_merge_sorted_disjoint(ranges: Seq<Range<u64>>)
    ensures
        ordered(merged(sorted(ranges))),
        forall|i: int, j: int|
            0 <= i < j < merged(sorted(ranges)).len() ==> (#[trigger] merged(
                sorted(ranges),
            )[i]).end < (#[trigger] merged(sorted(ranges))[j]).start,
        forall|i: int, j: int, x: int|
            0 <= i < j < merged(sorted(ranges)).len() ==> !(#[trigger] inside(
                merged(sorted(ranges))[i],
                x,
            ) && #[trigger] inside(merged(sorted(ranges))[j], x)),
{
    let s = sorted(ranges);
    let out = merged(s);
    lemma_sorted(ranges);
    if s.len() > 0 {
        assert(seq![s[0]] + s.drop_first() =~= s);
        lemma_folded_apart(s[0], s.drop_first());
        assert forall|i: int, j: int| 0 <= i < j < out.len() implies (#[trigger] out[i]).end < (
        #[trigger] out[j]).start by {
            assert(out[i].end < out[i + 1].start);
            assert(out[i + 1].start <= out[j].start);
        }
    }
}

/// Every address that lies in a range that `merge_ranges` yields lay in one
/// of the ranges it was given.
pub proof fn lemma_merge_within(ranges: Seq<Range<u64>>, x: int)
    requires
        covers(merged(sorted(ranges)), x),
    ensures
        covers(ranges, x),
{
    let s = sorted(ranges);
    lemma_sorted_same_elements(ranges);
    lemma_folded_within(s[0], s.drop_first(), x);
    let i = if inside(s[0], x) {
        0
    } else {
        1 + choose|i: int| 0 <= i < s.drop_first().len() && inside(
            #[trigger] s.drop_first()[i],
            x,
        )
    };
    assert(inside(s[i], x));
    assert(ranges.contains(s[i]));
    let j = choose|j: int| 0 <= j < ranges.len() && ranges[j] == s[i];
    assert(inside(ranges[j], x));
}

/// Whether a range that starts no later than another also ends no later.
/// It holds where no range lies inside another and ranges with one start
/// are equal.
pub open spec fn ends_follow_starts(ranges: Seq<Range<u64>>) -> bool {
    forall|i: int, j: int|
        0 <= i < ranges.len() && 0 <= j < ranges.len() && (#[trigger] ranges[i]).start <= (
        #[trigger] ranges[j]).start ==> ranges[i].end <= ranges[j].end
}

/// Where the ends of the ranges follow their starts, `merge_ranges` covers
/// exactly the addresses that the ranges cover.
pub proof fn lemma_merge_same_cover(ranges: Seq<Range<u64>>, x: int)
    requires
        ends_follow_starts(ranges),
    ensures
        covers(merged(sorted(ranges)), x) == covers(ranges, x),
{
    let s = sorted(ranges);
    lemma_sorted(ranges);
    lemma_sorted_same_elements(ranges);
    if covers(merged(s), x) {
        lemma_merge_within(ranges, x);
    }
    if covers(ranges, x) {
        let j = choose|j: int| 0 <= j < ranges.len() && inside(#[trigger] ranges[j], x);
        assert(s.contains(ranges[j]));
        let i = choose|i: int| 0 <= i < s.len() && s[i] == ranges[j];
        assert(seq![s[0]] + s.drop_first() =~= s);
        assert forall|a: int, b: int| 0 <= a <= b < s.len() implies s[a].end <= s[b].end by {
            assert(ranges.contains(s[a]) && ranges.contains(s[b]));
            let ra = choose|k: int| 0 <= k < ranges.len() && ranges[k] == s[a];
            let rb = choose|k: int| 0 <= k < ranges.len() && ranges[k] == s[b];
            assert(ranges[ra].start <= ranges[rb].start);
        }
        if i > 0 {
            assert(s.drop_first()[i - 1] == s[i]);
            assert(covers(s.drop_first(), x));
        }
        lemma_folded_keeps(s[0], s.drop_first(), x);
    }
}

/// The number of pieces of at most `max` addresses that `range` is cut into.
pub open spec fn piece_count(range: Range<u64>, max: u64) -> nat {
    if max == 0 {
        0
    } else {
        ((span(range) + max - 1) / (max as int)) as nat
    }
}

/// Piece number `k` of `range`: it starts `k` times `max` addresses into the
/// range and ends `max` addresses on, or where the range ends.
pub open spec fn piece_at(range: Range<u64>, max: u64, k: int) -> Range<u64> {
    let from = range.start + k * max;
    let to = if from + max < range.end {
        from + max
    } else {
        range.end as int
    };
    (from as u64)..(to as u64)
}

/// `range` cut into pieces of `max` addresses and a last one that may be
/// shorter. A range without addresses has no piece.
pub open spec fn pieces(range: Range<u64>, max: u64) -> Seq<Range<u64>> {
    Seq::new(piece_count(range, max), |k: int| piece_at(range, max, k))
}

/// The pieces of every range, in the order of the ranges.
pub open spec fn split(ranges: Seq<Range<u64>>, max: u64) -> Seq<Range<u64>>
    decreases ranges.len(),
{
    if ranges.len() == 0 {
        Seq::empty()
    } else {
        split(ranges.drop_last(), max) + pieces(ranges.last(), max)
    }
}

/// The last piece is the first that reaches the end of the range.
pub proof fn lemma_piece_count(range: Range<u64>, max: u64)
    requires
        max > 0,
    ensures
        span(range) == 0 ==> piece_count(range, max) == 0,
        span(range) > 0 ==> piece_count(range, max) >= 1 && (piece_count(range, max) - 1) * max
            < span(range) <= piece_count(range, max) * max,
{
    let n = span(range) as int;
    let m = max as int;
    let c = (n + m - 1) / m;
    assert(n == 0 ==> c == 0) by (nonlinear_arith)
        requires
            m > 0,
            c == (n + m - 1) / m,
    ;
    assert(n > 0 ==> c >= 1 && (c - 1) * m < n <= c * m) by (nonlinear_arith)
        requires
            m > 0,
            n >= 0,
            c == (n + m - 1) / m,
    ;
}

/// Cuts every range into pieces of at most `max_size` addresses. Ranges
/// without addresses are dropped.
pub fn split_ranges(ranges: Vec<Range<u64>>, max_size: u64) -> (result: Vec<Range<u64>>)
    requires
        max_size > 0,
    ensures
        result@ == split(ranges@, max_size),
{
    let mut result: Vec<Range<u64>> = Vec::new();
    let mut i: usize = 0;
    assert(ranges@.take(0) =~= Seq::<Range<u64>>::empty());
    while i < ranges.len()
        invariant
            max_size > 0,
            i <= ranges@.len(),
            result@ == split(ranges@.take(i as int), max_size),
        decreases ranges@.len() - i,
    {
        let ghost range = ranges@[i as int];
        let ghost base = result@;
        let end = ranges[i].end;
        let mut start = ranges[i].start;
        let ghost mut k: int = 0;
        proof {
            lemma_piece_count(range, max_size);
            assert(ranges@.take(i + 1).drop_last() =~= ranges@.take(i as int));
            assert(ranges@.take(i + 1).last() == range);
            assert(base + pieces(range, max_size).take(0) =~= base);
        }
        if start < end {
            while end - start > max_size
                invariant
                    max_size > 0,
                    range.end == end,
                    range.start < end,
                    start == range.start + k * max_size,
                    start < end,
                    0 <= k < piece_count(range, max_size),
                    (piece_count(range, max_size) - 1) * max_size < span(range) <= piece_count(
                        range,
                        max_size,
                    ) * max_size,
                    result@ == base + pieces(range, max_size).take(k),
                decreases end - start,
            {
                proof {
                    let c = piece_count(range, max_size) as int;
                    assert(k + 1 < c) by (nonlinear_arith)
                        requires
                            span(range) <= c * max_size,
                            span(range) - k * max_size > max_size,
                            max_size > 0,
                    ;
                    assert(pieces(range, max_size).take(k + 1) =~= pieces(range, max_size).take(
                        k,
                    ).push(start..(start + max_size) as u64));
                    assert((k + 1) * max_size == k * max_size + max_size) by (nonlinear_arith);
                }
                result.push(start..start + max_size);
                start += max_size;
                proof {
                    k = k + 1;
                }
            }
            proof {
                let c = piece_count(range, max_size) as int;
                assert(k == c - 1) by (nonlinear_arith)
                    requires
                        0 <= k < c,
                        (c - 1) * max_size < span(range),
                        span(range) - k * max_size <= max_size,
                        max_size > 0,
                ;
                assert(pieces(range, max_size) =~= pieces(range, max_size).take(k).push(
                    start..end,
                ));
            }
            result.push(start..end);
        } else {
            assert(pieces(range, max_size) =~= Seq::<Range<u64>>::empty());
        }
        i += 1;
    }
    assert(ranges@.take(i as int) =~= ranges@);
    result
}

/// Every piece holds at least one address and at most `max`, and lies in
/// its range.
pub proof fn lemma_piece(range: Range<u64>, max: u64, k: int)
    requires
        max > 0,
        0 <= k < piece_count(range, max),
    ensures
        0 < span(piece_at(range, max, k)) <= max,
        range.start <= piece_at(range, max, k).start,
        piece_at(range, max, k).end <= range.end,
        piece_at(range, max, k).start == range.start + k * max,
        k + 1 < piece_count(range, max) ==> piece_at(range, max, k).end == piece_at(
            range,
            max,
            k + 1,
        ).start,
        k + 1 == piece_count(range, max) ==> piece_at(range, max, k).end == range.end,
{
    lemma_piece_count(range, max);
    let c = piece_count(range, max) as int;
    let n = span(range) as int;
    assert(0 <= k * max && k * max < n && (k + 1 < c ==> k * max + max < n) && (k + 1 == c
        ==> k * max + max >= n) && (k + 1) * max == k * max + max) by (nonlinear_arith)
        requires
            0 <= k < c,
            (c - 1) * max < n <= c * max,
            max > 0,
    ;
}

/// Every range that `split_ranges` yields holds at least one address and at
/// most `max`.
pub proof fn lemma_split_bounded(ranges: Seq<Range<u64>>, max: u64, i: int)
    requires
        max > 0,
        0 <= i < split(ranges, max).len(),
    ensures
        0 < span(split(ranges, max)[i]) <= max,
    decreases ranges.len(),
{
    if ranges.len() > 0 {
        let head = split(ranges.drop_last(), max);
        if i < head.len() {
            lemma_split_bounded(ranges.drop_last(), max, i);
        } else {
            lemma_piece(ranges.last(), max, i - head.len());
        }
    }
}

/// The pieces of a range cover exactly the addresses of the range.
pub proof fn lemma_pieces_same_cover(range: Range<u64>, max: u64, x: int)
    requires
        max > 0,
    ensures
        covers(pieces(range, max), x) == inside(range, x),
{
    let p = pieces(range, max);
    lemma_piece_count(range, max);
    if covers(p, x) {
        let k = choose|k: int| 0 <= k < p.len() && inside(#[trigger] p[k], x);
        lemma_piece(range, max, k);
    }
    if inside(range, x) {
        let c = piece_count(range, max) as int;
        let n = span(range) as int;
        let d = x - range.start;
        let k = d / (max as int);
        assert(0 <= k < c && k * max <= d < k * max + max) by (nonlinear_arith)
            requires
                0 <= d < n,
                n <= c * max,
                max > 0,
                k == d / (max as int),
        ;
        lemma_piece(range, max, k);
        assert(inside(p[k], x));
    }
}

/// What `split_ranges` yields covers exactly the addresses that the ranges
/// cover.
pub proof fn lemma_split_same_cover(ranges: Seq<Range<u64>>, max: u64, x: int)
    requires
        max > 0,
    ensures
        covers(split(ranges, max), x) == covers(ranges, x),
    decreases ranges.len(),
{
    if ranges.len() > 0 {
        let front = ranges.drop_last();
        let head = split(front, max);
        let tail = pieces(ranges.last(), max);
        let out = split(ranges, max);
        lemma_split_same_cover(front, max, x);
        lemma_pieces_same_cover(ranges.last(), max, x);
        if covers(out, x) {
            let i = choose|i: int| 0 <= i < out.len() && inside(#[trigger] out[i], x);
            if i < head.len() {
                assert(inside(head[i], x));
                let j = choose|j: int| 0 <= j < front.len() && inside(#[trigger] front[j], x);
                assert(inside(ranges[j], x));
            } else {
                assert(inside(tail[i - head.len()], x));
                assert(inside(ranges[ranges.len() - 1], x));
            }
        }
        if covers(ranges, x) {
            let j = choose|j: int| 0 <= j < ranges.len() && inside(#[trigger] ranges[j], x);
            if j < front.len() {
                assert(inside(front[j], x));
                let i = choose|i: int| 0 <= i < head.len() && inside(#[trigger] head[i], x);
                assert(inside(out[i], x));
            } else {
                let i = choose|i: int| 0 <= i < tail.len() && inside(#[trigger] tail[i], x);
                assert(inside(out[head.len() + i], x));
            }
        }
    }
}

/// Why the iomem table could not be read.
#[derive(Debug, PartialEq, Eq)]
pub enum Error {
    /// The table could not be read from the system, which said this.
    /// Reading is the caller's part: `parse` never fails this way.
    Io(String),
    /// A bound is not a hexadecimal number of 64 bits, or the range ends at
    /// the last address there is.
    Parse,
    /// A line for System RAM has a first bound and no second.
    ParseLine,
    /// The kernel shows the range 0-0, as it does to a reader without
    /// `CAP_SYS_ADMIN`.
    PermissionDenied,
}

impl Error {
    /// What the failure says of itself.
    pub open spec fn message_text(&self) -> Seq<char> {
        match self {
            Error::Io(_) => "unable to read from /proc/iomem"@,
            Error::Parse => "unable to parse value"@,
            Error::ParseLine => "unable to parse line: invalid range end"@,
            Error::PermissionDenied => "need CAP_SYS_ADMIN to read /proc/iomem"@,
        }
    }

    /// What the failure says of itself.
    pub fn message(&self) -> (text: String)
        ensures
            text@ == self.message_text(),
    {
        match self {
            Error::Io(_) => String::from_str("unable to read from /proc/iomem"),
            Error::Parse => String::from_str("unable to parse value"),
            Error::ParseLine => String::from_str("unable to parse line: invalid range end"),
            Error::PermissionDenied => String::from_str("need CAP_SYS_ADMIN to read /proc/iomem"),
        }
    }

    /// The failure's message and, after it, that of its cause.
    pub open spec fn chain_texts(&self) -> Seq<Seq<char>> {
        match self {
            Error::Io(cause) => seq![self.message_text(), cause@],
            _ => seq![self.message_text()],
        }
    }

    /// The failure's message and, after it, that of its cause.
    pub fn chain(&self) -> (messages: Vec<String>)
        ensures
            texts(messages@) == self.chain_texts(),
    {
        let mut messages: Vec<String> = Vec::new();
        messages.push(self.message());
        if let Error::Io(cause) = self {
            messages.push(cause.clone());
        }
        assert(texts(messages@) =~= self.chain_texts());
        messages
    }
}

/// The value of a hexadecimal digit.
pub open spec fn hex_digit(b: u8) -> Option<int> {
    if 48 <= b <= 57 {
        Some(b - 48)
    } else if 97 <= b <= 102 {
        Some(b - 87)
    } else if 65 <= b <= 70 {
        Some(b - 55)
    } else {
        None
    }
}

/// The number that hexadecimal digits spell, however large; `None` where
/// one of them is no digit. No digits spell zero.
pub open spec fn hex_value(digits: Seq<u8>) -> Option<int>
    decreases digits.len(),
{
    if digits.len() == 0 {
        Some(0)
    } else {
        match (hex_value(digits.drop_last()), hex_digit(digits.last())) {
            (Some(high), Some(low)) => Some(16 * high + low),
            _ => None,
        }
    }
}

/// A bound of a range: an optional `+`, then at least one hexadecimal
/// digit, spelling a number of at most 64 bits.
pub open spec fn parse_hex(text: Seq<u8>) -> Option<u64> {
    let digits = if text.len() > 0 && text[0] == 43 {
        text.drop_first()
    } else {
        text
    };
    if digits.len() == 0 {
        None
    } else {
        match hex_value(digits) {
            Some(v) => if v <= u64::MAX {
                Some(v as u64)
            } else {
                None
            },
            None => None,
        }
    }
}

/// The digits that are spelled so far never spell more than all of them.
proof fn lemma_hex_value_grows(digits: Seq<u8>, n: int)
    requires
        0 <= n <= digits.len(),
        hex_value(digits) is Some,
    ensures
        hex_value(digits.take(n)) is Some,
        0 <= hex_value(digits.take(n)).unwrap() <= hex_value(digits).unwrap(),
    decreases digits.len() - n,
{
    if n == digits.len() {
        assert(digits.take(n) =~= digits);
        lemma_hex_value_nonnegative(digits);
    } else {
        lemma_hex_value_grows(digits, n + 1);
        assert(digits.take(n + 1).drop_last() =~= digits.take(n));
    }
}

/// Digits spell no number below zero.
proof fn lemma_hex_value_nonnegative(digits: Seq<u8>)
    requires
        hex_value(digits) is Some,
    ensures
        hex_value(digits).unwrap() >= 0,
    decreases digits.len(),
{
    if digits.len() > 0 {
        lemma_hex_value_nonnegative(digits.drop_last());
    }
}

/// Reads a bound of a range.
#[verifier::loop_isolation(false)]
pub fn hex_u64(text: &[u8]) -> (r: Option<u64>)
    ensures
        r == parse_hex(text@),
{
    let first: usize = if text.len() > 0 && text[0] == 43 {
        1
    } else {
        0
    };
    if first == text.len() {
        return None;
    }
    let ghost digits = text@.skip(first as int);
    assert(first == 1 ==> text@.drop_first() =~= digits);
    assert(first == 0 ==> text@ =~= digits);
    let mut value: u64 = 0;
    let mut i: usize = first;
    assert(digits.take(0) =~= Seq::<u8>::empty());
    while i < text.len()
        invariant
            first <= i <= text@.len(),
            digits == text@.skip(first as int),
            hex_value(digits.take(i - first)) == Some(value as int),
        decreases text@.len() - i,
    {
        let b = text[i];
        let digit: u64 = if 48 <= b && b <= 57 {
            (b - 48) as u64
        } else if 97 <= b && b <= 102 {
            (b - 87) as u64
        } else if 65 <= b && b <= 70 {
            (b - 55) as u64
        } else {
            proof {
                let upto = digits.take(i - first + 1);
                assert(upto.drop_last() =~= digits.take(i - first));
                assert(upto.last() == b);
                assert(hex_value(upto) is None);
                lemma_hex_prefix_fails(digits, i - first + 1);
            }
            return None;
        };
        proof {
            let upto = digits.take(i - first + 1);
            assert(upto.drop_last() =~= digits.take(i - first));
            assert(upto.last() == b);
            assert(hex_value(upto) == Some(16 * value + digit));
        }
        if value > (u64::MAX - digit) / 16 {
            proof {
                if hex_value(digits) is Some {
                    lemma_hex_value_grows(digits, i - first + 1);
                }
            }
            return None;
        }
        value = value * 16 + digit;
        i += 1;
    }
    assert(digits.take(i - first) =~= digits);
    Some(value)
}

/// Digits of which the first `n` spell no number spell no number.
proof fn lemma_hex_prefix_fails(digits: Seq<u8>, n: int)
    requires
        0 <= n <= digits.len(),
        hex_value(digits.take(n)) is None,
    ensures
        hex_value(digits) is None,
    decreases digits.len() - n,
{
    if n == digits.len() {
        assert(digits.take(n) =~= digits);
    } else {
        assert(digits.take(n + 1).drop_last() =~= digits.take(n));
        lemma_hex_prefix_fails(digits, n + 1);
    }
}

/// Finds the first byte `b` in `s` from index `from` on.
fn find_byte(s: &[u8], from: usize, b: u8) -> (at: usize)
    requires
        from <= s@.len(),
    ensures
        from <= at <= s@.len(),
        at - from == index_of(s@.skip(from as int), b),
{
    let mut at = from;
    while at < s.len() && s[at] != b
        invariant
            from <= at <= s@.len(),
            forall|i: int| from <= i < at ==> s@[i] != b,
        decreases s@.len() - at,
    {
        at += 1;
    }
    proof {
        lemma_index_of(s@.skip(from as int), b, at - from);
    }
    at
}

/// The lines of a text: the stretches between line feeds. A line feed at
/// the very end starts no further line.
pub open spec fn lines_of(text: Seq<u8>) -> Seq<Seq<u8>>
    decreases text.len(),
{
    if text.len() == 0 {
        Seq::empty()
    } else {
        let end = index_of(text, 10);
        if end >= text.len() {
            seq![text]
        } else {
            seq![text.take(end as int)] + lines_of(text.skip(end as int + 1))
        }
    }
}

/// A text that is not empty has a first line, and its other lines are the
/// lines of what follows the first line feed.
proof fn lemma_lines_step(text: Seq<u8>)
    requires
        text.len() > 0,
    ensures
        index_of(text, 10) <= text.len(),
        index_of(text, 10) < text.len() ==> lines_of(text) == seq![
            text.take(index_of(text, 10) as int),
        ] + lines_of(text.skip(index_of(text, 10) as int + 1)),
        index_of(text, 10) == text.len() ==> lines_of(text) == seq![
            text.take(index_of(text, 10) as int),
        ] + lines_of(Seq::<u8>::empty()),
{
    lemma_index_of_bound(text, 10);
    if index_of(text, 10) == text.len() {
        assert(text.take(text.len() as int) =~= text);
        assert(seq![text] + Seq::<Seq<u8>>::empty() =~= seq![text]);
    }
}

/// Whether the three bytes space, colon, space stand at index `i` of `s`.
pub open spec fn separator_at(s: Seq<u8>, i: int) -> bool {
    0 <= i && i + 3 <= s.len() && s[i] == 32 && s[i + 1] == 58 && s[i + 2] == 32
}

/// Whether `b` is a blank: a space, a tab, a line feed, a vertical tab, a
/// form feed or a carriage return.
pub open spec fn is_blank(b: u8) -> bool {
    b == 32 || (9 <= b <= 13)
}

/// The bytes of the words `System RAM`.
pub open spec fn system_ram() -> Seq<u8> {
    seq![83u8, 121u8, 115u8, 116u8, 101u8, 109u8, 32u8, 82u8, 65u8, 77u8]
}

/// Whether a label, with the blanks at its ends taken off, reads
/// `System RAM`.
pub open spec fn is_system_ram(label: Seq<u8>) -> bool {
    exists|k: int|
        0 <= k && k + 10 <= label.len() && #[trigger] label.subrange(k, k + 10) == system_ram()
            && (forall|j: int| 0 <= j < k ==> is_blank(label[j])) && (forall|j: int|
            k + 10 <= j < label.len() ==> is_blank(label[j]))
}

/// The label of a line: what follows the first space, colon, space. `None`
/// where the line has no label.
pub open spec fn label_of(line: Seq<u8>) -> Option<Seq<u8>> {
    if exists|i: int| separator_at(line, i) {
        let first = choose|i: int|
            separator_at(line, i) && forall|j: int| 0 <= j < i ==> !separator_at(line, j);
        Some(line.skip(first + 3))
    } else {
        None
    }
}

/// Whether a line stands for a range of System RAM: it is not indented, so
/// it is no part of another range, and its label reads `System RAM`.
#[verifier::opaque]
pub open spec fn is_ram_line(line: Seq<u8>) -> bool {
    &&& line.len() > 0
    &&& line[0] != 32
    &&& label_of(line) matches Some(label)
    &&& is_system_ram(label)
}

/// The range that a line for System RAM gives. Its first word holds the two
/// bounds with a hyphen between them: the first address and the last. What
/// follows a second hyphen is not read.
#[verifier::opaque]
pub open spec fn range_of(line: Seq<u8>) -> Result<Range<u64>, Error> {
    let word = line.take(index_of(line, 32) as int);
    let hyphen = index_of(word, 45);
    match parse_hex(word.take(hyphen as int)) {
        None => Err(Error::Parse),
        Some(start) => {
            if hyphen + 1 >= word.len() {
                Err(Error::ParseLine)
            } else {
                let rest = word.skip(hyphen as int + 1);
                match parse_hex(rest.take(index_of(rest, 45) as int)) {
                    None => Err(Error::Parse),
                    Some(last) => if start == 0 && last == 0 {
                        Err(Error::PermissionDenied)
                    } else if last == u64::MAX {
                        Err(Error::Parse)
                    } else {
                        Ok(start..(last + 1) as u64)
                    },
                }
            }
        },
    }
}

/// The ranges that the lines give, in the order of the lines, or what is
/// wrong with the first line that gives none.
pub open spec fn ranges_of(lines: Seq<Seq<u8>>) -> Result<Seq<Range<u64>>, Error>
    decreases lines.len(),
{
    if lines.len() == 0 {
        Ok(Seq::empty())
    } else if !is_ram_line(lines[0]) {
        ranges_of(lines.drop_first())
    } else {
        match range_of(lines[0]) {
            Err(e) => Err(e),
            Ok(range) => match ranges_of(lines.drop_first()) {
                Err(e) => Err(e),
                Ok(more) => Ok(seq![range] + more),
            },
        }
    }
}

/// The ranges of System RAM that an iomem table lists, sorted and merged.
pub open spec fn parsed(text: Seq<u8>) -> Result<Seq<Range<u64>>, Error> {
    match ranges_of(lines_of(text)) {
        Err(e) => Err(e),
        Ok(ranges) => Ok(merged(sorted(ranges))),
    }
}

/// The label of a line starts after its first separator.
proof fn lemma_first_separator(line: Seq<u8>, at: int)
    requires
        separator_at(line, at),
        forall|j: int| 0 <= j < at ==> !separator_at(line, j),
    ensures
        label_of(line) == Some(line.skip(at + 3)),
{
    let first = choose|i: int|
        separator_at(line, i) && forall|j: int| 0 <= j < i ==> !separator_at(line, j);
    if first < at {
        assert(!separator_at(line, first));
    }
    if at < first {
        assert(!separator_at(line, at));
    }
}

/// Whether a label reads `System RAM` between blanks.
#[verifier::loop_isolation(false)]
fn label_is_system_ram(label: &[u8]) -> (yes: bool)
    ensures
        yes == is_system_ram(label@),
{
    let name: [u8; 10] = [83, 121, 115, 116, 101, 109, 32, 82, 65, 77];
    assert(name@ =~= system_ram());
    let mut k: usize = 0;
    while k < label.len() && (label[k] == 32 || (9 <= label[k] && label[k] <= 13))
        invariant
            k <= label@.len(),
            forall|j: int| 0 <= j < k ==> is_blank(label@[j]),
        decreases label@.len() - k,
    {
        k += 1;
    }
    // Any place where the words can stand starts at the first byte that is
    // no blank.
    assert forall|w: int|
        0 <= w && w + 10 <= label@.len() && #[trigger] label@.subrange(w, w + 10) == system_ram()
            && (forall|j: int| 0 <= j < w ==> is_blank(label@[j])) implies w == k by {
        assert(label@.subrange(w, w + 10)[0] == 83);
        assert(label@[w] == 83);
        if k < w {
            assert(is_blank(label@[k as int]));
        }
    }
    if label.len() - k < 10 {
        return false;
    }
    let mut i: usize = 0;
    while i < 10
        invariant
            i <= 10,
            k + 10 <= label@.len(),
            name@ == system_ram(),
            forall|j: int| 0 <= j < i ==> label@[k + j] == system_ram()[j],
        decreases 10 - i,
    {
        if label[k + i] != name[i] {
            assert(label@.subrange(k as int, k + 10)[i as int] == label@[k + i]);
            return false;
        }
        i += 1;
    }
    assert(label@.subrange(k as int, k + 10) =~= system_ram());
    let mut j: usize = k + 10;
    while j < label.len()
        invariant
            k + 10 <= j <= label@.len(),
            forall|t: int| k + 10 <= t < j ==> is_blank(label@[t]),
        decreases label@.len() - j,
    {
        if !(label[j] == 32 || (9 <= label[j] && label[j] <= 13)) {
            return false;
        }
        j += 1;
    }
    true
}

/// Whether a line stands for a range of System RAM.
#[verifier::loop_isolation(false)]
fn line_is_ram(line: &[u8]) -> (yes: bool)
    ensures
        yes == is_ram_line(line@),
{
    reveal(is_ram_line);
    if line.len() == 0 || line[0] == 32 {
        return false;
    }
    if line.len() < 3 {
        assert(forall|j: int| !separator_at(line@, j));
        return false;
    }
    let mut i: usize = 0;
    while i <= line.len() - 3
        invariant
            i <= line@.len(),
            forall|j: int| 0 <= j < i ==> !separator_at(line@, j),
        decreases line@.len() - i,
    {
        if line[i] == 32 && line[i + 1] == 58 && line[i + 2] == 32 {
            proof {
                lemma_first_separator(line@, i as int);
            }
            let label = slice_subrange(line, i + 3, line.len());
            assert(label@ =~= line@.skip(i + 3));
            return label_is_system_ram(label);
        }
        i += 1;
    }
    assert forall|j: int| !separator_at(line@, j) by {
        if separator_at(line@, j) {
            assert(j < i);
        }
    }
    false
}

/// Reads the range that a line for System RAM gives.
fn line_range(line: &[u8]) -> (r: Result<Range<u64>, Error>)
    ensures
        r == range_of(line@),
{
    reveal(range_of);
    let space = find_byte(line, 0, 32);
    assert(line@.skip(0) =~= line@);
    let word = slice_subrange(line, 0, space);
    assert(word@ =~= line@.take(space as int));
    let hyphen = find_byte(word, 0, 45);
    assert(word@.skip(0) =~= word@);
    let first = slice_subrange(word, 0, hyphen);
    assert(first@ =~= word@.take(hyphen as int));
    let start = match hex_u64(first) {
        Some(start) => start,
        None => {
            return Err(Error::Parse);
        },
    };
    if hyphen >= word.len() || hyphen + 1 >= word.len() {
        return Err(Error::ParseLine);
    }
    let end = find_byte(word, hyphen + 1, 45);
    let second = slice_subrange(word, hyphen + 1, end);
    proof {
        let rest = word@.skip(hyphen + 1);
        assert(second@ =~= rest.take(index_of(rest, 45) as int));
    }
    let last = match hex_u64(second) {
        Some(last) => last,
        None => {
            return Err(Error::Parse);
        },
    };
    if start == 0 && last == 0 {
        return Err(Error::PermissionDenied);
    }
    if last == u64::MAX {
        return Err(Error::Parse);
    }
    Ok(start..last + 1)
}

/// `found`, then what the remaining lines give.
pub open spec fn found_then(found: Seq<Range<u64>>, rest: Result<Seq<Range<u64>>, Error>)
    -> Result<Seq<Range<u64>>, Error> {
    match rest {
        Err(e) => Err(e),
        Ok(more) => Ok(found + more),
    }
}

/// What the first of some lines adds to the ranges that the others give.
proof fn lemma_ranges_step(found: Seq<Range<u64>>, line: Seq<u8>, after: Seq<Seq<u8>>)
    ensures
        !is_ram_line(line) ==> found_then(found, ranges_of(seq![line] + after)) == found_then(
            found,
            ranges_of(after),
        ),
        is_ram_line(line) ==> match range_of(line) {
            Err(e) => found_then(found, ranges_of(seq![line] + after)) == Err::<
                Seq<Range<u64>>,
                Error,
            >(e),
            Ok(range) => found_then(found, ranges_of(seq![line] + after)) == found_then(
                found.push(range),
                ranges_of(after),
            ),
        },
{
    let lines = seq![line] + after;
    assert(lines[0] == line);
    assert(lines.drop_first() =~= after);
    if is_ram_line(line) {
        if let Ok(range) = range_of(line) {
            if let Ok(more) = ranges_of(after) {
                assert(found + (seq![range] + more) =~= found.push(range) + more);
            }
        }
    }
}

/// Reads the ranges of System RAM from the text of an iomem table.
///
/// Each line that is not indented and whose label reads `System RAM` gives
/// one range, from its first bound to one past its second. The ranges are
/// sorted by their start and merged where they touch or overlap.
pub fn parse(text: &[u8]) -> (r: Result<Vec<Range<u64>>, Error>)
    ensures
        match r {
            Ok(ranges) => parsed(text@) == Ok::<Seq<Range<u64>>, Error>(ranges@),
            Err(e) => parsed(text@) == Err::<Seq<Range<u64>>, Error>(e),
        },
{
    let mut ranges: Vec<Range<u64>> = Vec::new();
    let mut at: usize = 0;
    assert(text@.skip(0) =~= text@);
    assert(ranges_of(lines_of(text@)) is Ok ==> ranges@ + ranges_of(lines_of(text@)).unwrap()
        =~= ranges_of(lines_of(text@)).unwrap());
    while at < text.len()
        invariant
            at <= text@.len(),
            ranges_of(lines_of(text@)) == found_then(
                ranges@,
                ranges_of(lines_of(text@.skip(at as int))),
            ),
        decreases text@.len() - at,
    {
        let ghost rest = text@.skip(at as int);
        let end = find_byte(text, at, 10);
        let line = slice_subrange(text, at, end);
        let next = if end < text.len() {
            end + 1
        } else {
            end
        };
        let ghost after = lines_of(text@.skip(next as int));
        proof {
            assert(line@ =~= rest.take(end - at));
            if end < text@.len() {
                assert(rest.skip(end - at + 1) =~= text@.skip(next as int));
            } else {
                assert(text@.skip(next as int) =~= Seq::<u8>::empty());
            }
            lemma_lines_step(rest);
            assert(lines_of(rest) == seq![line@] + after);
            lemma_ranges_step(ranges@, line@, after);
        }
        if line_is_ram(line) {
            let range = line_range(line)?;
            ranges.push(range);
        }
        at = next;
    }
    proof {
        assert(text@.skip(at as int) =~= Seq::<u8>::empty());
        assert(ranges@ + Seq::<Range<u64>>::empty() =~= ranges@);
    }
    Ok(merge_ranges(ranges))
}

} // verus!
