use avml::image::Block;
use avml::iomem::{merge_ranges, split_ranges};
use avml::snapshot::find_kcore_blocks;
use std::ops::Range;

fn covered(ranges: &[Range<u64>], x: u64) -> bool {
    ranges.iter().any(|r| r.start <= x && x < r.end)
}

/// A few lists of ranges over the addresses below 40.
fn samples() -> Vec<Vec<Range<u64>>> {
    vec![
        vec![],
        vec![3..9],
        vec![0..3, 3..6, 7..10, 12..15],
        vec![20..30, 0..5, 5..8, 25..35, 10..12],
        vec![1..2, 2..3, 3..4, 4..5],
        vec![30..39, 10..20, 15..25, 0..1],
        vec![7..7, 8..12, 12..12, 12..13],
    ]
}

#[test]
fn merged_ranges_are_sorted_apart_and_cover_the_same() {
    for ranges in samples() {
        let merged = merge_ranges(ranges.clone());
        for pair in merged.windows(2) {
            assert!(pair[0].start <= pair[1].start);
            assert!(pair[0].end < pair[1].start);
        }
        for x in 0..40 {
            assert_eq!(covered(&merged, x), covered(&ranges, x), "address {x} of {ranges:?}");
        }
    }
}

#[test]
fn split_ranges_are_short_and_cover_the_same() {
    for ranges in samples() {
        for max in [1u64, 2, 3, 7, 100] {
            let split = split_ranges(ranges.clone(), max);
            for piece in &split {
                assert!(piece.start < piece.end);
                assert!(piece.end - piece.start <= max);
            }
            for x in 0..40 {
                assert_eq!(covered(&split, x), covered(&ranges, x));
            }
        }
    }
}

#[test]
fn kcore_blocks_cover_what_is_mapped() {
    let segments = [
        Block { range: 0..10, offset: 1000 },
        Block { range: 10..20, offset: 3000 },
        Block { range: 25..40, offset: 5000 },
    ];
    let ranges = [2..8, 8..15, 18..22, 25..30, 32..40];
    let blocks = find_kcore_blocks(&ranges, &segments);
    assert_eq!(
        blocks,
        vec![
            Block { offset: 1002, range: 2..8 },
            Block { offset: 1008, range: 8..10 },
            Block { offset: 3000, range: 10..15 },
            Block { offset: 3008, range: 18..20 },
            Block { offset: 5000, range: 25..30 },
            Block { offset: 5007, range: 32..40 },
        ]
    );
    let block_ranges: Vec<Range<u64>> = blocks.iter().map(|b| b.range.clone()).collect();
    let segment_ranges: Vec<Range<u64>> = segments.iter().map(|s| s.range.clone()).collect();
    for x in 0..45 {
        assert_eq!(
            covered(&block_ranges, x),
            covered(&ranges, x) && covered(&segment_ranges, x)
        );
    }
    for block in &blocks {
        let segment = segments
            .iter()
            .find(|s| s.range.start <= block.range.start && block.range.end <= s.range.end)
            .unwrap();
        assert_eq!(block.offset, segment.offset + (block.range.start - segment.range.start));
    }
}
