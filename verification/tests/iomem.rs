use avml::iomem::{hex_u64, merge_ranges, parse, split_ranges, Error};

#[test]
fn test_merge_ranges() {
    let result = merge_ranges(vec![0..3, 3..6, 7..10, 12..15]);
    let expected = [0..6, 7..10, 12..15];
    assert_eq!(result, expected);

    let result = merge_ranges(vec![0..3, 3..6, 6..10]);
    let expected = [0..10];
    assert_eq!(result, expected);
}

#[test]
fn test_split_ranges() {
    let result = split_ranges(vec![0..30], 10);
    let expected = [0..10, 10..20, 20..30];
    assert_eq!(result, expected);

    let result = split_ranges(vec![0..30], 7);
    let expected = [0..7, 7..14, 14..21, 21..28, 28..30];
    assert_eq!(result, expected);

    let result = split_ranges(vec![0..10, 10..20, 20..30], 7);
    let expected = [0..7, 7..10, 10..17, 17..20, 20..27, 27..30];
    assert_eq!(result, expected);
}

#[test]
fn merge_sorts_first() {
    assert_eq!(merge_ranges(vec![12..15, 3..6, 0..3, 7..10]), [0..6, 7..10, 12..15]);
    assert_eq!(merge_ranges(vec![]), []);
    assert_eq!(merge_ranges(vec![5..9]), [5..9]);
    assert_eq!(merge_ranges(vec![0..5, 2..8]), [0..8]);
    // a merged range ends where the range taken in last ends
    assert_eq!(merge_ranges(vec![0..10, 2..5]), [0..5]);
    // ranges with one start keep their order
    assert_eq!(merge_ranges(vec![0..10, 0..5]), [0..5]);
    assert_eq!(merge_ranges(vec![0..5, 0..10]), [0..10]);
}

#[test]
fn split_drops_empty_ranges() {
    assert_eq!(split_ranges(vec![5..5, 9..3, 0..1], 4), [0..1]);
    assert_eq!(split_ranges(vec![], 4), []);
    assert_eq!(
        split_ranges(vec![u64::MAX - 10..u64::MAX], 4),
        [
            u64::MAX - 10..u64::MAX - 6,
            u64::MAX - 6..u64::MAX - 2,
            u64::MAX - 2..u64::MAX
        ]
    );
    assert_eq!(split_ranges(vec![0..u64::MAX], u64::MAX), [0..u64::MAX]);
}

#[test]
fn parse_system_ram_lines() {
    let text = b"00001000-0009fbff : System RAM\n 00001000-0009fbff : reserved\n00100000-3fedffff : System RAM\n";
    let ranges = parse(text).unwrap();
    assert_eq!(ranges, [0x1000..0x9fc00, 0x100000..0x3fee0000]);
}

#[test]
fn parse_skips_other_lines() {
    let text = b"00000000-00000fff : Reserved\n\
        00001000-0009fbff : System RAM\n\
        \x20 00001000-00001fff : Kernel code\n\
        000a0000-000bffff : PCI Bus 0000:00\n\
        \n\
        no separator here\n\
        00100000-3fedffff : System RAM  \n\
        40000000-4fffffff : not : System RAM\n\
        50000000-5fffffff : System RAM extra";
    assert_eq!(parse(text).unwrap(), [0x1000..0x9fc00, 0x100000..0x3fee0000]);
    assert_eq!(parse(b"").unwrap(), []);
    assert_eq!(parse(b"\n\n").unwrap(), []);
}

#[test]
fn parse_sorts_and_merges() {
    let text = b"00100000-001fffff : System RAM\n00001000-0000ffff : System RAM\n00010000-0001ffff : System RAM\n";
    assert_eq!(parse(text).unwrap(), [0x1000..0x20000, 0x100000..0x200000]);
}

#[test]
fn parse_without_permission() {
    let text = b"00000000-00000000 : System RAM\n";
    assert_eq!(parse(text), Err(Error::PermissionDenied));
}

#[test]
fn parse_failures() {
    assert_eq!(parse(b"0000zz00-00000fff : System RAM\n"), Err(Error::Parse));
    assert_eq!(parse(b"00001000-0000gfff : System RAM\n"), Err(Error::Parse));
    assert_eq!(parse(b"-00000fff : System RAM\n"), Err(Error::Parse));
    assert_eq!(parse(b"00001000--fff : System RAM\n"), Err(Error::Parse));
    assert_eq!(parse(b"00001000 : System RAM\n"), Err(Error::ParseLine));
    assert_eq!(parse(b"00001000- : System RAM\n"), Err(Error::ParseLine));
    assert_eq!(
        parse(b"10000000000000000-1 : System RAM\n"),
        Err(Error::Parse)
    );
    assert_eq!(
        parse(b"00001000-ffffffffffffffff : System RAM\n"),
        Err(Error::Parse)
    );
    // the first line that fails decides
    assert_eq!(
        parse(b"00001000 : System RAM\n00000000-00000000 : System RAM\n"),
        Err(Error::ParseLine)
    );
    assert_eq!(Error::Parse.message(), "unable to parse value");
    assert_eq!(Error::ParseLine.message(), "unable to parse line: invalid range end");
    assert_eq!(
        Error::PermissionDenied.message(),
        "need CAP_SYS_ADMIN to read /proc/iomem"
    );
}

#[test]
fn parse_reads_only_two_bounds() {
    assert_eq!(parse(b"1000-1fff-2fff : System RAM\n").unwrap(), [0x1000..0x2000]);
    assert_eq!(parse(b"+1000-+1FFF : System RAM\n").unwrap(), [0x1000..0x2000]);
}

#[test]
fn hex_bounds() {
    assert_eq!(hex_u64(b"0"), Some(0));
    assert_eq!(hex_u64(b"ff"), Some(255));
    assert_eq!(hex_u64(b"FF"), Some(255));
    assert_eq!(hex_u64(b"+ff"), Some(255));
    assert_eq!(hex_u64(b"ffffffffffffffff"), Some(u64::MAX));
    assert_eq!(hex_u64(b"0000000000000000000001"), Some(1));
    assert_eq!(hex_u64(b"10000000000000000"), None);
    assert_eq!(hex_u64(b""), None);
    assert_eq!(hex_u64(b"+"), None);
    assert_eq!(hex_u64(b"-1"), None);
    assert_eq!(hex_u64(b"1g"), None);
    assert_eq!(hex_u64(b" 1"), None);
}

#[test]
fn hex_agrees_with_the_standard_library() {
    for text in ["0", "1f", "+1f", "", "+", "-", "zz", "ffffffffffffffff", "1ffffffffffffffff", "00"] {
        assert_eq!(hex_u64(text.as_bytes()), u64::from_str_radix(text, 16).ok());
    }
}
