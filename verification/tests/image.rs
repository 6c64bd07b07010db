use avml::image::{
    copy_plan, is_page_aligned, is_zero, range_len, range_usize, Block, Cause, Error, Header,
    Image, Piece, Step, MAX_BLOCK_SIZE,
};
use avml::io::reader::ByteReader;
use snap::read::FrameDecoder;
use std::io::Read;

#[test]
fn encode_header_v1() {
    let expected = b"\x45\x4d\x69\x4c\x01\x00\x00\x00\x00\x10\x00\x00\x00\x00\x00\x00\
                     \x00\x00\x02\x00\x00\x00\x00\x00\x00\x00\x00\x00\x00\x00\x00\x00";
    let header = Header {
        range: 0x1000..0x20001,
        version: 1,
    };
    assert!(matches!(header.encode(), Ok(x) if x == *expected));
}

#[test]
fn encode_header_v2() {
    let expected = b"\x41\x56\x4d\x4c\x02\x00\x00\x00\x00\x10\x00\x00\x00\x00\x00\x00\
                     \x00\x00\x02\x00\x00\x00\x00\x00\x00\x00\x00\x00\x00\x00\x00\x00";
    let header = Header {
        range: 0x1000..0x20001,
        version: 2,
    };
    assert!(matches!(header.encode(), Ok(x) if x == *expected));
}

#[test]
fn max_block_size_is_four_gib() {
    assert_eq!(MAX_BLOCK_SIZE, 0x100000 * 0x1000);
}

#[test]
fn encode_rejects_other_versions() {
    let header = Header { range: 0..1, version: 3 };
    assert_eq!(header.encode(), Err(Error::UnimplementedVersion));
    let header = Header { range: 0..1, version: 0 };
    assert_eq!(header.encode(), Err(Error::UnimplementedVersion));
}

#[test]
fn header_round_trip() {
    for version in [1u32, 2u32] {
        for range in [1..2u64, 0x1000..0x20001, 0..u64::MAX, 5..3] {
            let header = Header { range: range.clone(), version };
            let bytes = header.encode().unwrap();
            let back = Header::decode(&bytes).unwrap();
            assert_eq!(back.range, range);
            assert_eq!(back.version, version);
            let mut reader = ByteReader::new(bytes.to_vec());
            let read = Header::read(&mut reader).unwrap();
            assert_eq!(read.range, range);
            assert_eq!(read.version, version);
            assert_eq!(reader.position(), 32);
        }
    }
}

#[test]
fn decode_checks_padding_magic_and_end() {
    let mut bytes = Header { range: 0x1000..0x2000, version: 1 }.encode().unwrap();
    bytes[31] = 1;
    assert_eq!(Header::decode(&bytes).err(), Some(Error::InvalidPadding));

    let mut bytes = Header { range: 0x1000..0x2000, version: 1 }.encode().unwrap();
    bytes[4] = 2;
    assert_eq!(Header::decode(&bytes).err(), Some(Error::UnsupportedFormat));

    let mut bytes = Header { range: 0x1000..0x2000, version: 2 }.encode().unwrap();
    bytes[0] = 0x45;
    assert_eq!(Header::decode(&bytes).err(), Some(Error::UnsupportedFormat));

    let mut bytes = Header { range: 0x1000..0x2000, version: 1 }.encode().unwrap();
    for b in &mut bytes[16..24] {
        *b = 0xff;
    }
    assert_eq!(Header::decode(&bytes).err(), Some(Error::TooLarge));
    // the end is looked at before the padding
    bytes[31] = 1;
    assert_eq!(Header::decode(&bytes).err(), Some(Error::TooLarge));
}

#[test]
fn read_names_the_field_that_is_cut_short() {
    let bytes = Header { range: 0x1000..0x2000, version: 1 }.encode().unwrap().to_vec();
    let cases = [
        (0, Step::HeaderMagic),
        (3, Step::HeaderMagic),
        (4, Step::HeaderVersion),
        (8, Step::HeaderStart),
        (15, Step::HeaderStart),
        (16, Step::HeaderEnd),
        (24, Step::HeaderPadding),
        (31, Step::HeaderPadding),
    ];
    for (len, step) in cases {
        let mut reader = ByteReader::new(bytes[..len].to_vec());
        assert_eq!(
            Header::read(&mut reader).err(),
            Some(Error::Io(Cause::UnexpectedEof, step))
        );
    }
}

#[test]
fn header_size_and_range_len() {
    let header = Header { range: 0x1000..0x20001, version: 1 };
    assert_eq!(header.size(), Ok(0x1f001));
    let header = Header { range: 5..3, version: 1 };
    assert_eq!(header.size(), Ok(0));
    assert_eq!(range_len(&(10..25)), 15);
    assert_eq!(range_len(&(25..10)), 0);
    assert_eq!(range_usize(&(10..25)), Ok(15));
}

#[test]
fn header_write_appends() {
    let mut dst = vec![9u8];
    Header { range: 0x1000..0x20001, version: 1 }.write(&mut dst).unwrap();
    assert_eq!(dst.len(), 33);
    assert_eq!(dst[0], 9);
    assert_eq!(&dst[1..5], b"EMiL");
    let mut dst = vec![9u8];
    assert_eq!(
        Header { range: 0..1, version: 7 }.write(&mut dst),
        Err(Error::UnimplementedVersion)
    );
    assert_eq!(dst, vec![9u8]);
}

#[test]
fn zero_test() {
    assert!(is_zero(&[]));
    assert!(is_zero(&[0, 0, 0]));
    assert!(!is_zero(&[0, 0, 1]));
}

#[test]
fn page_aligned_sources() {
    assert!(is_page_aligned("/dev/crash"));
    assert!(is_page_aligned("/dev/mem"));
    assert!(is_page_aligned("/proc/kcore"));
    assert!(is_page_aligned("/dev/kcore"));
    assert!(!is_page_aligned("/tmp/memory.raw"));
    assert!(!is_page_aligned("/dev/crash2"));
}

#[test]
fn copy_block_v1_writes_header_and_payload() {
    let data: Vec<u8> = (0..100u8).collect();
    let mut image = Image::new(1, false, data.clone());
    image.copy_block(0x1000..0x1000 + 100).unwrap();
    let header = Header { range: 0x1000..0x1000 + 100, version: 1 }.encode().unwrap();
    assert_eq!(&image.dst[..32], &header[..]);
    assert_eq!(&image.dst[32..], &data[..]);
    assert_eq!(image.src.position(), 100);
}

#[test]
fn zero_block_leaves_nothing() {
    let size = 4 * 1024 * 1024;
    for version in [1u32, 2u32] {
        let mut image = Image::new(version, false, vec![0u8; size]);
        image.copy_block(0..size as u64).unwrap();
        assert_eq!(image.dst.len(), 0);
        assert_eq!(image.src.position(), size as u64);
    }
}

#[test]
fn one_byte_set_makes_a_compressed_block() {
    let size = 4 * 1024 * 1024;
    let mut memory = vec![0u8; size];
    memory[12345] = 7;
    let mut image = Image::new(2, false, memory.clone());
    image.copy_block(0..size as u64).unwrap();
    let header = Header { range: 0..size as u64, version: 2 }.encode().unwrap();
    assert_eq!(&image.dst[..32], &header[..]);
    let body = &image.dst[32..];
    let (frame, trailer) = body.split_at(body.len() - 8);
    let mut eight = [0u8; 8];
    eight.copy_from_slice(trailer);
    assert_eq!(u64::from_le_bytes(eight), frame.len() as u64);
    let mut decoded = Vec::new();
    FrameDecoder::new(frame).read_to_end(&mut decoded).unwrap();
    assert_eq!(decoded, memory);
}

#[test]
fn aligned_copy_fails_on_a_short_source() {
    let mut image = Image::new(1, true, vec![1u8; 5000]);
    assert_eq!(
        image.copy_block(0..10000),
        Err(Error::Io(Cause::UnexpectedEof, Step::ReadPage))
    );
    assert_eq!(image.dst.len(), 0);
    let mut image = Image::new(1, true, vec![1u8; 10000]);
    image.copy_block(0..10000).unwrap();
    assert_eq!(image.dst.len(), 32 + 10000);
}

#[test]
fn unaligned_copy_fills_a_short_source_with_zeros() {
    let mut image = Image::new(1, false, vec![1u8; 5]);
    image.copy_block(0..8).unwrap();
    assert_eq!(&image.dst[32..], &[1, 1, 1, 1, 1, 0, 0, 0]);
}

#[test]
fn copy_block_rejects_unknown_version() {
    let mut image = Image::new(3, false, vec![1u8; 8]);
    assert_eq!(image.copy_block(0..8), Err(Error::UnimplementedVersion));
}

#[test]
fn empty_range_copies_nothing() {
    let mut image = Image::new(1, false, vec![1u8; 8]);
    image.copy_block(8..8).unwrap();
    image.copy_block(9..3).unwrap();
    assert_eq!(image.dst.len(), 0);
    assert_eq!(image.src.position(), 0);
}

#[test]
fn write_blocks_seeks_to_each_offset() {
    let memory: Vec<u8> = (0..200u8).collect();
    let blocks = [
        Block { offset: 0, range: 0..10 },
        Block { offset: 100, range: 0x1000..0x1000 + 20 },
    ];
    let mut image = Image::new(1, false, memory.clone());
    image.write_blocks(&blocks).unwrap();
    let mut expected = Vec::new();
    expected.extend_from_slice(&Header { range: 0..10, version: 1 }.encode().unwrap());
    expected.extend_from_slice(&memory[0..10]);
    expected.extend_from_slice(&Header { range: 0x1000..0x1014, version: 1 }.encode().unwrap());
    expected.extend_from_slice(&memory[100..120]);
    assert_eq!(image.dst, expected);
}

#[test]
fn write_blocks_names_the_block_that_failed() {
    let blocks = [
        Block { offset: 0, range: 0..4096 },
        Block { offset: 4096, range: 4096..3 * 4096 },
    ];
    let mut image = Image::new(1, true, vec![1u8; 2 * 4096]);
    assert_eq!(
        image.write_blocks(&blocks),
        Err(Error::WriteBlock(4096..3 * 4096))
    );
}

#[test]
fn convert_block_both_ways() {
    let memory: Vec<u8> = (0..=255u8).cycle().take(70000).collect();
    let mut first = Image::new(1, false, memory.clone());
    first.copy_block(0x1000..0x1000 + 70000).unwrap();
    let v1 = first.dst;

    let mut to_v2 = Image::new(2, false, v1.clone());
    to_v2.convert_block().unwrap();
    assert_eq!(to_v2.src.position(), v1.len() as u64);
    let v2 = to_v2.dst;
    assert_eq!(&v2[..4], b"AVML");
    assert!(v2.len() < v1.len());

    let mut to_v1 = Image::new(1, false, v2.clone());
    to_v1.convert_block().unwrap();
    assert_eq!(to_v1.src.position(), v2.len() as u64);
    assert_eq!(to_v1.dst, v1);
}

#[test]
fn convert_block_reports_bad_compressed_data() {
    let mut container = Header { range: 0..16, version: 2 }.encode().unwrap().to_vec();
    container.extend_from_slice(&[1, 2, 3, 4, 5, 6, 7, 8, 9, 10, 11, 12, 13, 14, 15, 16]);
    let mut image = Image::new(1, false, container);
    assert_eq!(
        image.convert_block(),
        Err(Error::Io(Cause::InvalidData, Step::CopyCompressed))
    );
}

#[test]
fn image_error_messages() {
    assert_eq!(Error::InvalidPadding.message(), "invalid padding");
    assert_eq!(Error::TooLarge.message(), "file is too large");
    assert_eq!(Error::UnimplementedVersion.message(), "unimplemented version");
    assert_eq!(Error::UnsupportedFormat.message(), "unsupported format");
    assert_eq!(Error::WriteBlock(16..4096).message(), "write block failed: 16..4096");
    let error = Error::Io(Cause::UnexpectedEof, Step::ReadPage);
    assert_eq!(error.message(), "io error: unable to read memory page");
    assert_eq!(
        error.chain(),
        vec![
            "io error: unable to read memory page".to_string(),
            "failed to fill whole buffer".to_string()
        ]
    );
}

#[test]
fn plan_cuts_compressed_ranges_only() {
    let large = 0x1000..0x1000 + 2 * MAX_BLOCK_SIZE + 5;
    assert_eq!(
        copy_plan(2, large.clone()),
        vec![
            Piece { range: 0x1000..0x1000 + MAX_BLOCK_SIZE, whole: true },
            Piece { range: 0x1000 + MAX_BLOCK_SIZE..0x1000 + 2 * MAX_BLOCK_SIZE, whole: true },
            Piece {
                range: 0x1000 + 2 * MAX_BLOCK_SIZE..0x1000 + 2 * MAX_BLOCK_SIZE + 5,
                whole: true
            },
        ]
    );
    assert_eq!(copy_plan(1, large.clone()), vec![Piece { range: large, whole: false }]);
    assert_eq!(
        copy_plan(1, 0..MAX_BLOCK_SIZE),
        vec![Piece { range: 0..MAX_BLOCK_SIZE, whole: true }]
    );
    assert_eq!(copy_plan(1, 5..5), vec![]);
    assert_eq!(copy_plan(2, 9..5), vec![]);
}
