use avml::convert::{convert, convert_format, convert_from_raw, convert_to_raw, Format};
use avml::image::{Error as ImageError, Header};
use avml::Error;

fn memory() -> Vec<u8> {
    let mut raw = vec![0u8; 300_000];
    for (i, b) in raw.iter_mut().enumerate().skip(1000).take(150_000) {
        *b = (i % 251) as u8 + 1;
    }
    raw
}

#[test]
fn raw_to_lime_to_raw_is_the_same_file() {
    let raw = memory();
    for compress in [false, true] {
        let container = convert_from_raw(raw.clone(), compress).unwrap();
        assert_eq!(convert_to_raw(container).unwrap(), raw);
    }
}

#[test]
fn raw_file_of_zeros_becomes_an_empty_container() {
    for compress in [false, true] {
        let container = convert_from_raw(vec![0u8; 10_000], compress).unwrap();
        assert_eq!(container, Vec::<u8>::new());
        assert_eq!(convert_to_raw(container).unwrap(), Vec::<u8>::new());
    }
}

#[test]
fn lime_to_compressed_and_back() {
    let raw = memory();
    let v1 = convert_from_raw(raw.clone(), false).unwrap();
    let v2 = convert(v1.clone(), true).unwrap();
    assert_eq!(v2, convert_from_raw(raw.clone(), true).unwrap());
    assert_eq!(convert(v2, false).unwrap(), v1);
}

#[test]
fn to_raw_fills_gaps_with_zeros() {
    let mut container = Vec::new();
    container.extend_from_slice(&Header { range: 4..8, version: 1 }.encode().unwrap());
    container.extend_from_slice(&[1, 2, 3, 4]);
    container.extend_from_slice(&Header { range: 10..12, version: 1 }.encode().unwrap());
    container.extend_from_slice(&[5, 6]);
    assert_eq!(
        convert_to_raw(container).unwrap(),
        vec![0, 0, 0, 0, 1, 2, 3, 4, 0, 0, 5, 6]
    );
}

#[test]
fn to_raw_refuses_blocks_out_of_order() {
    let mut container = Vec::new();
    container.extend_from_slice(&Header { range: 4..8, version: 1 }.encode().unwrap());
    container.extend_from_slice(&[1, 2, 3, 4]);
    container.extend_from_slice(&Header { range: 2..4, version: 1 }.encode().unwrap());
    container.extend_from_slice(&[5, 6]);
    assert_eq!(convert_to_raw(container), Err(ImageError::IntConversion));
}

#[test]
fn same_format_needs_no_conversion() {
    for format in [Format::Raw, Format::Lime, Format::LimeCompressed] {
        assert_eq!(
            convert_format(format, format, vec![1, 2, 3]),
            Err(Error::NoConversionRequired)
        );
    }
}

#[test]
fn convert_format_dispatches() {
    let raw = memory();
    let v1 = convert_format(Format::Raw, Format::Lime, raw.clone()).unwrap();
    let v2 = convert_format(Format::Raw, Format::LimeCompressed, raw.clone()).unwrap();
    assert_eq!(&v1[..4], b"EMiL");
    assert_eq!(&v2[..4], b"AVML");
    assert_eq!(convert_format(Format::Lime, Format::LimeCompressed, v1.clone()).unwrap(), v2);
    assert_eq!(convert_format(Format::LimeCompressed, Format::Lime, v2.clone()).unwrap(), v1);
    assert_eq!(convert_format(Format::Lime, Format::Raw, v1).unwrap(), raw);
    assert_eq!(convert_format(Format::LimeCompressed, Format::Raw, v2).unwrap(), raw);
    assert_eq!(
        convert_format(Format::Lime, Format::Raw, vec![1, 2, 3]),
        Err(Error::Image(ImageError::Io(
            avml::image::Cause::UnexpectedEof,
            avml::image::Step::HeaderMagic
        )))
    );
}
