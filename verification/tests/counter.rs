use avml::io::counter::Counter;
use avml::io::snappy::{compress, SnapCountWriter};
use snap::read::FrameDecoder;
use std::io::Read;

#[test]
fn counter_encode_header() {
    let data = "hello world".as_bytes();

    let buf: Vec<u8> = vec![];
    let mut counter = Counter::new(buf);

    counter.write_all(data);
    assert_eq!(counter.count(), data.len());
    assert_eq!(counter.into_inner(), data);
}

#[test]
fn write_counter_encode_header() {
    let data = "hello world".as_bytes();

    let buf: Vec<u8> = vec![];
    let mut counter = Counter::new(buf);

    let written = counter.write(data);
    assert_eq!(written, data.len());
    assert_eq!(counter.count(), data.len());
    assert_eq!(counter.into_inner(), data);
}

#[test]
fn write_counter_encode_snap() {
    let size = 1000;
    let many_a = "A".repeat(size).into_bytes();

    let compressed_data = {
        let mut counter = Counter::new(Vec::new());
        {
            let mut framed = compress(&many_a).unwrap();
            framed.truncate(framed.len() - 8);
            counter.write_all(&framed);
        }
        // verify we had some compression here...
        assert!(counter.count() < size);
        counter.into_inner()
    };

    let result = {
        let mut counter = Counter::new(Vec::new());
        {
            let mut decoded = Vec::new();
            FrameDecoder::new(&compressed_data[..]).read_to_end(&mut decoded).unwrap();
            counter.write_all(&decoded);
        }
        assert_eq!(counter.count(), size, "verify decoded size");
        counter.into_inner()
    };
    assert_eq!(many_a, result, "verify decoded byte are equal");
}

#[test]
fn snappy_encode_snap() {
    let size = 1000;
    let many_a = "A".repeat(size).into_bytes();

    let mut compressed_data = {
        let mut writer = SnapCountWriter::new(Vec::new());
        writer.write_all(&many_a);
        writer.finalize().unwrap()
    };

    let compressed_len = compressed_data.split_off(compressed_data.len() - 8);
    let mut eight = [0u8; 8];
    eight.copy_from_slice(&compressed_len);
    let compressed_len = u64::from_le_bytes(eight);
    assert_eq!(compressed_len, compressed_data.len() as u64);

    assert_ne!(compressed_data, many_a);

    let result = {
        let mut counter = Counter::new(Vec::new());
        {
            let mut decoded = Vec::new();
            FrameDecoder::new(&compressed_data[..]).read_to_end(&mut decoded).unwrap();
            counter.write_all(&decoded);
        }
        assert_eq!(counter.count(), size, "verify decoded size");
        counter.into_inner()
    };
    assert_eq!(many_a, result, "verify decoded byte are equal");
}

#[test]
fn counter_record_saturates() {
    let mut counter = Counter::new(());
    counter.record(usize::MAX - 1);
    counter.record(5);
    assert_eq!(counter.count(), usize::MAX);
}

#[test]
fn writer_appends_to_its_sink() {
    let mut writer = SnapCountWriter::new(vec![1, 2, 3]);
    writer.write_all(b"hello ");
    writer.write_all(b"world");
    let out = writer.finalize().unwrap();
    assert_eq!(&out[..3], &[1, 2, 3]);
    assert_eq!(&out[3..], &compress(b"hello world").unwrap()[..]);
}

#[test]
fn empty_payload_compresses_to_its_length_alone() {
    assert_eq!(compress(&[]).unwrap(), vec![0u8; 8]);
}
