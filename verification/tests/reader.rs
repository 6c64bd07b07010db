use avml::io::reader::ByteReader;

#[test]
fn reader_reads_and_seeks() {
    let mut reader = ByteReader::new(vec![1, 2, 3, 4, 5]);
    assert_eq!(reader.available(), 5);
    assert_eq!(reader.read_exact(2), Some(vec![1, 2]));
    assert_eq!(reader.position(), 2);
    assert_eq!(reader.read_up_to(10), vec![3, 4, 5]);
    assert_eq!(reader.position(), 5);
    assert_eq!(reader.read_up_to(10), Vec::<u8>::new());
    reader.seek(1);
    assert_eq!(reader.read_exact(5), None);
    assert_eq!(reader.available(), 0);
    reader.seek(100);
    assert_eq!(reader.available(), 0);
    assert_eq!(reader.read_exact(0), Some(vec![]));
    assert!(reader.skip(5));
    assert_eq!(reader.position(), 105);
    reader.seek(u64::MAX - 1);
    assert!(!reader.skip(2));
    assert_eq!(reader.position(), u64::MAX - 1);
    assert_eq!(reader.into_inner(), vec![1, 2, 3, 4, 5]);
}
