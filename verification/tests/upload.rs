use avml::upload::blobstore::{
    after_request, block_id, calc_concurrency, is_transient, BlobUploader, BlockReader, Error,
    Failure, SasFault, SasToken, UploadBlock, UrlParts, Verdict, BLOB_MAX_BLOCKS,
    BLOB_MAX_BLOCK_SIZE, BLOB_MIN_BLOCK_SIZE, DEFAULT_CONCURRENCY, REASONABLE_BLOCK_SIZE,
};
use avml::upload::http::{check_status, Error as HttpError};
use avml::upload::status::Status;
use avml::ONE_MB;

const ONE_GB: u64 = ONE_MB * 1024;
const ONE_TB: u64 = ONE_GB * 1024;

#[test]
fn blobstore_test_calc_concurrency() {
    assert_eq!(
        Ok((BLOB_MIN_BLOCK_SIZE, 10)),
        calc_concurrency(ONE_MB * 300, Some(1), DEFAULT_CONCURRENCY),
        "specified blocksize would overflow block count, so we use the minimum block size"
    );

    assert_eq!(
        Ok((BLOB_MIN_BLOCK_SIZE, 10)),
        calc_concurrency(ONE_GB * 30, Some(ONE_MB), DEFAULT_CONCURRENCY),
        "30GB file, 1MB blocks"
    );

    assert_eq!(
        Ok((ONE_MB * 100, 5)),
        calc_concurrency(ONE_GB * 30, Some(ONE_MB * 100), DEFAULT_CONCURRENCY),
        "30GB file, 100MB block size"
    );

    assert_eq!(
        Ok((5 * ONE_MB, 10)),
        calc_concurrency(ONE_MB * 400, None, DEFAULT_CONCURRENCY),
        "400MB file, no block size"
    );

    assert_eq!(
        Ok((5 * ONE_MB, 10)),
        calc_concurrency(ONE_GB * 16, None, DEFAULT_CONCURRENCY),
        "16GB file, no block size"
    );

    assert_eq!(
        Ok((5 * ONE_MB, 10)),
        calc_concurrency(ONE_GB * 32, None, DEFAULT_CONCURRENCY),
        "32GB file, no block size",
    );

    assert_eq!(
        Ok((ONE_MB * 100, 5)),
        calc_concurrency(ONE_TB, None, DEFAULT_CONCURRENCY),
        "1TB file, no block size"
    );

    assert_eq!(
        Ok((100 * ONE_MB, 5)),
        calc_concurrency(ONE_TB * 4, None, DEFAULT_CONCURRENCY),
        "4TB file, no block size"
    );

    assert_eq!(
        Ok((100 * ONE_MB, 5)),
        calc_concurrency(ONE_TB * 4, Some(0), DEFAULT_CONCURRENCY),
        "4TB file, zero block size"
    );

    let (block_size, uploaders_count) =
        calc_concurrency(ONE_TB.saturating_mul(32), None, DEFAULT_CONCURRENCY).unwrap();
    assert!(block_size > REASONABLE_BLOCK_SIZE && block_size < BLOB_MAX_BLOCK_SIZE);
    assert_eq!(uploaders_count, 1);

    assert!(
        calc_concurrency((BLOB_MAX_BLOCKS * BLOB_MAX_BLOCK_SIZE) + 1, None, 10).is_err(),
        "files beyond max size should fail"
    );
}

#[test]
fn calc_concurrency_edges() {
    assert_eq!(
        calc_concurrency(REASONABLE_BLOCK_SIZE * BLOB_MAX_BLOCKS - 1, Some(0), 10),
        Ok((100 * ONE_MB, 5))
    );
    // five tebibytes do not fit in 50 000 blocks of 100 MiB
    assert_eq!(
        calc_concurrency(ONE_TB * 5, Some(0), 10),
        Ok((109_951_163, 4))
    );
    assert_eq!(
        calc_concurrency((BLOB_MAX_BLOCKS * BLOB_MAX_BLOCK_SIZE) + 1, None, 10),
        Err(Error::TooLarge)
    );
    assert_eq!(
        calc_concurrency(BLOB_MAX_BLOCKS * BLOB_MAX_BLOCK_SIZE, None, 10),
        Ok((BLOB_MAX_BLOCK_SIZE, 1))
    );
    // the smallest size with which the file fits: the quotient, rounded up
    assert_eq!(
        calc_concurrency(REASONABLE_BLOCK_SIZE * BLOB_MAX_BLOCKS, None, 10),
        Ok((REASONABLE_BLOCK_SIZE, 5))
    );
    assert_eq!(
        calc_concurrency(REASONABLE_BLOCK_SIZE * BLOB_MAX_BLOCKS + 1, None, 10),
        Ok((REASONABLE_BLOCK_SIZE + 1, 4))
    );
    assert_eq!(calc_concurrency(ONE_MB, None, 0), Ok((5 * ONE_MB, 1)));
    assert_eq!(calc_concurrency(ONE_MB, None, 1), Ok((5 * ONE_MB, 1)));
    assert_eq!(calc_concurrency(ONE_MB, None, 2), Ok((5 * ONE_MB, 10)));
    assert_eq!(calc_concurrency(ONE_MB, Some(u64::MAX), 10), Ok((BLOB_MAX_BLOCK_SIZE, 1)));
    assert_eq!(calc_concurrency(ONE_MB, Some(5 * ONE_MB + 1), 10), Ok((5 * ONE_MB + 1, 10)));
    assert_eq!(calc_concurrency(ONE_MB, Some(60 * ONE_MB), 10), Ok((60 * ONE_MB, 8)));
}

#[test]
fn every_plan_stays_within_the_store() {
    let sizes = [0, 1, ONE_MB * 400, ONE_GB * 250, ONE_TB, ONE_TB * 190, BLOB_MAX_BLOCKS * BLOB_MAX_BLOCK_SIZE];
    for size in sizes {
        for concurrency in [0usize, 1, 2, 10, 100] {
            let (block_size, workers) = calc_concurrency(size, None, concurrency).unwrap();
            assert!(block_size <= BLOB_MAX_BLOCK_SIZE);
            assert!(workers >= 1);
            assert!(size.div_ceil(block_size) <= BLOB_MAX_BLOCKS);
        }
    }
}

#[test]
fn block_ids_are_32_hex_digits() {
    assert_eq!(block_id(0), b"00000000000000000000000000000000".to_vec());
    assert_eq!(block_id(15), b"0000000000000000000000000000000f".to_vec());
    assert_eq!(block_id(0x1234_abcd), b"0000000000000000000000001234abcd".to_vec());
    assert_eq!(block_id(u64::MAX), b"0000000000000000ffffffffffffffff".to_vec());
    assert_eq!(block_id(15).len(), 32);
}

#[test]
fn reader_names_blocks_in_order() {
    let mut reader = BlockReader::new();
    let first = reader.on_read(vec![1, 2, 3]).unwrap();
    assert_eq!(first, UploadBlock { id: block_id(0), data: vec![1, 2, 3] });
    let second = reader.on_read(vec![4]).unwrap();
    assert_eq!(second.id, block_id(1));
    assert_eq!(reader.on_read(vec![]), None);
    assert_eq!(reader.finish(), vec![block_id(0), block_id(1)]);
}

#[test]
fn request_carries_the_md5_of_the_block() {
    let block = UploadBlock { id: block_id(3), data: b"abcdefghijklmnopqrstuvwxyz".to_vec() };
    let put = block.request();
    assert_eq!(put.id, block_id(3));
    assert_eq!(put.data, b"abcdefghijklmnopqrstuvwxyz".to_vec());
    assert_eq!(
        put.hash,
        vec![
            0xc3, 0xfc, 0xd3, 0xd7, 0x61, 0x92, 0xe4, 0x00, 0x7d, 0xfb, 0x49, 0x6c, 0xca, 0x67,
            0xe1, 0x3b
        ]
    );
}

#[test]
fn transient_failures_are_retried() {
    assert!(is_transient(&Failure::Connection));
    for code in [300u16, 301, 399, 429, 500, 503, 599] {
        assert!(is_transient(&Failure::Status(code)));
    }
    for code in [400u16, 401, 403, 404, 409, 428, 430, 499, 600, 200, 299] {
        assert!(!is_transient(&Failure::Status(code)));
    }
    assert_eq!(after_request(Ok(()), 42, String::new()), Verdict::Sent(42));
    assert_eq!(
        after_request(Err(Failure::Status(503)), 42, "busy".to_string()),
        Verdict::Retry
    );
    assert_eq!(
        after_request(Err(Failure::Status(403)), 42, "forbidden".to_string()),
        Verdict::Abort(Error::RemoteApi("forbidden".to_string()))
    );
}

#[test]
fn uploader_plans_in_megabytes() {
    let uploader = BlobUploader::new();
    assert_eq!(uploader.size, ONE_TB);
    assert_eq!(uploader.concurrency, 10);
    assert_eq!(uploader.plan(), Ok((100 * ONE_MB, 5)));
    let uploader = BlobUploader::new().size(ONE_GB * 30).block_size(Some(100)).concurrency(5);
    assert_eq!(uploader.plan(), Ok((ONE_MB * 100, 5)));
    let uploader = BlobUploader::new().size(ONE_GB).block_size(Some(u64::MAX));
    assert_eq!(uploader.plan(), Ok((BLOB_MAX_BLOCK_SIZE, 1)));
    let uploader = BlobUploader::new().size(u64::MAX);
    assert_eq!(uploader.plan(), Err(Error::TooLarge));
}

fn parts(host: Option<&str>, path: &str, query: Option<&str>) -> UrlParts {
    UrlParts {
        host: host.map(|h| h.to_string()),
        path: path.to_string(),
        query: query.map(|q| q.to_string()),
    }
}

#[test]
fn sas_token_from_url_parts() {
    let sas = SasToken::try_from(&parts(
        Some("contoso.blob.core.windows.net"),
        "/container_name/dir/blob_name",
        Some("sv=2020&sig=abc"),
    ))
    .unwrap();
    assert_eq!(sas.account, "contoso");
    assert_eq!(sas.container, "container_name");
    assert_eq!(sas.path, "dir/blob_name");
    assert_eq!(sas.token, "sv=2020&sig=abc");

    let sas = SasToken::try_from(&parts(Some("localhost"), "/c/b/", Some("t"))).unwrap();
    assert_eq!(sas.account, "localhost");
    assert_eq!(sas.container, "c");
    assert_eq!(sas.path, "b");
}

#[test]
fn sas_token_faults() {
    let fault = |p: UrlParts| match SasToken::try_from(&p) {
        Err(Error::InvalidSasUrl(fault)) => fault,
        other => panic!("unexpected {:?}", other),
    };
    assert_eq!(fault(parts(None, "/c/b", Some("t"))), SasFault::NoAccount);
    assert_eq!(fault(parts(Some(""), "/c/b", Some("t"))), SasFault::NoAccount);
    assert_eq!(fault(parts(Some("h"), "/c/b", None)), SasFault::NoToken);
    assert_eq!(fault(parts(Some("h"), "/", Some("t"))), SasFault::NoContainer);
    assert_eq!(fault(parts(Some("h"), "", Some("t"))), SasFault::NoContainer);
    assert_eq!(fault(parts(Some("h"), "//b", Some("t"))), SasFault::NoContainer);
    assert_eq!(fault(parts(Some("h"), "/c", Some("t"))), SasFault::NoBlob);
    assert_eq!(fault(parts(Some("h"), "/c/", Some("t"))), SasFault::NoBlob);
    assert_eq!(fault(parts(Some("h"), "/c//", Some("t"))), SasFault::NoBlob);
    assert_eq!(
        Error::InvalidSasUrl(SasFault::NoToken).message(),
        "invalid sas token (no token)"
    );
}

#[test]
fn blob_error_messages() {
    assert_eq!(Error::TooLarge.message(), "file is too large");
    assert_eq!(Error::QueueSend.message(), "unable to queue block for upload");
    assert_eq!(Error::TaskJoin.message(), "uploading blocks failed");
    assert_eq!(Error::SizeConversion.message(), "size conversion error");
    assert_eq!(
        Error::Io("gone".to_string()).chain(),
        vec!["error reading file".to_string(), "gone".to_string()]
    );
    assert_eq!(
        Error::RemoteApi("403".to_string()).chain(),
        vec!["error uploading file".to_string(), "403".to_string()]
    );
}

#[test]
fn put_status_must_be_success() {
    for status in [200u16, 201, 204, 299] {
        assert_eq!(check_status(status), Ok(()));
    }
    for status in [100u16, 199, 300, 404, 500] {
        assert_eq!(check_status(status), Err(HttpError::UnexpectedStatusCode { status }));
    }
    assert_eq!(
        HttpError::UnexpectedStatusCode { status: 404 }.message(),
        "unexpected status code: 404"
    );
    assert_eq!(
        HttpError::Io("denied".to_string(), "/tmp/x".to_string()).chain(),
        vec!["error reading file: /tmp/x".to_string(), "denied".to_string()]
    );
}

#[test]
fn status_counts_bytes() {
    let mut known = Status::new(Some(100));
    known.inc(30);
    known.inc(30);
    assert_eq!(known.position, 60);
    assert_eq!(known.length, 100);
    let mut unknown = Status::new(None);
    assert_eq!(unknown.length, 0);
    unknown.inc(30);
    assert_eq!(unknown.position, 30);
    assert_eq!(unknown.length, 30);
    unknown.position = u64::MAX - 1;
    unknown.inc(30);
    assert_eq!(unknown.position, u64::MAX);
}
