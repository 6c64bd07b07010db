use avml::disk_usage::{
    check, check_convertible, check_max_usage, check_max_usage_bytes, disk_usage, estimate,
    DiskUsage, Limit, EXCESSIVE_VALUE, EXTRA_PADDING,
};
use avml::snapshot::{Error, Snapshot};

#[test]
fn test_estimates() {
    assert_eq!(estimate(&[0..100, 100..200, 200..300]), 307_500);
    assert_eq!(
        estimate(&[0..1024 * 1024, (1024 * 1024) + 10..(1024 * 1024 * 1024)]),
        1_073_946_614
    );
}

#[test]
fn estimate_saturates() {
    assert_eq!(estimate(&[]), 0);
    assert_eq!(estimate(&[5..3]), EXTRA_PADDING);
    assert_eq!(estimate(&[0..u64::MAX, 0..10]), u64::MAX);
}

#[test]
fn test_check_max_usable() {
    let ten = 10;
    check_max_usage(1, ten).unwrap();
    check_max_usage(10, ten).unwrap();
    assert!(check_max_usage(11 * 1024 * 1024, ten).is_err());
    check_max_usage(10 * 1024 * 1024, ten).unwrap();
    assert_eq!(
        check_max_usage(10 * 1024 * 1024 + 1, ten),
        Err(Error::DiskUsageEstimateExceeded {
            estimated: 10 * 1024 * 1024 + 1,
            allowed: 10 * 1024 * 1024
        })
    );
    check_max_usage(u64::MAX, u64::MAX).unwrap();
}

fn allowed_share(total: u64, percentage: f64) -> u64 {
    (total as f64 * (percentage / 100.0)).trunc() as u64
}

#[test]
fn test_check_max_usage_percentage() {
    // usage should be well below allowed %
    check_max_usage_bytes(10, &DiskUsage { total: 1000, used: 0 }, allowed_share(1000, 10.0))
        .unwrap();

    // usage should just at the allowed value
    check_max_usage_bytes(1, &DiskUsage { total: 1000, used: 99 }, allowed_share(1000, 10.0))
        .unwrap();

    // disk is already past the max allowed, should fail even with a tiny addition
    assert!(check_max_usage_bytes(
        1,
        &DiskUsage { total: 1000, used: 910 },
        allowed_share(1000, 10.0)
    )
    .is_err());

    assert_eq!(
        check_max_usage_bytes(5, &DiskUsage { total: 1000, used: 98 }, 100),
        Err(Error::DiskUsageEstimateExceeded { estimated: 5, allowed: 2 })
    );
}

#[test]
fn convertible_up_to_the_excessive_value() {
    check_convertible(0).unwrap();
    check_convertible(EXCESSIVE_VALUE).unwrap();
    assert_eq!(
        check_convertible(EXCESSIVE_VALUE + 1),
        Err(Error::Other(
            "unable to convert u64 to f64".to_string(),
            "value is too large to convert to f64: 4000000000000000001".to_string()
        ))
    );
}

#[test]
fn disk_usage_from_block_counts() {
    assert_eq!(
        disk_usage(1000, 250, 4096),
        Some(DiskUsage { total: 4_096_000, used: 3_072_000 })
    );
    assert_eq!(disk_usage(10, 11, 4096), None);
    assert_eq!(disk_usage(u64::MAX, 0, 2), None);
}

#[test]
fn check_holds_both_limits() {
    let ranges = [0..1024 * 1024];
    check(&ranges, None, None).unwrap();
    check(&ranges, Some(2), None).unwrap();
    assert_eq!(
        check(&ranges, Some(1), None),
        Err(Error::DiskUsageEstimateExceeded {
            estimated: 1024 * 1024 + 102_400,
            allowed: 1024 * 1024
        })
    );
    let limit = Limit { usage: DiskUsage { total: 10_000_000, used: 9_000_000 }, max_allowed: 9_500_000 };
    assert_eq!(
        check(&ranges, Some(2), Some(limit)),
        Err(Error::DiskUsageEstimateExceeded {
            estimated: 1024 * 1024 + 102_400,
            allowed: 500_000
        })
    );
    let snapshot = Snapshot::new("/tmp/out", ranges.to_vec()).max_disk_usage(Some(1));
    assert!(snapshot.check_disk_usage(None).is_err());
}
