use avml::text::{decimal, find_char, join, padding};
use avml::{format_error, indent, Error};

#[test]
fn decimal_digits() {
    assert_eq!(decimal(0), "0");
    assert_eq!(decimal(7), "7");
    assert_eq!(decimal(10), "10");
    assert_eq!(decimal(4096), "4096");
    assert_eq!(decimal(u64::MAX), "18446744073709551615");
}

#[test]
fn indent_every_line() {
    assert_eq!(indent("a\nb", 4), "    a\n    b");
    assert_eq!(indent("", 2), "  ");
    assert_eq!(indent("a\n", 1), " a\n ");
    assert_eq!(indent("a\n\nb", 2), "  a\n  \n  b");
    assert_eq!(indent("x", 0), "x");
    assert_eq!(padding(3), "   ");
}

#[test]
fn format_error_numbers_the_causes() {
    let chain = |items: &[&str]| items.iter().map(|s| s.to_string()).collect::<Vec<_>>();
    assert_eq!(format_error(&chain(&["top"])), "error: top");
    assert_eq!(
        format_error(&chain(&["top", "next", "last"])),
        "error: top\ncaused by:\n    0: next\n    1: last\n"
    );
    assert_eq!(format_error(&chain(&[])), "error: ");
    let many: Vec<String> = (0..12).map(|i| format!("m{i}")).collect();
    let text = format_error(&many);
    assert!(text.contains("\n    9: m10\n   10: m11\n"));
}

#[test]
fn join_with_separator() {
    let parts = vec!["".to_string(), "a".to_string(), "b".to_string()];
    assert_eq!(join(&parts, "\n"), "\na\nb");
    assert_eq!(join(&[].to_vec(), ", "), "");
    assert_eq!(join(&vec!["x".to_string()], ", "), "x");
}

#[test]
fn find_char_from_an_index() {
    assert_eq!(find_char("a.b.c", 0, '.'), 1);
    assert_eq!(find_char("a.b.c", 2, '.'), 3);
    assert_eq!(find_char("a.b.c", 4, '.'), 5);
    assert_eq!(find_char("", 0, '.'), 0);
}

#[test]
fn top_level_error_report() {
    assert_eq!(Error::NoConversionRequired.report(), "error: no conversion required");
    assert_eq!(
        Error::Iomem(avml::iomem::Error::PermissionDenied).report(),
        "error: unable to parse /proc/iomem\ncaused by:\n    0: need CAP_SYS_ADMIN to read /proc/iomem\n"
    );
    assert_eq!(
        Error::Image(avml::image::Error::TooLarge).report(),
        "error: unable to create snapshot\ncaused by:\n    0: file is too large\n"
    );
    assert_eq!(
        Error::Tokio("no threads".to_string()).chain(),
        vec!["tokio runtime error: no threads".to_string(), "no threads".to_string()]
    );
    assert_eq!(
        Error::Blob(avml::upload::blobstore::Error::TooLarge).message(),
        "unable to upload file to Azure Storage"
    );
}
