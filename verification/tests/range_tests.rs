use dup_finder::byte_range::{content_length, content_range, parse_range, serve_range};

#[test]
fn full_ranges() {
    assert_eq!(parse_range("bytes=0-99", 1000), Some((0, 99)));
    assert_eq!(parse_range("bytes=+5-7", 1000), Some((5, 7)));
}

#[test]
fn open_or_unreadable_end_means_end_of_file() {
    assert_eq!(parse_range("bytes=500-", 1000), Some((500, 999)));
    assert_eq!(parse_range("bytes=500", 1000), Some((500, 999)));
    assert_eq!(parse_range("bytes=500-x", 1000), Some((500, 999)));
    assert_eq!(parse_range("bytes=500-7-8", 1000), Some((500, 999)));
    assert_eq!(parse_range("bytes=3-", 0), Some((3, 0)));
}

#[test]
fn malformed_ranges() {
    assert_eq!(parse_range("bytes=-5", 1000), None);
    assert_eq!(parse_range("items=0-5", 1000), None);
    assert_eq!(parse_range("bytes=a-5", 1000), None);
    assert_eq!(parse_range("bytes=18446744073709551616-", 1000), None);
    assert_eq!(parse_range("byte", 1000), None);
}

#[test]
fn largest_start_parses() {
    assert_eq!(parse_range("bytes=18446744073709551615-1", 10), Some((u64::MAX, 1)));
}

#[test]
fn served_ranges() {
    assert_eq!(serve_range(Some("bytes=10-5000"), 1000), (10, 999, true));
    assert_eq!(serve_range(Some("junk"), 1000), (0, 999, false));
    assert_eq!(serve_range(None, 0), (0, 0, false));
}

#[test]
fn answer_headers() {
    assert_eq!(content_length(10, 999), 990);
    assert_eq!(content_range(10, 999, 1000), "bytes 10-999/1000");
}
