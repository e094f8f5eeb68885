use write_buffer_manager::readable::{parse_duration, parse_size};

const KB: u64 = 1024;
const MB: u64 = 1024 * 1024;
const GB: u64 = 1024 * 1024 * 1024;

#[test]
fn parses_sizes_with_binary_suffixes() {
    assert_eq!(parse_size(b"5GB"), Some(5 * GB));
    assert_eq!(parse_size(b"2GB"), Some(2 * GB));
    assert_eq!(parse_size(b"1MB"), Some(1 * MB));
    assert_eq!(parse_size(b"512KB"), Some(512 * KB));
    assert_eq!(parse_size(b"100B"), Some(100));
    assert_eq!(parse_size(b"100"), Some(100));
    assert_eq!(parse_size(b"0B"), Some(0));
}

#[test]
fn rejects_malformed_sizes() {
    assert_eq!(parse_size(b""), None);
    assert_eq!(parse_size(b"GB"), None);
    assert_eq!(parse_size(b"5TB"), None);
    assert_eq!(parse_size(b"5 GB"), None);
    assert_eq!(parse_size(b"-5GB"), None);
    assert_eq!(parse_size(b"5GBB"), None);
}

#[test]
fn rejects_sizes_beyond_sixty_four_bits() {
    assert_eq!(parse_size(b"99999999999999999999999"), None);
    assert_eq!(parse_size(b"99999999999999999GB"), None);
    // The largest representable size still parses.
    assert_eq!(parse_size(b"18446744073709551615"), Some(u64::MAX));
    assert_eq!(parse_size(b"18446744073709551616"), None);
}

#[test]
fn parses_durations_to_milliseconds() {
    assert_eq!(parse_duration(b"10s"), Some(10_000));
    assert_eq!(parse_duration(b"30m"), Some(1_800_000));
    assert_eq!(parse_duration(b"1h"), Some(3_600_000));
    assert_eq!(parse_duration(b"0s"), Some(0));
}

#[test]
fn rejects_malformed_durations() {
    assert_eq!(parse_duration(b""), None);
    assert_eq!(parse_duration(b"10"), None);
    assert_eq!(parse_duration(b"s"), None);
    assert_eq!(parse_duration(b"5x"), None);
    assert_eq!(parse_duration(b"5ms"), None);
}
