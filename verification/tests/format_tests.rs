use system_monitor::system_info::{decimal_string, format_bytes, format_uptime};

#[test]
fn bytes_under_one_kilobyte() {
    assert_eq!(format_bytes(0), "0.00 B");
    assert_eq!(format_bytes(512), "512.00 B");
    assert_eq!(format_bytes(1023), "1023.00 B");
}

#[test]
fn bytes_scale_to_each_unit() {
    assert_eq!(format_bytes(1024), "1.00 KB");
    assert_eq!(format_bytes(1048576), "1.00 MB");
    assert_eq!(format_bytes(1073741824), "1.00 GB");
    assert_eq!(format_bytes(1099511627776), "1.00 TB");
}

#[test]
fn bytes_keep_two_decimals() {
    assert_eq!(format_bytes(1536), "1.50 KB");
    assert_eq!(format_bytes(2047), "2.00 KB");
    assert_eq!(format_bytes(1126), "1.10 KB");
    assert_eq!(format_bytes(15 * 1048576 + 262144), "15.25 MB");
}

#[test]
fn bytes_at_the_counter_limit() {
    // 2^64 bytes is exactly 16777216 TB; the limit is half a rounding
    // step below it.
    assert_eq!(format_bytes(u64::MAX), "16777216.00 TB");
    assert_eq!(format_bytes(3 * 1099511627776 / 2), "1.50 TB");
}

#[test]
fn uptime_shows_largest_nonzero_part_first() {
    assert_eq!(format_uptime(0), "0s");
    assert_eq!(format_uptime(5), "5s");
    assert_eq!(format_uptime(61), "1m 1s");
    assert_eq!(format_uptime(3661), "1h 1m 1s");
    assert_eq!(format_uptime(90061), "1d 1h 1m 1s");
}

#[test]
fn uptime_boundaries() {
    assert_eq!(format_uptime(59), "59s");
    assert_eq!(format_uptime(60), "1m 0s");
    assert_eq!(format_uptime(3600), "1h 0m 0s");
    assert_eq!(format_uptime(86400), "1d 0h 0m 0s");
}

#[test]
fn decimal_rendering() {
    assert_eq!(decimal_string(0), "0");
    assert_eq!(decimal_string(9), "9");
    assert_eq!(decimal_string(10), "10");
    assert_eq!(decimal_string(1234567890), "1234567890");
    assert_eq!(decimal_string(u64::MAX), "18446744073709551615");
}
