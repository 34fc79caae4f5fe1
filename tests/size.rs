use lsd_table::size::human_readable_size;

fn float_reference(size: u64) -> String {
    let units = ["B", "KB", "MB", "GB", "TB"];
    let mut value = size as f64;
    let mut unit = 0;
    while value >= 1024.0 && unit < units.len() - 1 {
        value /= 1024.0;
        unit += 1;
    }
    format!("{:.2} {}", value, units[unit])
}

#[test]
fn zero_bytes() {
    assert_eq!(human_readable_size(0), "0.00 B");
}

#[test]
fn exactly_one_kilobyte() {
    assert_eq!(human_readable_size(1024), "1.00 KB");
}

#[test]
fn one_and_a_half_kilobytes() {
    assert_eq!(human_readable_size(1536), "1.50 KB");
}

#[test]
fn exactly_one_terabyte() {
    assert_eq!(human_readable_size(1099511627776), "1.00 TB");
}

#[test]
fn largest_count_stays_in_terabytes() {
    assert_eq!(human_readable_size(u64::MAX), "16777216.00 TB");
    assert_eq!(human_readable_size(1024 * 1099511627776), "1024.00 TB");
}

#[test]
fn below_a_kilobyte_stays_in_bytes() {
    assert_eq!(human_readable_size(1023), "1023.00 B");
    assert_eq!(human_readable_size(7), "7.00 B");
}

#[test]
fn each_unit_boundary() {
    assert_eq!(human_readable_size(1048576), "1.00 MB");
    assert_eq!(human_readable_size(1073741824), "1.00 GB");
    assert_eq!(human_readable_size(1048575), "1024.00 KB");
}

#[test]
fn ties_round_to_even() {
    // 1152 bytes is exactly 1.125 KB.
    assert_eq!(human_readable_size(1152), "1.12 KB");
    // 1408 bytes is exactly 1.375 KB.
    assert_eq!(human_readable_size(1408), "1.38 KB");
}

#[test]
fn agrees_with_float_formatting() {
    let mut n: u64 = 0;
    while n < 300_000 {
        assert_eq!(human_readable_size(n), float_reference(n), "at {}", n);
        n += 7;
    }
    for n in [
        1u64 << 20,
        (1u64 << 30) + 12345,
        (1u64 << 40) - 1,
        (1u64 << 40) + 5_000_000_000,
        123_456_789_012,
        9_007_199_254_740_992,
    ] {
        assert_eq!(human_readable_size(n), float_reference(n), "at {}", n);
    }
}
