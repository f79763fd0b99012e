use dirlist::types::{TimeFormat, Timestamp};
use dirlist::utils::{
    format_datetime, format_permissions_octal, format_permissions_owner, format_permissions_rwx,
    format_size, parse_timezone, unix_clock_text,
};

#[test]
fn size_zero_is_fixed_width() {
    assert_eq!(format_size(0), "   0 B");
}

#[test]
fn size_bytes_are_whole_and_right_aligned() {
    assert_eq!(format_size(5), "   5 B");
    assert_eq!(format_size(42), "  42 B");
    assert_eq!(format_size(999), " 999 B");
}

#[test]
fn size_decimal_places_follow_magnitude() {
    assert_eq!(format_size(1000), "1.00 KB");
    assert_eq!(format_size(1500), "1.50 KB");
    assert_eq!(format_size(12_345), "12.3 KB");
    assert_eq!(format_size(123_456), " 123 KB");
    assert_eq!(format_size(2_500_000), "2.50 MB");
    assert_eq!(format_size(7_000_000_000), "7.00 GB");
    assert_eq!(format_size(45_600_000_000_000), "45.6 TB");
    assert_eq!(format_size(1_000_000_000_000_000), "1.00 PB");
}

#[test]
fn size_rounds_half_up() {
    assert_eq!(format_size(1005), "1.01 KB");
    assert_eq!(format_size(1004), "1.00 KB");
    assert_eq!(format_size(999_999), "1000 KB");
}

#[test]
fn size_largest_value_stays_in_petabytes() {
    assert_eq!(format_size(u64::MAX), "18447 PB");
}

fn shown_bytes(text: &str) -> f64 {
    let mut parts = text.split_whitespace();
    let number: f64 = parts.next().unwrap().parse().unwrap();
    let scale = match parts.next().unwrap() {
        "B" => 1.0,
        "KB" => 1e3,
        "MB" => 1e6,
        "GB" => 1e9,
        "TB" => 1e12,
        _ => 1e15,
    };
    number * scale
}

#[test]
fn size_display_never_shrinks_as_bytes_grow() {
    let mut previous = 0.0;
    let mut n: u64 = 0;
    while n < 2_000_000 {
        let shown = shown_bytes(&format_size(n));
        assert!(shown >= previous - 1e-6, "{} shows less than {}", n, n - 1);
        previous = shown;
        n += if n < 20_000 { 1 } else { 7 };
    }
}

#[test]
fn permissions_rwx() {
    assert_eq!(format_permissions_rwx(0o754), "rwxr-xr--");
    assert_eq!(format_permissions_rwx(0o644), "rw-r--r--");
    assert_eq!(format_permissions_rwx(0), "---------");
    assert_eq!(format_permissions_rwx(0o100755), "rwxr-xr-x");
}

#[test]
fn permissions_octal() {
    assert_eq!(format_permissions_octal(0o754), "754");
    assert_eq!(format_permissions_octal(0o644), "644");
    assert_eq!(format_permissions_octal(0), "000");
    assert_eq!(format_permissions_octal(0o40755), "755");
}

#[test]
fn permissions_owner() {
    assert_eq!(format_permissions_owner(0o644), "read-write");
    assert_eq!(format_permissions_owner(0o444), "read-only");
}

#[test]
fn octal_digits_decode_to_rwx_triplets() {
    for mode in 0u32..0o1000 {
        let rwx = format_permissions_rwx(mode);
        let octal = format_permissions_octal(mode);
        let mut decoded = String::new();
        for c in octal.chars() {
            let d = c.to_digit(8).unwrap();
            decoded.push(if d & 4 != 0 { 'r' } else { '-' });
            decoded.push(if d & 2 != 0 { 'w' } else { '-' });
            decoded.push(if d & 1 != 0 { 'x' } else { '-' });
        }
        assert_eq!(decoded, rwx);
    }
}

fn epoch() -> Timestamp {
    Timestamp { secs: 0, nanos: 0 }
}

#[test]
fn datetime_utc() {
    assert_eq!(format_datetime(epoch(), &TimeFormat::Utc, "UTC", "", false).unwrap(), "Thu Jan  1 1970");
    assert_eq!(
        format_datetime(epoch(), &TimeFormat::Utc, "UTC", "", true).unwrap(),
        "Thu Jan  1 1970 00:00:00 UTC"
    );
}

#[test]
fn datetime_unix() {
    let t = Timestamp { secs: 1_700_000_000, nanos: 0 };
    assert_eq!(format_datetime(t, &TimeFormat::Unix, "UTC", "", false).unwrap(), "1700000000");
    assert_eq!(
        format_datetime(t, &TimeFormat::Unix, "UTC", "", true).unwrap(),
        "1700000000 (Tue Nov 14 2023 22:13:20 UTC)"
    );
    let before = Timestamp { secs: -1, nanos: 0 };
    assert_eq!(format_datetime(before, &TimeFormat::Unix, "UTC", "", false).unwrap(), "-1");
}

#[test]
fn datetime_iso_and_rfc() {
    let t = Timestamp { secs: 1_700_000_000, nanos: 0 };
    assert_eq!(format_datetime(t, &TimeFormat::Iso8601, "UTC", "", false).unwrap(), "2023-11-14");
    assert_eq!(
        format_datetime(t, &TimeFormat::Iso8601, "UTC", "", true).unwrap(),
        "2023-11-14T22:13:20Z"
    );
    assert_eq!(format_datetime(t, &TimeFormat::Rfc3339, "UTC", "", false).unwrap(), "2023-11-14");
    assert_eq!(
        format_datetime(t, &TimeFormat::Rfc3339, "UTC", "", true).unwrap(),
        "2023-11-14T22:13:20+00:00"
    );
}

#[test]
fn datetime_in_a_zone() {
    assert_eq!(
        format_datetime(epoch(), &TimeFormat::Utf, "Asia/Tokyo", "", true).unwrap(),
        "Thu Jan  1 1970 09:00:00 JST"
    );
    assert_eq!(
        format_datetime(epoch(), &TimeFormat::Local, "Asia/Tokyo", "", false).unwrap(),
        "Thu Jan  1 1970"
    );
}

#[test]
fn datetime_custom_pattern_ignores_clock() {
    let a = format_datetime(epoch(), &TimeFormat::Custom, "Asia/Tokyo", "%Y-%m-%d %H", false);
    let b = format_datetime(epoch(), &TimeFormat::Custom, "Asia/Tokyo", "%Y-%m-%d %H", true);
    assert_eq!(a.unwrap(), "1970-01-01 09");
    assert_eq!(b.unwrap(), "1970-01-01 09");
}

#[test]
fn datetime_unrenderable_gives_none() {
    assert!(format_datetime(epoch(), &TimeFormat::Custom, "UTC", "%Q", false).is_none());
    assert!(format_datetime(epoch(), &TimeFormat::Utf, "Not/AZone", "", false).is_none());
    let far = Timestamp { secs: i64::MAX, nanos: 0 };
    assert!(format_datetime(far, &TimeFormat::Utc, "UTC", "", false).is_none());
}

#[test]
fn unix_clock_composes() {
    assert_eq!(unix_clock_text(-42, "then"), "-42 (then)");
    assert_eq!(unix_clock_text(7, ""), "7 ()");
}

#[test]
fn timezone_known_and_unknown() {
    let known = parse_timezone("Europe/London");
    assert!(!known.fell_back);
    assert_eq!(known.name, "Europe/London");
    let unknown = parse_timezone("Mars/Olympus");
    assert!(unknown.fell_back);
    assert_eq!(unknown.name, "UTC");
}

#[test]
fn timestamps_from_epoch_offsets() {
    assert_eq!(Timestamp::from_offset(false, 5, 7), Some(Timestamp { secs: 5, nanos: 7 }));
    assert_eq!(Timestamp::from_offset(true, 5, 0), Some(Timestamp { secs: -5, nanos: 0 }));
    assert_eq!(
        Timestamp::from_offset(true, 5, 250_000_000),
        Some(Timestamp { secs: -6, nanos: 750_000_000 })
    );
    assert_eq!(Timestamp::from_offset(false, u64::MAX, 0), None);
}
