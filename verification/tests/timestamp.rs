use std::time::{Duration, UNIX_EPOCH};

use glaze_layout::timestamp::{
    civil_from_unix, default_layout_filename, format_system_time_rfc3339, format_unix_time_rfc3339,
    layout_filename_for,
};

#[test]
fn leap_days_are_counted() {
    // 29 February of a year divisible by 400, and the day after.
    assert_eq!(format_unix_time_rfc3339(951_782_400, 0), "2000-02-29T00:00:00Z");
    assert_eq!(format_unix_time_rfc3339(951_868_800, 0), "2000-03-01T00:00:00Z");
    // 2100 is no leap year.
    assert_eq!(format_unix_time_rfc3339(4_107_456_000, 0), "2100-02-28T00:00:00Z");
    assert_eq!(format_unix_time_rfc3339(4_107_542_400, 0), "2100-03-01T00:00:00Z");
    let last = civil_from_unix(951_868_799);
    assert_eq!((last.hour, last.minute, last.second), (23, 59, 59));
}

#[test]
fn fraction_has_nine_digits() {
    assert_eq!(format_unix_time_rfc3339(0, 1_000_000), "1970-01-01T00:00:00.001000000Z");
    let t = UNIX_EPOCH + Duration::new(1_700_000_000, 42);
    assert_eq!(format_system_time_rfc3339(t), "2023-11-14T22:13:20.000000042Z");
}

#[test]
fn times_before_the_epoch_read_as_the_epoch() {
    let t = UNIX_EPOCH - Duration::from_secs(1);
    assert_eq!(format_system_time_rfc3339(t), "1970-01-01T00:00:00Z");
}

#[test]
fn file_name_holds_date_and_time() {
    let t = UNIX_EPOCH + Duration::from_secs(1_700_000_000);
    assert_eq!(default_layout_filename(t), "glazewm-layout-20231114-221320.json");
    assert_eq!(layout_filename_for("no digits"), "glazewm-layout.json");
    assert_eq!(layout_filename_for("1234567890123"), "glazewm-layout.json");
}
