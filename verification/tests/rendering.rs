use ls_git::{age_seconds, duration_to_time_since, get_theme, u64_to_string, Theme};

#[test]
fn decimal_rendering() {
    assert_eq!(u64_to_string(0), "0");
    assert_eq!(u64_to_string(7), "7");
    assert_eq!(u64_to_string(10), "10");
    assert_eq!(u64_to_string(1234567890), "1234567890");
    assert_eq!(u64_to_string(u64::MAX), "18446744073709551615");
}

#[test]
fn seconds_bucket() {
    assert_eq!(duration_to_time_since(0), "0 seconds ago");
    assert_eq!(duration_to_time_since(45), "45 seconds ago");
    assert_eq!(duration_to_time_since(59), "59 seconds ago");
}

#[test]
fn minute_buckets() {
    assert_eq!(duration_to_time_since(60), "1 minute ago");
    assert_eq!(duration_to_time_since(90), "1 minute ago");
    assert_eq!(duration_to_time_since(119), "1 minute ago");
    assert_eq!(duration_to_time_since(120), "2 minutes ago");
    assert_eq!(duration_to_time_since(3599), "59 minutes ago");
}

#[test]
fn hour_buckets() {
    assert_eq!(duration_to_time_since(3600), "1 hour ago");
    assert_eq!(duration_to_time_since(7199), "1 hour ago");
    assert_eq!(duration_to_time_since(7200), "2 hours ago");
    assert_eq!(duration_to_time_since(7300), "2 hours ago");
    assert_eq!(duration_to_time_since(86399), "23 hours ago");
}

#[test]
fn day_buckets() {
    assert_eq!(duration_to_time_since(86400), "yesterday");
    assert_eq!(duration_to_time_since(172799), "yesterday");
    // the boundary is strict less-than: exactly two days is a day count
    assert_eq!(duration_to_time_since(172800), "2 days ago");
    assert_eq!(duration_to_time_since(2678399), "30 days ago");
}

#[test]
fn month_buckets() {
    assert_eq!(duration_to_time_since(2678400), "1 months ago");
    assert_eq!(duration_to_time_since(26784000), "10 months ago");
}

#[test]
fn age_saturates() {
    assert_eq!(age_seconds(100, 40), 60);
    assert_eq!(age_seconds(100, 100), 0);
    // a commit timestamped in the future counts as zero seconds old
    assert_eq!(age_seconds(100, 200), 0);
    // a pre-epoch timestamp adds its magnitude
    assert_eq!(age_seconds(10, -5), 15);
    assert_eq!(age_seconds(u64::MAX, -1), u64::MAX);
}

#[test]
fn theme_names() {
    assert_eq!(get_theme(String::from("light")), Theme::Light);
    assert_eq!(get_theme(String::from("dark")), Theme::Dark);
    assert_eq!(get_theme(String::from("contrast")), Theme::Contrast);
    assert_eq!(get_theme(String::from("dimm")), Theme::Dimm);
    assert_eq!(get_theme(String::from("anything else")), Theme::Dimm);
    assert_eq!(get_theme(String::from("")), Theme::Dimm);
}
