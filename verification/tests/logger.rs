use ad_skipper::clock::unix_now_secs;
use ad_skipper::logger::{day_start_secs, today_start_secs, SkipLogger, MAX_LOG_ENTRIES};

#[test]
fn log_keeps_entries_in_order() {
    let mut l = SkipLogger::new();
    assert!(l.entries().is_empty());
    l.log_at(10, "com.a", "跳过", true, "ok");
    l.log_at(20, "com.b", "Skip", false, "not clickable");
    let e = l.entries();
    assert_eq!(e.len(), 2);
    assert_eq!(e[0].timestamp, 10);
    assert_eq!(e[0].package, "com.a");
    assert_eq!(e[0].keyword_matched, "跳过");
    assert!(e[0].clicked);
    assert_eq!(e[0].result, "ok");
    assert_eq!(e[1].package, "com.b");
    assert!(!e[1].clicked);
}

#[test]
fn log_drops_oldest_beyond_capacity() {
    let mut l = SkipLogger::new();
    for i in 0..(MAX_LOG_ENTRIES as u64 + 5) {
        l.log_at(i, "p", "k", true, "r");
    }
    let e = l.entries();
    assert_eq!(e.len(), MAX_LOG_ENTRIES);
    assert_eq!(e[0].timestamp, 5);
    assert_eq!(e[MAX_LOG_ENTRIES - 1].timestamp, MAX_LOG_ENTRIES as u64 + 4);
}

#[test]
fn log_uses_wall_clock() {
    let mut l = SkipLogger::new();
    let before = unix_now_secs();
    l.log("com.a", "Skip", true, "ok");
    let after = unix_now_secs();
    let t = l.entries()[0].timestamp;
    assert!(before <= t && t <= after);
    assert!(before > 1_600_000_000);
}

#[test]
fn recent_returns_last_entries() {
    let mut l = SkipLogger::new();
    for i in 0..5u64 {
        l.log_at(i, "p", "k", false, "r");
    }
    let r = l.recent(2);
    assert_eq!(r.len(), 2);
    assert_eq!(r[0].timestamp, 3);
    assert_eq!(r[1].timestamp, 4);
    assert_eq!(l.recent(10).len(), 5);
    assert_eq!(l.recent(0).len(), 0);
}

#[test]
fn clicks_since_counts_clicked_entries_from_start() {
    let mut l = SkipLogger::new();
    l.log_at(100, "p", "k", true, "r");
    l.log_at(200, "p", "k", false, "r");
    l.log_at(300, "p", "k", true, "r");
    l.log_at(50, "p", "k", true, "r");
    assert_eq!(l.clicks_since(0), 3);
    assert_eq!(l.clicks_since(150), 1);
    assert_eq!(l.clicks_since(300), 1);
    assert_eq!(l.clicks_since(301), 0);
}

#[test]
fn day_start_is_midnight_in_utc_plus_8() {
    // 2024-01-01 00:00 UTC+8 is 2023-12-31 16:00 UTC = 1704038400.
    assert_eq!(day_start_secs(1704038400), 1704038400);
    assert_eq!(day_start_secs(1704038400 + 3600), 1704038400);
    assert_eq!(day_start_secs(1704038400 + 86399), 1704038400);
    assert_eq!(day_start_secs(1704038400 + 86400), 1704038400 + 86400);
    assert_eq!(day_start_secs(1704038399), 1704038400 - 86400);
    // The first day in UTC+8 began before the epoch.
    assert_eq!(day_start_secs(0), 0);
    assert_eq!(day_start_secs(57599), 0);
    assert_eq!(day_start_secs(57600), 57600);
    assert_eq!(day_start_secs(u64::MAX), u64::MAX - ((u64::MAX % 86400 + 28800) % 86400));
}

#[test]
fn today_count_counts_todays_clicks() {
    let mut l = SkipLogger::new();
    let start = today_start_secs();
    l.log("com.a", "Skip", true, "ok");
    l.log("com.a", "Skip", false, "no");
    l.log_at(start.saturating_sub(1), "com.a", "Skip", true, "yesterday");
    assert_eq!(l.today_count(), 1);
}
