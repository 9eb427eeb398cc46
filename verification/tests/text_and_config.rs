use ad_skipper::config::{default_enabled, default_keywords, default_true, AppConfig, StoredPrefs};
use ad_skipper::text::{is_white_space_char, join_with_commas, parse_csv, trim_str};

fn strings(items: &[&str]) -> Vec<String> {
    items.iter().map(|s| s.to_string()).collect()
}

#[test]
fn trim_removes_unicode_white_space_at_both_ends() {
    assert_eq!(trim_str("  skip \t"), "skip");
    assert_eq!(trim_str("\u{3000}跳过\u{a0}"), "跳过");
    assert_eq!(trim_str(" a b "), "a b");
    assert_eq!(trim_str("   "), "");
    assert_eq!(trim_str(""), "");
}

#[test]
fn white_space_agrees_with_std() {
    for u in 0u32..0x3100 {
        if let Some(c) = char::from_u32(u) {
            assert_eq!(is_white_space_char(c), c.is_whitespace(), "code point {:x}", u);
        }
    }
}

#[test]
fn parse_csv_trims_and_drops_empty_fields() {
    assert_eq!(parse_csv("a, b,,c "), strings(&["a", "b", "c"]));
    assert_eq!(parse_csv(""), Vec::<String>::new());
    assert_eq!(parse_csv(" , ,"), Vec::<String>::new());
    assert_eq!(parse_csv("com.example.app"), strings(&["com.example.app"]));
    assert_eq!(parse_csv("跳过 ,关闭"), strings(&["跳过", "关闭"]));
}

#[test]
fn join_puts_commas_between_items() {
    assert_eq!(join_with_commas(&strings(&["a", "b", "c"])), "a,b,c");
    assert_eq!(join_with_commas(&strings(&["only"])), "only");
    assert_eq!(join_with_commas(&Vec::new()), "");
}

#[test]
fn parse_of_join_gives_back_clean_items() {
    let items = strings(&["跳过", "Skip ad", "x"]);
    assert_eq!(parse_csv(&join_with_commas(&items)), items);
}

#[test]
fn default_config_values() {
    let c = AppConfig::default();
    assert!(c.enabled);
    assert!(c.keywords.is_empty());
    assert_eq!(c.auto_click_delay_ms, 0);
    assert!(c.app_whitelist.is_empty());
    assert!(c.app_blacklist.is_empty());
    assert!(c.log_enabled);
    assert!(default_enabled());
    assert!(default_true());
    assert!(default_keywords().is_empty());
}

#[test]
fn prefs_roundtrip_keeps_clean_settings() {
    let c = AppConfig {
        enabled: false,
        keywords: strings(&["Skip", "跳过"]),
        auto_click_delay_ms: u64::MAX - 5,
        app_whitelist: strings(&["com.a"]),
        app_blacklist: strings(&["com.b", "com.c"]),
        log_enabled: false,
    };
    let p = c.to_prefs();
    assert_eq!(p.keywords, "Skip,跳过");
    assert_eq!(p.delay_ms, -6);
    assert_eq!(p.blacklist, "com.b,com.c");
    let back = AppConfig::from_prefs(&p);
    assert_eq!(back.enabled, c.enabled);
    assert_eq!(back.keywords, c.keywords);
    assert_eq!(back.auto_click_delay_ms, c.auto_click_delay_ms);
    assert_eq!(back.app_whitelist, c.app_whitelist);
    assert_eq!(back.app_blacklist, c.app_blacklist);
    assert_eq!(back.log_enabled, c.log_enabled);
}

#[test]
fn from_prefs_reads_lists_and_delay() {
    let p = StoredPrefs {
        enabled: true,
        keywords: " Skip , ,Close".to_string(),
        delay_ms: 250,
        whitelist: "".to_string(),
        blacklist: "com.x".to_string(),
        log_enabled: true,
    };
    let c = AppConfig::from_prefs(&p);
    assert_eq!(c.keywords, strings(&["Skip", "Close"]));
    assert_eq!(c.auto_click_delay_ms, 250);
    assert!(c.app_whitelist.is_empty());
    assert_eq!(c.app_blacklist, strings(&["com.x"]));
}
