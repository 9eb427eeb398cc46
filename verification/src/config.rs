use vstd::prelude::*;

use crate::text::{csv_fields, is_clean_field, join_commas, join_with_commas, lemma_csv_roundtrip, parse_csv, strings_view};

verus! {

/// The user's settings.
#[derive(Debug, Clone)]
pub struct AppConfig {
    pub enabled: bool,
    pub keywords: Vec<String>,
    pub auto_click_delay_ms: u64,
    pub app_whitelist: Vec<String>,
    pub app_blacklist: Vec<String>,
    pub log_enabled: bool,
}

/// The settings as mathematical values.
pub struct ConfigView {
    pub enabled: bool,
    pub keywords: Seq<Seq<char>>,
    pub auto_click_delay_ms: u64,
    pub app_whitelist: Seq<Seq<char>>,
    pub app_blacklist: Seq<Seq<char>>,
    pub log_enabled: bool,
}

impl View for AppConfig {
    type V = ConfigView;

    open spec fn view(&self) -> ConfigView {
        ConfigView {
            enabled: self.enabled,
            keywords: strings_view(self.keywords@),
            auto_click_delay_ms: self.auto_click_delay_ms,
            app_whitelist: strings_view(self.app_whitelist@),
            app_blacklist: strings_view(self.app_blacklist@),
            log_enabled: self.log_enabled,
        }
    }
}

/// The settings that a fresh installation has: enabled, logging on, no
/// keywords of the user's own, no delay, and no allowed or refused apps.
pub open spec fn default_config_view() -> ConfigView {
    ConfigView {
        enabled: true,
        keywords: Seq::empty(),
        auto_click_delay_ms: 0,
        app_whitelist: Seq::empty(),
        app_blacklist: Seq::empty(),
        log_enabled: true,
    }
}

/// Whether the settings are enabled when the stored settings do not say.
pub fn default_enabled() -> (r: bool)
    ensures
        r,
{
    true
}

/// The value of a flag that is on unless the stored settings say otherwise.
pub fn default_true() -> (r: bool)
    ensures
        r,
{
    true
}

/// The user's keywords when the stored settings hold none.
pub fn default_keywords() -> (r: Vec<String>)
    ensures
        r@.len() == 0,
{
    Vec::new()
}

impl Default for AppConfig {
    fn default() -> (r: Self)
        ensures
            r@ == default_config_view(),
    {
        let r = AppConfig {
            enabled: true,
            keywords: Vec::new(),
            auto_click_delay_ms: 0,
            app_whitelist: Vec::new(),
            app_blacklist: Vec::new(),
            log_enabled: true,
        };
        assert(r@.keywords =~= Seq::<Seq<char>>::empty());
        assert(r@.app_whitelist =~= Seq::<Seq<char>>::empty());
        assert(r@.app_blacklist =~= Seq::<Seq<char>>::empty());
        r
    }
}

/// The settings in the form the preference store keeps them: each list as one
/// string with its items separated by commas, the delay as a signed number.
pub struct StoredPrefs {
    pub enabled: bool,
    pub keywords: String,
    pub delay_ms: i64,
    pub whitelist: String,
    pub blacklist: String,
    pub log_enabled: bool,
}

pub struct StoredPrefsView {
    pub enabled: bool,
    pub keywords: Seq<char>,
    pub delay_ms: i64,
    pub whitelist: Seq<char>,
    pub blacklist: Seq<char>,
    pub log_enabled: bool,
}

impl View for StoredPrefs {
    type V = StoredPrefsView;

    open spec fn view(&self) -> StoredPrefsView {
        StoredPrefsView {
            enabled: self.enabled,
            keywords: self.keywords@,
            delay_ms: self.delay_ms,
            whitelist: self.whitelist@,
            blacklist: self.blacklist@,
            log_enabled: self.log_enabled,
        }
    }
}

/// What the preference store receives for the given settings.
pub open spec fn prefs_of_config(c: ConfigView) -> StoredPrefsView {
    StoredPrefsView {
        enabled: c.enabled,
        keywords: join_commas(c.keywords),
        delay_ms: c.auto_click_delay_ms as i64,
        whitelist: join_commas(c.app_whitelist),
        blacklist: join_commas(c.app_blacklist),
        log_enabled: c.log_enabled,
    }
}

/// The settings that the given stored values describe.
pub open spec fn config_of_prefs(p: StoredPrefsView) -> ConfigView {
    ConfigView {
        enabled: p.enabled,
        keywords: csv_fields(p.keywords),
        auto_click_delay_ms: p.delay_ms as u64,
        app_whitelist: csv_fields(p.whitelist),
        app_blacklist: csv_fields(p.blacklist),
        log_enabled: p.log_enabled,
    }
}

/// Every item of every list is non-empty, holds no comma, and has no white
/// space at either end: the items that a list written as one string keeps.
pub open spec fn lists_are_clean(c: ConfigView) -> bool {
    &&& forall|k: int| 0 <= k < c.keywords.len() ==> is_clean_field(#[trigger] c.keywords[k])
    &&& forall|k: int| 0 <= k < c.app_whitelist.len() ==> is_clean_field(#[trigger] c.app_whitelist[k])
    &&& forall|k: int| 0 <= k < c.app_blacklist.len() ==> is_clean_field(#[trigger] c.app_blacklist[k])
}

impl AppConfig {
    /// The settings that the stored values describe: each list split at its
    /// commas, its items trimmed, the empty ones left out; the delay read as
    /// an unsigned number.
    pub fn from_prefs(p: &StoredPrefs) -> (c: AppConfig)
        ensures
            c@ == config_of_prefs(p@),
            c.enabled == p.enabled,
            c.log_enabled == p.log_enabled,
            c.auto_click_delay_ms == p.delay_ms as u64,
            c@.keywords == csv_fields(p.keywords@),
            c@.app_whitelist == csv_fields(p.whitelist@),
            c@.app_blacklist == csv_fields(p.blacklist@),
    {
        AppConfig {
            enabled: p.enabled,
            keywords: parse_csv(p.keywords.as_str()),
            auto_click_delay_ms: p.delay_ms as u64,
            app_whitelist: parse_csv(p.whitelist.as_str()),
            app_blacklist: parse_csv(p.blacklist.as_str()),
            log_enabled: p.log_enabled,
        }
    }

    /// The values to store for these settings: each list joined with commas,
    /// the delay as a signed number.
    pub fn to_prefs(&self) -> (p: StoredPrefs)
        ensures
            p@ == prefs_of_config(self@),
            p.enabled == self.enabled,
            p.log_enabled == self.log_enabled,
            p.delay_ms == self.auto_click_delay_ms as i64,
            p.keywords@ == join_commas(self@.keywords),
            p.whitelist@ == join_commas(self@.app_whitelist),
            p.blacklist@ == join_commas(self@.app_blacklist),
    {
        StoredPrefs {
            enabled: self.enabled,
            keywords: join_with_commas(&self.keywords),
            delay_ms: self.auto_click_delay_ms as i64,
            whitelist: join_with_commas(&self.app_whitelist),
            blacklist: join_with_commas(&self.app_blacklist),
            log_enabled: self.log_enabled,
        }
    }
}

/// Law: settings that are stored and read back come back unchanged, as long
/// as each item of each list is non-empty, holds no comma and has no white
/// space at either end.
pub proof fn lemma_prefs_roundtrip(c: ConfigView)
    requires
        lists_are_clean(c),
    ensures
        config_of_prefs(prefs_of_config(c)) == c,
{
    lemma_csv_roundtrip(c.keywords);
    lemma_csv_roundtrip(c.app_whitelist);
    lemma_csv_roundtrip(c.app_blacklist);
    let d = c.auto_click_delay_ms;
    assert((d as i64) as u64 == d) by (bit_vector);
}

/// Law: each stored value goes to the setting of the same name and back: the
/// two flags are taken as they are (never swapped, never defaulted), the delay
/// keeps its 64 bits, and each list is read from its own string.
pub proof fn lemma_prefs_fields(p: StoredPrefsView, c: ConfigView)
    ensures
        config_of_prefs(p).enabled == p.enabled,
        config_of_prefs(p).log_enabled == p.log_enabled,
        config_of_prefs(p).auto_click_delay_ms as i64 == p.delay_ms,
        config_of_prefs(p).keywords == csv_fields(p.keywords),
        config_of_prefs(p).app_whitelist == csv_fields(p.whitelist),
        config_of_prefs(p).app_blacklist == csv_fields(p.blacklist),
        prefs_of_config(c).enabled == c.enabled,
        prefs_of_config(c).log_enabled == c.log_enabled,
        prefs_of_config(c).delay_ms as u64 == c.auto_click_delay_ms,
        prefs_of_config(c).keywords == join_commas(c.keywords),
        prefs_of_config(c).whitelist == join_commas(c.app_whitelist),
        prefs_of_config(c).blacklist == join_commas(c.app_blacklist),
{
    let d = p.delay_ms;
    assert((d as u64) as i64 == d) by (bit_vector);
    let e = c.auto_click_delay_ms;
    assert((e as i64) as u64 == e) by (bit_vector);
}

/// Law: settings read from stored values hold only clean list items.
pub proof fn lemma_loaded_lists_clean(p: StoredPrefsView)
    ensures
        lists_are_clean(config_of_prefs(p)),
{
    crate::text::lemma_csv_fields_clean(p.keywords);
    crate::text::lemma_csv_fields_clean(p.whitelist);
    crate::text::lemma_csv_fields_clean(p.blacklist);
}

} // verus!
