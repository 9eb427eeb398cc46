use vstd::prelude::*;
use vstd::string::StrSliceExecFns;
use vstd::string::StringExecFns;

use regex::RegexSet;
use std::time::Instant;

use crate::clock::{instant_now, millis_since};
use crate::config::{default_config_view, AppConfig, ConfigView};
use crate::keywords::{
    build_regex_set, default_keyword_list, default_keyword_patterns, regex_set_builds,
    regex_set_is_match, regex_set_matches, regex_set_patterns,
};
use crate::text::{strings_view, trim, trim_str};
use crate::walk::{NodeWalk, Phase};

verus! {

/// How long after one processed window event the next is ignored, in
/// milliseconds.
pub const COOLDOWN_MS: u64 = 50;

/// The keywords in force for the given settings: the user's own, or the
/// default ones where the user has set none.
pub open spec fn active_patterns(c: ConfigView) -> Seq<Seq<char>> {
    if c.keywords.len() == 0 {
        default_keyword_patterns()
    } else {
        c.keywords
    }
}

/// Whether the settings let a window of `package` be searched: the service is
/// enabled, the package is not refused, and where an allow list is set, the
/// package is on it.
pub open spec fn package_admitted(c: ConfigView, package: Seq<char>) -> bool {
    &&& c.enabled
    &&& !c.app_blacklist.contains(package)
    &&& (c.app_whitelist.len() == 0 || c.app_whitelist.contains(package))
}

/// Whether a window event of `package` is searched, `elapsed_ms`
/// milliseconds after the last searched one.
pub open spec fn event_searched(c: ConfigView, package: Seq<char>, cooldown: u64, elapsed_ms: int) -> bool {
    package_admitted(c, package) && elapsed_ms >= cooldown
}

/// The text of a node as it is searched: its text, a space, and its content
/// description.
pub open spec fn node_labels(text: Seq<char>, desc: Seq<char>) -> Seq<char> {
    text + seq![' '] + desc
}

/// The keyword that a node with this text and description yields: its trimmed
/// labels, where they are not empty and some pattern matches the labels.
pub open spec fn node_keyword(patterns: Seq<Seq<char>>, text: Seq<char>, desc: Seq<char>) -> Option<
    Seq<char>,
> {
    let labels = node_labels(text, desc);
    if trim(labels).len() > 0 && regex_set_matches(patterns, labels) {
        Some(trim(labels))
    } else {
        None
    }
}

/// Decides, for each window event, whether the window is searched, and which
/// node text counts as a skip button.
pub struct AdEngine {
    last_process_time: Instant,
    cooldown_ms: u64,
    match_count: u64,
    active: ActiveSettings,
}

/// The settings in force together with their compiled keywords.
struct ActiveSettings {
    keyword_set: RegexSet,
    config: AppConfig,
}

impl AdEngine {
    #[verifier::type_invariant]
    spec fn patterns_follow_config(self) -> bool {
        regex_set_patterns(self.active.keyword_set) == active_patterns(self.active.config@)
    }

    /// The settings in force.
    pub closed spec fn config_view(&self) -> ConfigView {
        self.active.config@
    }

    /// The keyword patterns in force.
    pub closed spec fn patterns(&self) -> Seq<Seq<char>> {
        regex_set_patterns(self.active.keyword_set)
    }

    /// How many skip buttons have been pressed.
    pub closed spec fn matches_recorded(&self) -> u64 {
        self.match_count
    }

    /// The cooldown between processed window events, in milliseconds.
    pub closed spec fn cooldown(&self) -> u64 {
        self.cooldown_ms
    }

    /// The reading of the monotonic clock from which the cooldown runs: taken
    /// when the engine was made, and again at each searched window event.
    pub closed spec fn cooldown_start(&self) -> Instant {
        self.last_process_time
    }

    /// An engine with the default settings and keywords. The default keywords
    /// are plain text, so they compile; the requirement says so to Verus.
    pub fn new() -> (e: Self)
        requires
            regex_set_builds(default_keyword_patterns()),
        ensures
            e.config_view() == default_config_view(),
            e.patterns() == default_keyword_patterns(),
            e.matches_recorded() == 0,
            e.cooldown() == COOLDOWN_MS,
    {
        let patterns = default_keyword_list();
        let keyword_set = build_regex_set(&patterns).expect("Failed to compile keyword regex");
        let config = AppConfig::default();
        assert(active_patterns(config@) == default_keyword_patterns());
        AdEngine {
            last_process_time: instant_now(),
            cooldown_ms: COOLDOWN_MS,
            match_count: 0,
            active: ActiveSettings { keyword_set, config },
        }
    }

    /// `new`, where the default keywords compile; `None` where they do not.
    pub fn try_new() -> (r: Option<Self>)
        ensures
            r is Some <==> regex_set_builds(default_keyword_patterns()),
            r matches Some(e) ==> {
                &&& e.config_view() == default_config_view()
                &&& e.patterns() == default_keyword_patterns()
                &&& e.matches_recorded() == 0
                &&& e.cooldown() == COOLDOWN_MS
            },
    {
        let patterns = default_keyword_list();
        match build_regex_set(&patterns) {
            Ok(_) => Some(Self::new()),
            Err(_) => None,
        }
    }

    /// Puts new settings in force, with their keywords (or the default ones
    /// where they hold none).
    pub fn update_config(&mut self, config: AppConfig)
        requires
            regex_set_builds(active_patterns(config@)),
        ensures
            final(self).config_view() == config@,
            final(self).patterns() == active_patterns(config@),
            config@.keywords.len() > 0 ==> final(self).patterns() == config@.keywords,
            config@.keywords.len() == 0 ==> final(self).patterns() == default_keyword_patterns(),
            final(self).matches_recorded() == old(self).matches_recorded(),
            final(self).cooldown() == old(self).cooldown(),
            final(self).cooldown_start() == old(self).cooldown_start(),
    {
        let patterns: Vec<String> = if config.keywords.len() == 0 {
            default_keyword_list()
        } else {
            let p = config.keywords.clone();
            assert(p@ =~= config.keywords@);
            p
        };
        let keyword_set = build_regex_set(&patterns).expect("Failed to compile keyword regex");
        self.active = ActiveSettings { keyword_set, config };
    }

    /// `update_config`, where the new keywords compile; where they do not, the
    /// engine stays as it was and the result is `false`.
    pub fn try_update_config(&mut self, config: AppConfig) -> (updated: bool)
        ensures
            updated == regex_set_builds(active_patterns(config@)),
            updated ==> final(self).config_view() == config@,
            updated ==> final(self).patterns() == active_patterns(config@),
            updated && config@.keywords.len() > 0 ==> final(self).patterns() == config@.keywords,
            updated && config@.keywords.len() == 0 ==> final(self).patterns()
                == default_keyword_patterns(),
            !updated ==> final(self).config_view() == old(self).config_view(),
            !updated ==> final(self).patterns() == old(self).patterns(),
            final(self).matches_recorded() == old(self).matches_recorded(),
            final(self).cooldown() == old(self).cooldown(),
            final(self).cooldown_start() == old(self).cooldown_start(),
    {
        let patterns: Vec<String> = if config.keywords.len() == 0 {
            default_keyword_list()
        } else {
            let p = config.keywords.clone();
            assert(p@ =~= config.keywords@);
            p
        };
        match build_regex_set(&patterns) {
            Ok(_) => {
                self.update_config(config);
                true
            },
            Err(_) => false,
        }
    }

    /// Whether the settings let a window of `package` be searched.
    pub fn admits_package(&self, package: &str) -> (r: bool)
        ensures
            r == package_admitted(self.config_view(), package@),
            !self.config_view().enabled ==> !r,
            self.config_view().app_blacklist.contains(package@) ==> !r,
            self.config_view().app_whitelist.len() > 0 && !self.config_view().app_whitelist.contains(
                package@,
            ) ==> !r,
            self.config_view().enabled && !self.config_view().app_blacklist.contains(package@) && (
            self.config_view().app_whitelist.len() == 0 || self.config_view().app_whitelist.contains(
                package@,
            )) ==> r,
    {
        if !self.active.config.enabled {
            return false;
        }
        let name = package.to_owned();
        let mut i: usize = 0;
        while i < self.active.config.app_blacklist.len()
            invariant
                i <= self.active.config.app_blacklist@.len(),
                name@ == package@,
                forall|k: int| 0 <= k < i ==> self.active.config.app_blacklist@[k]@ != package@,
            decreases self.active.config.app_blacklist@.len() - i,
        {
            if self.active.config.app_blacklist[i] == name {
                assert(strings_view(self.active.config.app_blacklist@)[i as int] == package@);
                return false;
            }
            i = i + 1;
        }
        assert(!strings_view(self.active.config.app_blacklist@).contains(package@)) by {
            if strings_view(self.active.config.app_blacklist@).contains(package@) {
                let k = choose|k: int|
                    0 <= k < strings_view(self.active.config.app_blacklist@).len() && strings_view(
                        self.active.config.app_blacklist@,
                    )[k] == package@;
                assert(self.active.config.app_blacklist@[k]@ == package@);
            }
        }
        if self.active.config.app_whitelist.len() == 0 {
            return true;
        }
        let mut j: usize = 0;
        while j < self.active.config.app_whitelist.len()
            invariant
                j <= self.active.config.app_whitelist@.len(),
                name@ == package@,
                self.active.config.enabled,
                !strings_view(self.active.config.app_blacklist@).contains(package@),
                forall|k: int| 0 <= k < j ==> self.active.config.app_whitelist@[k]@ != package@,
            decreases self.active.config.app_whitelist@.len() - j,
        {
            if self.active.config.app_whitelist[j] == name {
                assert(strings_view(self.active.config.app_whitelist@)[j as int] == package@);
                assert(strings_view(self.active.config.app_whitelist@).contains(package@));
                return true;
            }
            j = j + 1;
        }
        assert(!strings_view(self.active.config.app_whitelist@).contains(package@)) by {
            if strings_view(self.active.config.app_whitelist@).contains(package@) {
                let k = choose|k: int|
                    0 <= k < strings_view(self.active.config.app_whitelist@).len() && strings_view(
                        self.active.config.app_whitelist@,
                    )[k] == package@;
                assert(self.active.config.app_whitelist@[k]@ == package@);
            }
        }
        false
    }

    /// Whether `elapsed_ms` milliseconds since the last processed event are
    /// enough for the next one to be processed.
    pub fn cooldown_passed(&self, elapsed_ms: u128) -> (r: bool)
        ensures
            r == (elapsed_ms >= self.cooldown()),
    {
        elapsed_ms >= self.cooldown_ms as u128
    }

    /// Decides whether a window event of `package` is searched, given the
    /// milliseconds since the cooldown start and a fresh reading of the clock:
    /// the settings must admit the package and the cooldown must have passed.
    /// Where the event is searched, the cooldown starts again at `now`.
    pub fn admit_event(&mut self, package: &str, elapsed_ms: u128, now: Instant) -> (searched: bool)
        ensures
            searched == event_searched(
                old(self).config_view(),
                package@,
                old(self).cooldown(),
                elapsed_ms as int,
            ),
            searched ==> final(self).cooldown_start() == now,
            !searched ==> final(self).cooldown_start() == old(self).cooldown_start(),
            final(self).config_view() == old(self).config_view(),
            final(self).patterns() == old(self).patterns(),
            final(self).matches_recorded() == old(self).matches_recorded(),
            final(self).cooldown() == old(self).cooldown(),
    {
        proof {
            use_type_invariant(&*self);
        }
        if self.admits_package(package) && self.cooldown_passed(elapsed_ms) {
            self.last_process_time = now;
            true
        } else {
            false
        }
    }

    /// Decides whether a window event of `package` is searched, by the
    /// monotonic clock: a package that the settings refuse is refused before
    /// the clock is read; otherwise the milliseconds since the cooldown start
    /// and a fresh reading go to `admit_event`.
    pub fn begin_process(&mut self, package: &str) -> (searched: bool)
        ensures
            searched ==> package_admitted(old(self).config_view(), package@),
            !package_admitted(old(self).config_view(), package@) ==> !searched,
            !searched ==> final(self).cooldown_start() == old(self).cooldown_start(),
            final(self).config_view() == old(self).config_view(),
            final(self).patterns() == old(self).patterns(),
            final(self).matches_recorded() == old(self).matches_recorded(),
            final(self).cooldown() == old(self).cooldown(),
            exists|elapsed_ms: u128|
                searched == #[trigger] event_searched(
                    old(self).config_view(),
                    package@,
                    old(self).cooldown(),
                    elapsed_ms as int,
                ),
    {
        if !self.admits_package(package) {
            let ghost z: u128 = 0;
            assert(!event_searched(self.config_view(), package@, self.cooldown(), z as int));
            return false;
        }
        let elapsed = millis_since(&self.last_process_time);
        let now = instant_now();
        self.admit_event(package, elapsed, now)
    }

    /// The keyword that a node with this text and content description yields:
    /// the trimmed "text description", where it is not empty and some keyword
    /// pattern matches it.
    pub fn match_labels(&self, text: &str, desc: &str) -> (r: Option<String>)
        ensures
            r matches Some(k) ==> node_keyword(self.patterns(), text@, desc@) == Some(k@),
            r is None ==> node_keyword(self.patterns(), text@, desc@) is None,
    {
        let mut labels = text.to_owned();
        labels.append(" ");
        labels.append(desc);
        proof {
            reveal_strlit(" ");
        }
        assert(labels@ =~= node_labels(text@, desc@));
        let t = trim_str(labels.as_str());
        if t.unicode_len() > 0 && regex_set_is_match(&self.active.keyword_set, labels.as_str()) {
            Some(t.to_owned())
        } else {
            None
        }
    }

    /// Ends the processing of a window event with the walk's outcome: the text
    /// of the pressed skip button, counted as one more match, or `None` where
    /// the walk pressed none.
    pub fn finish_process(&mut self, walk: &NodeWalk) -> (r: Option<String>)
        requires
            old(self).matches_recorded() < u64::MAX,
        ensures
            walk@.phase == Phase::Found ==> (r matches Some(k) && k@ == walk@.keyword),
            walk@.phase != Phase::Found ==> r is None,
            final(self).matches_recorded() == old(self).matches_recorded() + if r is Some {
                1u64
            } else {
                0u64
            },
            final(self).config_view() == old(self).config_view(),
            final(self).patterns() == old(self).patterns(),
            final(self).cooldown() == old(self).cooldown(),
            final(self).cooldown_start() == old(self).cooldown_start(),
    {
        proof {
            use_type_invariant(&*self);
        }
        let r = walk.keyword();
        if r.is_some() {
            self.match_count = self.match_count + 1;
        }
        r
    }

    /// How many skip buttons have been pressed.
    pub fn match_count(&self) -> (n: u64)
        ensures
            n == self.matches_recorded(),
    {
        self.match_count
    }
}

/// Law: the keywords in force are all of the user's keywords, in the order
/// given, whenever the user has set any; the default keywords only when the
/// user has set none. In particular every keyword of the user is in force.
pub proof fn lemma_user_keywords_in_force(c: ConfigView)
    ensures
        c.keywords.len() > 0 ==> active_patterns(c) == c.keywords,
        c.keywords.len() == 0 ==> active_patterns(c) == default_keyword_patterns(),
        forall|i: int| 0 <= i < c.keywords.len() ==> active_patterns(c).contains(#[trigger] c.keywords[i]),
{
    assert forall|i: int| 0 <= i < c.keywords.len() implies active_patterns(c).contains(
        #[trigger] c.keywords[i],
    ) by {
        assert(active_patterns(c)[i] == c.keywords[i]);
    }
}

/// Law: which window events the settings let through. A disabled service
/// searches nothing; a refused package is never searched, whatever the allow
/// list holds; a non-empty allow list admits only its packages, whatever the
/// refuse list holds; and an enabled service searches every package that is
/// not refused and is allowed (every package where the allow list is empty).
pub proof fn lemma_package_admission(c: ConfigView, package: Seq<char>)
    ensures
        !c.enabled ==> !package_admitted(c, package),
        c.app_blacklist.contains(package) ==> !package_admitted(c, package),
        c.app_whitelist.len() > 0 && !c.app_whitelist.contains(package) ==> !package_admitted(
            c,
            package,
        ),
        c.enabled && !c.app_blacklist.contains(package) && (c.app_whitelist.len() == 0
            || c.app_whitelist.contains(package)) ==> package_admitted(c, package),
{
}

/// Law: the cooldown. An event less than the cooldown after the cooldown start
/// is never searched; an admitted package at or after it always is; and for a
/// given package and settings, waiting longer never turns a searched event
/// into a refused one.
pub proof fn lemma_cooldown(c: ConfigView, package: Seq<char>, cooldown: u64, e1: int, e2: int)
    ensures
        e1 < cooldown ==> !event_searched(c, package, cooldown, e1),
        package_admitted(c, package) && e1 >= cooldown ==> event_searched(c, package, cooldown, e1),
        e1 <= e2 && event_searched(c, package, cooldown, e1) ==> event_searched(
            c,
            package,
            cooldown,
            e2,
        ),
{
}

/// A call on an engine, as far as its match count goes: putting settings in
/// force, deciding on a window event, or ending one with or without a pressed
/// button.
pub enum EngineCall {
    UpdateConfig,
    BeginProcess,
    FinishProcess(bool),
}

/// How many of the calls ended a window event with a pressed button.
pub open spec fn buttons_pressed(calls: Seq<EngineCall>) -> nat
    decreases calls.len(),
{
    if calls.len() == 0 {
        0
    } else {
        buttons_pressed(calls.drop_last()) + match calls.last() {
            EngineCall::FinishProcess(true) => 1nat,
            _ => 0nat,
        }
    }
}

/// How the match count changes across one call, as the contracts of
/// `update_config` and `try_update_config`, of `begin_process` and
/// `admit_event`, and of `finish_process` state it.
pub open spec fn count_follows(before: AdEngine, after: AdEngine, call: EngineCall) -> bool {
    match call {
        EngineCall::FinishProcess(found) => after.matches_recorded() == before.matches_recorded()
            + if found {
            1nat
        } else {
            0nat
        },
        _ => after.matches_recorded() == before.matches_recorded(),
    }
}

/// Law: an engine that starts with no matches (as `new` makes it) counts,
/// across any sequence of calls, exactly the window events that ended with a
/// pressed button; settings updates never reset the count.
pub proof fn lemma_match_count(engines: Seq<AdEngine>, calls: Seq<EngineCall>)
    requires
        engines.len() == calls.len() + 1,
        engines[0].matches_recorded() == 0,
        forall|i: int| 0 <= i < calls.len() ==> count_follows(engines[i], engines[i + 1], #[trigger] calls[i]),
    ensures
        engines.last().matches_recorded() == buttons_pressed(calls),
    decreases calls.len(),
{
    if calls.len() > 0 {
        let n = calls.len() - 1;
        let e0 = engines.drop_last();
        let c0 = calls.drop_last();
        assert forall|i: int| 0 <= i < c0.len() implies count_follows(e0[i], e0[i + 1], #[trigger] c0[i]) by {
            assert(c0[i] == calls[i]);
            assert(e0[i] == engines[i] && e0[i + 1] == engines[i + 1]);
        }
        lemma_match_count(e0, c0);
        assert(count_follows(engines[n], engines[n + 1], calls[n]));
        assert(e0.last() == engines[n]);
    }
}

} // verus!
