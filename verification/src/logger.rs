use vstd::prelude::*;

use crate::clock::unix_now_secs;

verus! {

/// One attempt to skip an advertisement, as the log keeps it.
#[derive(Debug, Clone)]
pub struct SkipLogEntry {
    pub timestamp: u64,
    pub package: String,
    pub keyword_matched: String,
    pub clicked: bool,
    pub result: String,
}

/// The log keeps at most this many entries, the most recent ones.
pub const MAX_LOG_ENTRIES: usize = 200;

/// Offset of the time zone in which a day is counted (UTC+8), in seconds.
pub const DAY_OFFSET_SECS: u64 = 28800;

/// Seconds in a day.
pub const SECS_PER_DAY: u64 = 86400;

/// The in-memory log of recent attempts, oldest first.
pub struct SkipLogger {
    entries: Vec<SkipLogEntry>,
}

/// Whether `e` records the given attempt.
pub open spec fn entry_records(
    e: SkipLogEntry,
    timestamp: u64,
    package: Seq<char>,
    keyword: Seq<char>,
    clicked: bool,
    result: Seq<char>,
) -> bool {
    &&& e.timestamp == timestamp
    &&& e.package@ == package
    &&& e.keyword_matched@ == keyword
    &&& e.clicked == clicked
    &&& e.result@ == result
}

/// The log after `e` is added: `e` at the end and, where that makes one entry
/// too many, the oldest entry dropped.
pub open spec fn log_after_adding(log: Seq<SkipLogEntry>, e: SkipLogEntry) -> Seq<SkipLogEntry> {
    if log.len() + 1 > MAX_LOG_ENTRIES {
        log.push(e).drop_first()
    } else {
        log.push(e)
    }
}

/// The last `min(count, len)` entries of the log.
pub open spec fn most_recent(log: Seq<SkipLogEntry>, count: nat) -> Seq<SkipLogEntry> {
    if log.len() <= count {
        log
    } else {
        log.subrange(log.len() - count, log.len() as int)
    }
}

/// How many entries record a click at or after `start`.
pub open spec fn clicked_since(log: Seq<SkipLogEntry>, start: int) -> nat
    decreases log.len(),
{
    if log.len() == 0 {
        0
    } else {
        clicked_since(log.drop_last(), start) + if log.last().timestamp >= start
            && log.last().clicked {
            1nat
        } else {
            0nat
        }
    }
}

/// The moment at which the day (in UTC+8) that holds `now` began, in seconds
/// since 1970-01-01 00:00 UTC; negative for the first hours of 1970-01-01.
pub open spec fn local_day_start(now: int) -> int {
    ((now + DAY_OFFSET_SECS) / (SECS_PER_DAY as int)) * SECS_PER_DAY - DAY_OFFSET_SECS
}

/// `local_day_start(now)`, or 0 where that moment lies before 1970-01-01
/// 00:00 UTC (no entry's timestamp lies before either).
pub open spec fn day_start_from(now: u64) -> int {
    if local_day_start(now as int) >= 0 {
        local_day_start(now as int)
    } else {
        0
    }
}

impl View for SkipLogger {
    type V = Seq<SkipLogEntry>;

    closed spec fn view(&self) -> Seq<SkipLogEntry> {
        self.entries@
    }
}

impl SkipLogger {
    #[verifier::type_invariant]
    spec fn bounded(self) -> bool {
        self.entries@.len() <= MAX_LOG_ENTRIES
    }

    /// An empty log.
    pub fn new() -> (l: Self)
        ensures
            l@ == Seq::<SkipLogEntry>::empty(),
    {
        SkipLogger { entries: Vec::new() }
    }

    /// Adds an attempt made at `timestamp`; the oldest entry goes where the log
    /// would otherwise hold more than `MAX_LOG_ENTRIES`.
    pub fn log_at(
        &mut self,
        timestamp: u64,
        package: &str,
        keyword: &str,
        clicked: bool,
        result: &str,
    )
        ensures
            final(self)@.len() > 0,
            entry_records(final(self)@.last(), timestamp, package@, keyword@, clicked, result@),
            final(self)@ == log_after_adding(old(self)@, final(self)@.last()),
            final(self)@.len() <= MAX_LOG_ENTRIES,
    {
        proof {
            use_type_invariant(&*self);
        }
        let entry = SkipLogEntry {
            timestamp,
            package: package.to_owned(),
            keyword_matched: keyword.to_owned(),
            clicked,
            result: result.to_owned(),
        };
        let ghost e = entry;
        let ghost before = self.entries@;
        let mut entries = Vec::new();
        std::mem::swap(&mut entries, &mut self.entries);
        entries.push(entry);
        if entries.len() > MAX_LOG_ENTRIES {
            entries.remove(0);
            assert(entries@ =~= before.push(e).drop_first());
        }
        assert(entries@.last() == e);
        self.entries = entries;
    }

    /// Adds an attempt made now, by the wall clock.
    pub fn log(&mut self, package: &str, keyword: &str, clicked: bool, result: &str)
        ensures
            final(self)@.len() > 0,
            entry_records(
                final(self)@.last(),
                final(self)@.last().timestamp,
                package@,
                keyword@,
                clicked,
                result@,
            ),
            final(self)@ == log_after_adding(old(self)@, final(self)@.last()),
            final(self)@.len() <= MAX_LOG_ENTRIES,
    {
        let now = unix_now_secs();
        self.log_at(now, package, keyword, clicked, result);
    }

    /// All entries, oldest first.
    pub fn entries(&self) -> (r: &[SkipLogEntry])
        ensures
            r@ == self@,
            r@.len() <= MAX_LOG_ENTRIES,
    {
        proof {
            use_type_invariant(self);
        }
        self.entries.as_slice()
    }

    /// The last `count` entries, or all of them where there are fewer.
    pub fn recent(&self, count: usize) -> (r: &[SkipLogEntry])
        ensures
            r@ == most_recent(self@, count as nat),
    {
        let len = self.entries.len();
        if len <= count {
            self.entries.as_slice()
        } else {
            let all = self.entries.as_slice();
            &all[len - count..len]
        }
    }

    /// How many entries record a click at or after `start`.
    pub fn clicks_since(&self, start: u64) -> (n: u64)
        ensures
            n == clicked_since(self@, start as int),
            n <= self@.len(),
    {
        proof {
            use_type_invariant(self);
        }
        let mut n: u64 = 0;
        let mut i: usize = 0;
        assert(self.entries@.take(0) =~= Seq::<SkipLogEntry>::empty());
        while i < self.entries.len()
            invariant
                i <= self.entries@.len() <= MAX_LOG_ENTRIES,
                n == clicked_since(self.entries@.take(i as int), start as int),
                n <= i,
            decreases self.entries@.len() - i,
        {
            assert(self.entries@.take(i + 1).drop_last() =~= self.entries@.take(i as int));
            let e = &self.entries[i];
            if e.timestamp >= start && e.clicked {
                n = n + 1;
            }
            i = i + 1;
        }
        assert(self.entries@.take(self.entries@.len() as int) =~= self.entries@);
        n
    }

    /// How many entries record a click made today (in UTC+8), by the wall clock.
    pub fn today_count(&self) -> (n: u64)
        ensures
            n <= self@.len(),
            exists|now: u64| n == clicked_since(self@, #[trigger] day_start_from(now)),
    {
        self.clicks_since(today_start_secs())
    }
}

/// Adding one entry to the most recent entries of `added` gives the most
/// recent entries of `added` with the new one.
proof fn lemma_add_to_most_recent(added: Seq<SkipLogEntry>, e: SkipLogEntry)
    ensures
        log_after_adding(most_recent(added, MAX_LOG_ENTRIES as nat), e) == most_recent(
            added.push(e),
            MAX_LOG_ENTRIES as nat,
        ),
{
    let m = MAX_LOG_ENTRIES as int;
    let n = added.len() as int;
    if n >= m {
        let l = most_recent(added, MAX_LOG_ENTRIES as nat);
        assert(l.len() == m);
        assert(l.push(e).drop_first() =~= added.push(e).subrange(n + 1 - m, n + 1));
    } else {
        assert(added.push(e).len() <= m);
    }
}

/// Law: a log that starts empty and has had entries added, each step as
/// `log_after_adding` says (as `log` and `log_at` do), holds the last
/// `MAX_LOG_ENTRIES` of the added entries, or all of them where there are
/// fewer, oldest first.
pub proof fn lemma_log_history(states: Seq<Seq<SkipLogEntry>>)
    requires
        states.len() >= 1,
        states[0].len() == 0,
        forall|i: int|
            0 <= i < states.len() - 1 ==> (#[trigger] states[i + 1]).len() > 0 && states[i + 1]
                == log_after_adding(states[i], states[i + 1].last()),
    ensures
        states.last() == most_recent(
            Seq::new((states.len() - 1) as nat, |i: int| states[i + 1].last()),
            MAX_LOG_ENTRIES as nat,
        ),
    decreases states.len(),
{
    let n = states.len() - 1;
    let added = Seq::new(n as nat, |i: int| states[i + 1].last());
    if n == 0 {
        assert(added =~= Seq::<SkipLogEntry>::empty());
        assert(states.last() =~= Seq::<SkipLogEntry>::empty());
    } else {
        let prev = states.drop_last();
        assert forall|i: int| 0 <= i < prev.len() - 1 implies (#[trigger] prev[i + 1]).len() > 0
            && prev[i + 1] == log_after_adding(prev[i], prev[i + 1].last()) by {
            assert(prev[i + 1] == states[i + 1]);
            assert(prev[i] == states[i]);
        }
        lemma_log_history(prev);
        let prev_added = Seq::new((prev.len() - 1) as nat, |i: int| prev[i + 1].last());
        assert(prev_added.push(states.last().last()) =~= added);
        assert(states[n - 1] == prev.last());
        assert(states[n].len() > 0 && states[n] == log_after_adding(states[n - 1], states[n].last()));
        lemma_add_to_most_recent(prev_added, states.last().last());
    }
}

/// Law: the start of the day that holds `now` is the last UTC+8 midnight at or
/// before `now`: it is at most `now`, less than a day before it, and it falls on
/// a UTC+8 midnight (16:00 UTC); where that midnight lies before 1970, the start
/// is 0.
pub proof fn lemma_day_start(now: u64)
    ensures
        local_day_start(now as int) <= now < local_day_start(now as int) + SECS_PER_DAY,
        (local_day_start(now as int) + DAY_OFFSET_SECS) % (SECS_PER_DAY as int) == 0,
        day_start_from(now) >= 0,
        local_day_start(now as int) >= 0 ==> day_start_from(now) == local_day_start(now as int),
        local_day_start(now as int) < 0 ==> day_start_from(now) == 0 && now < 57600,
{
    let d = SECS_PER_DAY as int;
    let o = DAY_OFFSET_SECS as int;
    vstd::arithmetic::div_mod::lemma_fundamental_div_mod(now + o, d);
    vstd::arithmetic::div_mod::lemma_mod_multiples_basic((now + o) / d, d);
    assert(((now + o) / d) * d == d * ((now + o) / d)) by (nonlinear_arith);
}

/// The start of the day (in UTC+8) that holds `now`, in seconds since
/// 1970-01-01 00:00 UTC; 0 where that day began before 1970-01-01 00:00 UTC,
/// which counts every entry as today's just as the earlier moment would.
pub fn day_start_secs(now: u64) -> (start: u64)
    ensures
        start == day_start_from(now),
        start <= now,
        now < start + SECS_PER_DAY,
{
    let rem = now % SECS_PER_DAY;
    let shift = (rem + DAY_OFFSET_SECS) % SECS_PER_DAY;
    proof {
        let d = SECS_PER_DAY as int;
        let o = DAY_OFFSET_SECS as int;
        vstd::arithmetic::div_mod::lemma_fundamental_div_mod(now + o, d);
        vstd::arithmetic::div_mod::lemma_add_mod_noop(now as int, o, d);
        vstd::arithmetic::div_mod::lemma_small_mod(o as nat, d as nat);
        vstd::arithmetic::div_mod::lemma_mod_twice(now as int, d);
        assert(local_day_start(now as int) == now - shift);
    }
    if now >= shift {
        now - shift
    } else {
        0
    }
}

/// The start of the current day (in UTC+8), by the wall clock.
pub fn today_start_secs() -> (start: u64)
    ensures
        exists|now: u64| start == #[trigger] day_start_from(now),
{
    day_start_secs(unix_now_secs())
}

} // verus!
