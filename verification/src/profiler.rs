//! Where the time of a run goes: calls are counted by label and detail, and the
//! largest entries are reported at the end.
use vstd::prelude::*;
use vstd::string::*;

use crate::inspect::distinct;
use crate::machine::{given_view, read_setting, setting};
use crate::notify::{
    duration_text, event_views, format_duration, CoreEvent, Elapsed, EventView, NotificationLevel,
};
use crate::text::{
    ascii_lowercase, decimal, lower_char, lowercase, push_decimal, same_text, trim, trim_string,
};

verus! {

pub const DEFAULT_TOP: usize = 20;

/// Whether the text of the variable that turns profiling on does so.
pub open spec fn turns_on(given: Option<Seq<char>>) -> bool {
    match given {
        Some(text) => {
            let value = trim(text);
            let small = ascii_lowercase(value);
            !(value.len() == 0 || value == "0"@ || small == "false"@ || small == "off"@ || small
                == "no"@)
        },
        None => false,
    }
}

/// Reads the variable that turns profiling on.
pub fn cpu_profiling_enabled(given: Option<&str>) -> (on: bool)
    ensures
        on == turns_on(given_view(given)),
{
    match given {
        Some(text) => {
            let value = trim_string(text);
            let small = lowercase(&value);
            !(value.as_str().is_empty() || same_text(&value, "0") || same_text(&small, "false")
                || same_text(&small, "off") || same_text(&small, "no"))
        },
        None => false,
    }
}

/// Reads the variable that sets how many entries are reported.
pub fn profile_top_n(given: Option<&str>) -> (n: usize)
    ensures
        n == setting(given_view(given), DEFAULT_TOP as int),
{
    read_setting(given, DEFAULT_TOP)
}

/// The calls with one label and one detail.
#[derive(Debug, Clone)]
pub struct ProfileEntry {
    pub label: String,
    pub details: String,
    pub calls: u64,
    pub total: Elapsed,
    pub max: Elapsed,
}

/// What is counted apart.
#[derive(Debug, Clone, Copy, PartialEq, Eq, Structural)]
pub enum ProfileKind {
    Scope,
    Op,
}

/// The counts of a run.
#[derive(Debug)]
pub struct CpuProfiler {
    pub active: bool,
    pub label: String,
    pub scopes: Vec<ProfileEntry>,
    pub ops: Vec<ProfileEntry>,
}

pub open spec fn has_key(entry: ProfileEntry, label: Seq<char>, details: Seq<char>) -> bool {
    entry.label@ == label && entry.details@ == details
}

/// The first place at or after `i` of an entry with a key, or the length.
pub open spec fn key_place(
    entries: Seq<ProfileEntry>,
    label: Seq<char>,
    details: Seq<char>,
    i: int,
) -> int
    decreases entries.len() - i,
{
    if i < 0 || i >= entries.len() || has_key(entries[i], label, details) {
        i
    } else {
        key_place(entries, label, details, i + 1)
    }
}

/// `after` is the entry with a call of `elapsed` more.
pub open spec fn is_call_added(before: ProfileEntry, elapsed: Elapsed, after: ProfileEntry) -> bool {
    &&& after.label@ == before.label@
    &&& after.details@ == before.details@
    &&& after.calls == before.calls + 1
    &&& after.total.nanos == before.total.nanos + elapsed.nanos
    &&& after.max.nanos == if elapsed.nanos > before.max.nanos {
        elapsed.nanos
    } else {
        before.max.nanos
    }
}

/// The first call with a key.
pub open spec fn is_first_call(
    label: Seq<char>,
    details: Seq<char>,
    elapsed: Elapsed,
    entry: ProfileEntry,
) -> bool {
    has_key(entry, label, details) && entry.calls == 1 && entry.total == elapsed && entry.max
        == elapsed
}

/// `after` is `before` with a call more: counted with its key where there is an entry
/// for it, and in a new entry otherwise.
pub open spec fn is_recorded(
    before: Seq<ProfileEntry>,
    label: Seq<char>,
    details: Seq<char>,
    elapsed: Elapsed,
    after: Seq<ProfileEntry>,
) -> bool {
    let k = key_place(before, label, details, 0);
    if k < before.len() {
        &&& after.len() == before.len()
        &&& is_call_added(before[k], elapsed, after[k])
        &&& forall|j: int| 0 <= j < before.len() && j != k ==> #[trigger] after[j] == before[j]
    } else {
        &&& after.len() == before.len() + 1
        &&& is_first_call(label, details, elapsed, after.last())
        &&& forall|j: int| 0 <= j < before.len() ==> #[trigger] after[j] == before[j]
    }
}

/// Another call of `elapsed` can be counted.
pub open spec fn has_room(entries: Seq<ProfileEntry>, elapsed: Elapsed) -> bool {
    forall|j: int|
        0 <= j < entries.len() ==> (#[trigger] entries[j]).calls < u64::MAX
            && entries[j].total.nanos + elapsed.nanos <= u64::MAX
}

fn record_in(entries: &mut Vec<ProfileEntry>, label: &str, details: &str, elapsed: Elapsed)
    requires
        has_room(old(entries)@, elapsed),
    ensures
        is_recorded(old(entries)@, label@, details@, elapsed, final(entries)@),
{
    let ghost before = entries@;
    let mut k: usize = 0;
    while k < entries.len() && !(same_text(&entries[k].label, label) && same_text(
        &entries[k].details,
        details,
    ))
        invariant
            k <= entries.len(),
            entries@ == before,
            key_place(before, label@, details@, 0) == key_place(
                before,
                label@,
                details@,
                k as int,
            ),
        decreases entries.len() - k,
    {
        k += 1;
    }
    if k < entries.len() {
        assert(before[k as int].calls < u64::MAX);
        let entry = &entries[k];
        let more = ProfileEntry {
            label: String::from_str(&entry.label),
            details: String::from_str(&entry.details),
            calls: entry.calls + 1,
            total: Elapsed { nanos: entry.total.nanos + elapsed.nanos },
            max: if elapsed.nanos > entry.max.nanos {
                elapsed
            } else {
                entry.max
            },
        };
        entries.set(k, more);
    } else {
        entries.push(
            ProfileEntry {
                label: String::from_str(label),
                details: String::from_str(details),
                calls: 1,
                total: elapsed,
                max: elapsed,
            },
        );
    }
}

impl CpuProfiler {
    /// Counts nothing yet.
    pub fn new() -> (p: Self)
        ensures
            !p.active,
            p.label@.len() == 0,
            p.scopes.len() == 0,
            p.ops.len() == 0,
    {
        CpuProfiler {
            active: false,
            label: String::new(),
            scopes: Vec::new(),
            ops: Vec::new(),
        }
    }

    /// Begins to count anew.
    pub fn begin(&mut self, label: &str)
        ensures
            final(self).active,
            final(self).label@ == label@,
            final(self).scopes.len() == 0,
            final(self).ops.len() == 0,
    {
        self.active = true;
        self.label = String::from_str(label);
        self.scopes = Vec::new();
        self.ops = Vec::new();
    }

    /// Counts a call, while counting is on.
    pub fn record(&mut self, kind: ProfileKind, label: &str, details: &str, elapsed: Elapsed)
        requires
            has_room(old(self).scopes@, elapsed),
            has_room(old(self).ops@, elapsed),
        ensures
            final(self).active == old(self).active,
            final(self).label == old(self).label,
            !old(self).active ==> final(self).scopes == old(self).scopes && final(self).ops
                == old(self).ops,
            old(self).active ==> match kind {
                ProfileKind::Scope => final(self).ops == old(self).ops && is_recorded(
                    old(self).scopes@,
                    label@,
                    details@,
                    elapsed,
                    final(self).scopes@,
                ),
                ProfileKind::Op => final(self).scopes == old(self).scopes && is_recorded(
                    old(self).ops@,
                    label@,
                    details@,
                    elapsed,
                    final(self).ops@,
                ),
            },
    {
        if self.active {
            match kind {
                ProfileKind::Scope => {
                    record_in(&mut self.scopes, label, details, elapsed);
                },
                ProfileKind::Op => {
                    record_in(&mut self.ops, label, details, elapsed);
                },
            }
        }
    }

    /// Stops counting.
    pub fn end(&mut self)
        ensures
            !final(self).active,
            final(self).label == old(self).label,
            final(self).scopes == old(self).scopes,
            final(self).ops == old(self).ops,
    {
        self.active = false;
    }
}

/// All calls that are counted in the first `n` entries.
pub open spec fn call_sum(entries: Seq<ProfileEntry>, n: int) -> int
    decreases n,
{
    if n <= 0 {
        0
    } else {
        call_sum(entries, n - 1) + entries[n - 1].calls
    }
}

proof fn lemma_call_sum_same(a: Seq<ProfileEntry>, b: Seq<ProfileEntry>, n: int)
    requires
        n <= a.len(),
        n <= b.len(),
        forall|j: int| 0 <= j < n ==> (#[trigger] a[j]).calls == b[j].calls,
    ensures
        call_sum(a, n) == call_sum(b, n),
    decreases n,
{
    if n > 0 {
        lemma_call_sum_same(a, b, n - 1);
    }
}

proof fn lemma_call_sum_grown(a: Seq<ProfileEntry>, b: Seq<ProfileEntry>, k: int, n: int)
    requires
        0 <= k < n <= a.len(),
        n <= b.len(),
        b[k].calls == a[k].calls + 1,
        forall|j: int| 0 <= j < n && j != k ==> (#[trigger] b[j]).calls == a[j].calls,
    ensures
        call_sum(b, n) == call_sum(a, n) + 1,
    decreases n,
{
    if k < n - 1 {
        lemma_call_sum_grown(a, b, k, n - 1);
    } else {
        assert forall|j: int| 0 <= j < n - 1 implies (#[trigger] b[j]).calls == a[j].calls by {}
        lemma_call_sum_same(b, a, n - 1);
    }
}

/// Every recorded call is counted exactly once.
pub proof fn law_every_call_is_counted_once(
    before: Seq<ProfileEntry>,
    label: Seq<char>,
    details: Seq<char>,
    elapsed: Elapsed,
    after: Seq<ProfileEntry>,
)
    requires
        is_recorded(before, label, details, elapsed, after),
    ensures
        call_sum(after, after.len() as int) == call_sum(before, before.len() as int) + 1,
{
    lemma_key_place(before, label, details, 0);
    let k = key_place(before, label, details, 0);
    if k < before.len() {
        lemma_call_sum_grown(before, after, k, before.len() as int);
    } else {
        lemma_call_sum_same(after, before, before.len() as int);
    }
}

proof fn lemma_key_place(entries: Seq<ProfileEntry>, label: Seq<char>, details: Seq<char>, i: int)
    requires
        0 <= i <= entries.len(),
    ensures
        i <= key_place(entries, label, details, i) <= entries.len(),
    decreases entries.len() - i,
{
    if i < entries.len() && !has_key(entries[i], label, details) {
        lemma_key_place(entries, label, details, i + 1);
    }
}

// ---------------------------------------------------------------------------
// The report
// ---------------------------------------------------------------------------
/// Entry `a` is reported no later than entry `b`: it took more time, or as much time
/// with no fewer calls.
pub open spec fn reported_first(a: ProfileEntry, b: ProfileEntry) -> bool {
    a.total.nanos > b.total.nanos || (a.total.nanos == b.total.nanos && a.calls >= b.calls)
}

/// `order` lists all entries, the largest first.
pub open spec fn is_order(order: Seq<usize>, entries: Seq<ProfileEntry>) -> bool {
    &&& order.len() == entries.len()
    &&& distinct(order)
    &&& forall|i: int| 0 <= i < order.len() ==> (#[trigger] order[i] as int) < entries.len()
    &&& forall|i: int, j: int|
        0 <= i < j < order.len() ==> reported_first(
            entries[#[trigger] order[i] as int],
            entries[#[trigger] order[j] as int],
        )
}

/// Orders the entries for the report.
pub fn report_order(entries: &Vec<ProfileEntry>) -> (order: Vec<usize>)
    ensures
        is_order(order@, entries@),
{
    let mut order: Vec<usize> = Vec::new();
    let mut n: usize = 0;
    while n < entries.len()
        invariant
            n <= entries.len(),
            order.len() == n,
            distinct(order@),
            forall|i: int| 0 <= i < order.len() ==> (#[trigger] order@[i] as int) < n,
            forall|i: int, j: int|
                0 <= i < j < order.len() ==> reported_first(
                    entries@[#[trigger] order@[i] as int],
                    entries@[#[trigger] order@[j] as int],
                ),
        decreases entries.len() - n,
    {
        let ghost before = order@;
        let mine = &entries[n];
        let mut k: usize = 0;
        while k < order.len() && (entries[order[k]].total.nanos > mine.total.nanos || (
        entries[order[k]].total.nanos == mine.total.nanos && entries[order[k]].calls >= mine.calls))
            invariant
                k <= order.len(),
                n < entries.len(),
                mine == entries@[n as int],
                order@ == before,
                forall|i: int| 0 <= i < order.len() ==> (#[trigger] order@[i] as int) < n,
                forall|i: int|
                    0 <= i < k ==> reported_first(entries@[#[trigger] before[i] as int], *mine),
            decreases order.len() - k,
        {
            k += 1;
        }
        order.insert(k, n);
        proof {
            let after = order@;
            assert forall|i: int| 0 <= i < after.len() implies #[trigger] after[i] == if i < k {
                before[i]
            } else if i == k {
                n
            } else {
                before[i - 1]
            } by {}
            assert forall|i: int, j: int| 0 <= i < j < after.len() implies after[i] != after[j] by {
                if i == k {
                    assert((before[j - 1] as int) < n);
                } else if j == k {
                    assert((before[i] as int) < n);
                }
            }
            assert forall|i: int, j: int| 0 <= i < j < after.len() implies reported_first(
                entries@[#[trigger] after[i] as int],
                entries@[#[trigger] after[j] as int],
            ) by {
                if i == k {
                    assert(!reported_first(entries@[before[k as int] as int], *mine));
                    if j - 1 > k {
                        assert(reported_first(
                            entries@[before[k as int] as int],
                            entries@[before[j - 1] as int],
                        ));
                    }
                }
            }
        }
        n += 1;
    }
    order
}

/// The line above the entries of a section.
pub open spec fn section_text(
    kind: Seq<char>,
    label: Seq<char>,
    elapsed: Elapsed,
    entries: int,
    limit: int,
) -> Seq<char> {
    let head = "cpu-profile "@ + kind + " `"@ + label + "`: total="@ + duration_text(elapsed)
        + " entries="@ + decimal(entries as nat);
    if entries == 0 {
        head
    } else {
        head + " top="@ + decimal(shown_count(entries, limit) as nat)
    }
}

/// Makes the line above the entries of a section.
pub fn section_line(kind: &str, label: &str, elapsed: Elapsed, entries: usize, limit: usize) -> (s:
    String)
    ensures
        s@ == section_text(kind@, label@, elapsed, entries as int, limit as int),
{
    let mut s = String::from_str("cpu-profile ");
    s.append(kind);
    s.append(" `");
    s.append(label);
    s.append("`: total=");
    s.append(&format_duration(elapsed));
    s.append(" entries=");
    push_decimal(&mut s, entries as u64);
    if entries > 0 {
        s.append(" top=");
        push_decimal(
            &mut s,
            if entries <= limit {
                entries as u64
            } else {
                limit as u64
            },
        );
    }
    s
}

/// The line about an entry; the mean and the longest time come as seconds with six
/// decimals.
pub open spec fn entry_text(entry: ProfileEntry, mean: Seq<char>, longest: Seq<char>) -> Seq<char> {
    "  "@ + entry.label@ + " calls="@ + decimal(entry.calls as nat) + " total="@ + duration_text(
        entry.total,
    ) + " avg="@ + mean + "s max="@ + longest + "s "@ + entry.details@
}

/// Makes the line about an entry.
pub fn entry_line(entry: &ProfileEntry, mean: &str, longest: &str) -> (s: String)
    ensures
        s@ == entry_text(*entry, mean@, longest@),
{
    let mut s = String::from_str("  ");
    s.append(&entry.label);
    s.append(" calls=");
    push_decimal(&mut s, entry.calls);
    s.append(" total=");
    s.append(&format_duration(entry.total));
    s.append(" avg=");
    s.append(mean);
    s.append("s max=");
    s.append(longest);
    s.append("s ");
    s.append(&entry.details);
    s
}

/// A message that tells of a profile.
pub open spec fn told(message: Seq<char>) -> EventView {
    EventView::Message { level: NotificationLevel::Info, message }
}

/// `event` tells of an entry. `seconds` writes a time in nanoseconds, shared among a
/// number of calls, as seconds with six decimals.
pub open spec fn tells_of<F: Fn(u64, u64) -> String>(
    event: EventView,
    entry: ProfileEntry,
    seconds: F,
) -> bool {
    exists|mean: String, longest: String|
        (#[trigger] call_ensures(seconds, (entry.total.nanos, entry.calls), mean)) && (
        #[trigger] call_ensures(seconds, (entry.max.nanos, 1), longest)) && event == told(
            entry_text(entry, mean@, longest@),
        )
}

/// How many of some entries are reported.
pub open spec fn shown_count(entries: int, limit: int) -> int {
    if entries <= limit {
        entries
    } else {
        limit
    }
}

/// `events` tell of the section and of its largest entries in `order`.
pub open spec fn are_section_events<F: Fn(u64, u64) -> String>(
    events: Seq<EventView>,
    head: Seq<char>,
    entries: Seq<ProfileEntry>,
    limit: int,
    seconds: F,
    order: Seq<usize>,
) -> bool {
    &&& events.len() == 1 + shown_count(entries.len() as int, limit)
    &&& events[0] == told(head)
    &&& forall|i: int|
        1 <= i < events.len() ==> tells_of(
            #[trigger] events[i],
            entries[order[i - 1] as int],
            seconds,
        )
}

/// Reports a section of a profile: how long it took in all, and its largest entries, the
/// largest first and no more than `limit` of them.
pub fn log_profile_section<F: Fn(u64, u64) -> String>(
    kind: &str,
    label: &str,
    elapsed: Elapsed,
    entries: &Vec<ProfileEntry>,
    limit: usize,
    seconds: F,
) -> (events: Vec<CoreEvent>)
    requires
        forall|nanos: u64, calls: u64| #[trigger] call_requires(seconds, (nanos, calls)),
    ensures
        exists|order: Seq<usize>| #[trigger]
            is_order(order, entries@) && are_section_events(
                event_views(events@),
                section_text(kind@, label@, elapsed, entries.len() as int, limit as int),
                entries@,
                limit as int,
                seconds,
                order,
            ),
{
    let level = NotificationLevel::Info;
    let order = report_order(entries);
    let message = section_line(kind, label, elapsed, entries.len(), limit);
    let ghost head = message@;
    let mut events: Vec<CoreEvent> = Vec::new();
    events.push(CoreEvent::Message { level, message });
    let mut i: usize = 0;
    while i < order.len() && i < limit
        invariant
            i <= order.len(),
            i <= limit,
            level == NotificationLevel::Info,
            is_order(order@, entries@),
            forall|nanos: u64, calls: u64| #[trigger] call_requires(seconds, (nanos, calls)),
            events.len() == i + 1,
            events@[0]@ == told(head),
            forall|j: int|
                1 <= j < events.len() ==> tells_of(
                    (#[trigger] events@[j])@,
                    entries@[order@[j - 1] as int],
                    seconds,
                ),
        decreases order.len() - i,
    {
        let entry = &entries[order[i]];
        let mean = seconds(entry.total.nanos, entry.calls);
        let longest = seconds(entry.max.nanos, 1);
        let message = entry_line(entry, &mean, &longest);
        let ghost text = message@;
        events.push(CoreEvent::Message { level, message });
        assert(tells_of(told(text), *entry, seconds));
        i += 1;
    }
    proof {
        let views = event_views(events@);
        assert forall|j: int| 1 <= j < views.len() implies tells_of(
            #[trigger] views[j],
            entries@[order@[j - 1] as int],
            seconds,
        ) by {
            assert(tells_of(events@[j]@, entries@[order@[j - 1] as int], seconds));
        }
    }
    events
}

proof fn lemma_first_with_key(
    entries: Seq<ProfileEntry>,
    label: Seq<char>,
    details: Seq<char>,
    i: int,
)
    requires
        0 <= i <= entries.len(),
    ensures
        forall|j: int|
            i <= j < key_place(entries, label, details, i) ==> !has_key(
                #[trigger] entries[j],
                label,
                details,
            ),
        key_place(entries, label, details, i) < entries.len() ==> has_key(
            entries[key_place(entries, label, details, i)],
            label,
            details,
        ),
    decreases entries.len() - i,
{
    if i < entries.len() && !has_key(entries[i], label, details) {
        lemma_first_with_key(entries, label, details, i + 1);
    }
}

/// Every label with its details has one entry at most.
pub open spec fn keys_differ(entries: Seq<ProfileEntry>) -> bool {
    forall|i: int, j: int|
        0 <= i < j < entries.len() ==> (#[trigger] entries[i]).label@ != (
        #[trigger] entries[j]).label@ || entries[i].details@ != entries[j].details@
}

/// A call is added to the entry of its label and details, which is made for the first of
/// them: one call more, its time added, and the longest time kept. No other entry changes,
/// and there is still one entry at most for a label and details.
pub proof fn law_calls_are_added_to_their_entry(
    before: Seq<ProfileEntry>,
    label: Seq<char>,
    details: Seq<char>,
    elapsed: Elapsed,
    after: Seq<ProfileEntry>,
)
    requires
        is_recorded(before, label, details, elapsed, after),
        keys_differ(before),
    ensures
        keys_differ(after),
        forall|j: int|
            0 <= j < before.len() && !((#[trigger] before[j]).label@ == label
                && before[j].details@ == details) ==> after[j] == before[j],
        forall|j: int|
            0 <= j < before.len() && (#[trigger] before[j]).label@ == label && before[j].details@
                == details ==> {
                &&& after.len() == before.len()
                &&& after[j].label@ == label && after[j].details@ == details
                &&& after[j].calls == before[j].calls + 1
                &&& after[j].total.nanos == before[j].total.nanos + elapsed.nanos
                &&& after[j].max.nanos >= before[j].max.nanos
                &&& after[j].max.nanos >= elapsed.nanos
                &&& after[j].max.nanos == before[j].max.nanos || after[j].max.nanos
                    == elapsed.nanos
            },
        (forall|j: int|
            0 <= j < before.len() ==> !((#[trigger] before[j]).label@ == label
                && before[j].details@ == details)) ==> {
            &&& after.len() == before.len() + 1
            &&& after.last().label@ == label && after.last().details@ == details
            &&& after.last().calls == 1
            &&& after.last().total.nanos == elapsed.nanos
            &&& after.last().max.nanos == elapsed.nanos
        },
{
    lemma_key_place(before, label, details, 0);
    lemma_first_with_key(before, label, details, 0);
    let k = key_place(before, label, details, 0);
    assert forall|i: int, j: int| 0 <= i < j < after.len() implies (#[trigger] after[i]).label@ != (
    #[trigger] after[j]).label@ || after[i].details@ != after[j].details@ by {
        if j < before.len() {
            assert(before[i].label@ != before[j].label@ || before[i].details@ != before[j].details@);
            assert(i != k ==> after[i] == before[i]);
            assert(j != k ==> after[j] == before[j]);
        } else {
            assert(!has_key(before[i], label, details));
            assert(after[i] == before[i]);
            assert(after.last() == after[j]);
        }
    }
}

/// A report tells of as many entries as are wanted and there are, and never leaves out one
/// that took longer than one it tells of.
pub proof fn law_longest_calls_are_reported(
    order: Seq<usize>,
    entries: Seq<ProfileEntry>,
    limit: int,
    i: int,
    j: int,
)
    requires
        is_order(order, entries),
        0 <= i < shown_count(entries.len() as int, limit),
        shown_count(entries.len() as int, limit) <= j < entries.len(),
    ensures
        shown_count(entries.len() as int, limit) == limit,
        entries[order[i] as int].total.nanos >= entries[order[j] as int].total.nanos,
        entries[order[i] as int].total.nanos == entries[order[j] as int].total.nanos
            ==> entries[order[i] as int].calls >= entries[order[j] as int].calls,
{
}

/// Profiling is on where something is given that does not say no: nothing, white space
/// alone, zero and the words for no, in letters of any size, leave it off.
pub proof fn law_profiling_is_on_unless_refused(text: Seq<char>)
    ensures
        !turns_on(None),
        turns_on(Some(text)) <==> {
            let word = ascii_lowercase(trim(text));
            &&& word != Seq::<char>::empty()
            &&& word != seq!['0']
            &&& word != seq!['n', 'o']
            &&& word != seq!['o', 'f', 'f']
            &&& word != seq!['f', 'a', 'l', 's', 'e']
        },
{
    reveal_strlit("0");
    reveal_strlit("no");
    reveal_strlit("off");
    reveal_strlit("false");
    let value = trim(text);
    let word = ascii_lowercase(value);
    assert("0"@ =~= seq!['0']);
    assert("no"@ =~= seq!['n', 'o']);
    assert("off"@ =~= seq!['o', 'f', 'f']);
    assert("false"@ =~= seq!['f', 'a', 'l', 's', 'e']);
    if word == seq!['0'] {
        assert(word[0] == lower_char(value[0]));
        assert(value[0] == '0');
        assert(value =~= seq!['0']);
    }
    if value == "0"@ {
        assert(word =~= seq!['0']);
    }
    if value.len() == 0 {
        assert(word =~= Seq::<char>::empty());
    }
}

} // verus!
