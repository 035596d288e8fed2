//! Writing notes as a Standard MIDI File with a single track.
use vstd::prelude::*;
use vstd::string::*;

use midly::Format::SingleTrack;
use midly::MetaMessage::{EndOfTrack, Tempo};
use midly::MidiMessage::{NoteOff, NoteOn};
use midly::Timing::Metrical;
use midly::TrackEventKind::{Meta, Midi};
use midly::{Header, Smf, TrackEvent};

use crate::error::Error;
use crate::midi_writer::KeyChange::{Press, Release};
use crate::midi_writer::MidiEvent::{End, Key, SetTempo};
use crate::text::{decimal, push_decimal};

verus! {

/// How notes are written.
#[derive(Debug, Clone, Copy, PartialEq, Eq, Structural)]
pub struct MidiWriteOptions {
    pub tempo_bpm: u32,
    pub velocity: u8,
    pub ticks_per_qn: u16,
}

impl Default for MidiWriteOptions {
    fn default() -> (options: Self)
        ensures
            options == (MidiWriteOptions { tempo_bpm: 120, velocity: 96, ticks_per_qn: 480 }),
    {
        MidiWriteOptions { tempo_bpm: 120, velocity: 96, ticks_per_qn: 480 }
    }
}

/// A note on the time grid of the file: its key and the ticks at which it
/// begins and ends. A note that is not voiced is a rest.
#[derive(Debug, Clone, Copy, PartialEq, Eq, Structural)]
pub struct NoteTicks {
    pub start: u64,
    pub end: u64,
    pub key: u8,
    pub voiced: bool,
}

/// What is done to a key: which one, and how hard.
#[derive(Debug, Clone, Copy, PartialEq, Eq, Structural)]
pub enum KeyChange {
    Press(u8, u8),
    Release(u8, u8),
}

/// What happens in the track.
#[derive(Debug, Clone, Copy, PartialEq, Eq, Structural)]
pub enum MidiEvent {
    /// The length of a quarter note in microseconds.
    SetTempo(u32),
    Key { channel: u8, change: KeyChange },
    End,
}

/// An event and the tick at which it happens.
#[derive(Debug, Clone, Copy, PartialEq, Eq, Structural)]
pub struct TimedEvent {
    pub tick: u64,
    pub event: MidiEvent,
}

/// An event and the number of ticks since the event before it.
#[derive(Debug, Clone, Copy, PartialEq, Eq, Structural)]
pub struct TrackEntry {
    pub delta: u32,
    pub event: MidiEvent,
}

/// The largest distance between two events that the file format can hold.
pub const MAX_DELTA: u32 = 0x0fff_ffff;

/// The velocity of a released key.
pub const RELEASE_VELOCITY: u8 = 64;

/// The channel of all notes.
pub const NOTE_CHANNEL: u8 = 0;

// ---------------------------------------------------------------------------
// The events of a track
// ---------------------------------------------------------------------------
/// Note velocities lie between 1 and 127.
pub open spec fn clamped_velocity(velocity: u8) -> u8 {
    if velocity < 1 {
        1
    } else if velocity > 127 {
        127
    } else {
        velocity
    }
}

/// A note ends at least one tick after it begins.
pub open spec fn end_tick(note: NoteTicks) -> u64 {
    if note.end <= note.start {
        (note.start + 1) as u64
    } else {
        note.end
    }
}

/// A voiced note is a key pressed and the same key released.
pub open spec fn note_events(note: NoteTicks, velocity: u8) -> Seq<TimedEvent> {
    if note.voiced {
        seq![
            TimedEvent {
                tick: note.start,
                event: Key { channel: NOTE_CHANNEL, change: Press(note.key, velocity) },
            },
            TimedEvent {
                tick: end_tick(note),
                event: Key { channel: NOTE_CHANNEL, change: Release(note.key, RELEASE_VELOCITY) },
            },
        ]
    } else {
        Seq::empty()
    }
}

/// The tempo at the beginning, then the events of all notes in their order.
pub open spec fn body_events(notes: Seq<NoteTicks>, options: MidiWriteOptions) -> Seq<TimedEvent>
    decreases notes.len(),
{
    if notes.len() == 0 {
        seq![
            TimedEvent {
                tick: 0,
                event: SetTempo(60_000_000u32 / options.tempo_bpm),
            },
        ]
    } else {
        body_events(notes.drop_last(), options) + note_events(
            notes.last(),
            clamped_velocity(options.velocity),
        )
    }
}

/// The latest tick of any event, or zero.
pub open spec fn last_tick(events: Seq<TimedEvent>) -> u64
    decreases events.len(),
{
    if events.len() == 0 {
        0
    } else if events.last().tick > last_tick(events.drop_last()) {
        events.last().tick
    } else {
        last_tick(events.drop_last())
    }
}

/// All events: those of the notes, and the end of the track with the last of them.
pub open spec fn track_events(notes: Seq<NoteTicks>, options: MidiWriteOptions) -> Seq<TimedEvent> {
    let body = body_events(notes, options);
    body.push(TimedEvent { tick: last_tick(body), event: End })
}

/// How many events at the front of a sorted sequence are no later than `tick`.
pub open spec fn no_later(sorted: Seq<TimedEvent>, tick: u64) -> int
    decreases sorted.len(),
{
    if sorted.len() == 0 {
        0
    } else if sorted.last().tick <= tick {
        sorted.len() as int
    } else {
        no_later(sorted.drop_last(), tick)
    }
}

/// The events by time; events of the same tick keep their order.
pub open spec fn by_time(events: Seq<TimedEvent>) -> Seq<TimedEvent>
    decreases events.len(),
{
    if events.len() == 0 {
        Seq::empty()
    } else {
        let rest = by_time(events.drop_last());
        rest.insert(no_later(rest, events.last().tick), events.last())
    }
}

/// Every event is no earlier than those before it.
pub open spec fn is_by_time(events: Seq<TimedEvent>) -> bool {
    forall|i: int, j: int|
        0 <= i <= j < events.len() ==> (#[trigger] events[i]).tick <= (#[trigger] events[j]).tick
}

/// The distance of event `i` from the one before it, or from tick zero.
pub open spec fn delta_at(events: Seq<TimedEvent>, i: int) -> int {
    events[i].tick - (if i == 0 {
        0
    } else {
        events[i - 1].tick as int
    })
}

/// Why the distance cannot be written.
pub open spec fn delta_error(delta: int) -> Seq<char> {
    if delta > u32::MAX {
        "MIDI delta time "@ + decimal(delta as nat) + " exceeds u32::MAX"@
    } else {
        "MIDI delta time "@ + decimal(delta as nat) + " exceeds the SMF u28 limit"@
    }
}

/// The first `n` events as track entries, or why one of them is too far from its predecessor.
pub open spec fn entries(events: Seq<TimedEvent>, n: int) -> Result<Seq<TrackEntry>, Seq<char>>
    decreases n,
{
    if n <= 0 {
        Ok(Seq::empty())
    } else {
        match entries(events, n - 1) {
            Err(e) => Err(e),
            Ok(done) => if delta_at(events, n - 1) > MAX_DELTA {
                Err(delta_error(delta_at(events, n - 1)))
            } else {
                Ok(
                    done.push(
                        TrackEntry {
                            delta: delta_at(events, n - 1) as u32,
                            event: events[n - 1].event,
                        },
                    ),
                )
            },
        }
    }
}

/// The track of the notes.
pub open spec fn track_of(notes: Seq<NoteTicks>, options: MidiWriteOptions) -> Result<
    Seq<TrackEntry>,
    Seq<char>,
> {
    let events = by_time(track_events(notes, options));
    entries(events, events.len() as int)
}

proof fn lemma_no_later(sorted: Seq<TimedEvent>, tick: u64)
    requires
        is_by_time(sorted),
    ensures
        0 <= no_later(sorted, tick) <= sorted.len(),
        forall|i: int| 0 <= i < no_later(sorted, tick) ==> (#[trigger] sorted[i]).tick <= tick,
        forall|i: int|
            no_later(sorted, tick) <= i < sorted.len() ==> (#[trigger] sorted[i]).tick > tick,
    decreases sorted.len(),
{
    if sorted.len() > 0 && sorted.last().tick > tick {
        let shorter = sorted.drop_last();
        assert forall|i: int, j: int| 0 <= i <= j < shorter.len() implies (
        #[trigger] shorter[i]).tick <= (#[trigger] shorter[j]).tick by {
            assert(sorted[i].tick <= sorted[j].tick);
        }
        lemma_no_later(shorter, tick);
        assert forall|i: int| no_later(sorted, tick) <= i < sorted.len() implies (
        #[trigger] sorted[i]).tick > tick by {
            if i < shorter.len() {
                assert(shorter[i].tick > tick);
            }
        }
        assert forall|i: int| 0 <= i < no_later(sorted, tick) implies (#[trigger] sorted[i]).tick
            <= tick by {
            assert(shorter[i].tick <= tick);
        }
    } else if sorted.len() > 0 {
        assert forall|i: int| 0 <= i < no_later(sorted, tick) implies (#[trigger] sorted[i]).tick
            <= tick by {
            assert(sorted[i].tick <= sorted.last().tick);
        }
    }
}

/// The events of a track are written in the order of time, and none is lost or added.
pub proof fn law_track_is_by_time(events: Seq<TimedEvent>)
    ensures
        is_by_time(by_time(events)),
        by_time(events).to_multiset() == events.to_multiset(),
        by_time(events).len() == events.len(),
    decreases events.len(),
{
    broadcast use vstd::seq_lib::group_to_multiset_ensures;

    if events.len() > 0 {
        let rest = by_time(events.drop_last());
        let e = events.last();
        law_track_is_by_time(events.drop_last());
        lemma_no_later(rest, e.tick);
        let at = no_later(rest, e.tick);
        let all = rest.insert(at, e);
        assert forall|i: int, j: int| 0 <= i <= j < all.len() implies (#[trigger] all[i]).tick <= (
        #[trigger] all[j]).tick by {
            if i < at && j > at {
                assert(rest[i].tick <= rest[j - 1].tick);
            } else if i < at && j < at {
                assert(rest[i].tick <= rest[j].tick);
            } else if i > at {
                assert(rest[i - 1].tick <= rest[j - 1].tick);
            } else if i == at && j > at {
                assert(rest[j - 1].tick > e.tick);
            }
        }
        vstd::seq_lib::to_multiset_insert(rest, at, e);
        assert(events =~= events.drop_last().push(e));
        vstd::seq_lib::to_multiset_build(events.drop_last(), e);
    } else {
        assert(by_time(events) =~= events);
    }
}

/// The notes that are voiced.
pub open spec fn voiced_notes(notes: Seq<NoteTicks>) -> Seq<NoteTicks> {
    notes.filter(|note: NoteTicks| note.voiced)
}

proof fn lemma_rests_have_no_events(notes: Seq<NoteTicks>, options: MidiWriteOptions)
    ensures
        body_events(voiced_notes(notes), options) == body_events(notes, options),
    decreases notes.len(),
{
    reveal(Seq::filter);
    if notes.len() > 0 {
        let rest = notes.drop_last();
        lemma_rests_have_no_events(rest, options);
        if notes.last().voiced {
            assert(voiced_notes(notes) == voiced_notes(rest).push(notes.last()));
            assert(voiced_notes(notes).drop_last() =~= voiced_notes(rest));
        } else {
            assert(voiced_notes(notes) == voiced_notes(rest));
            assert(body_events(notes, options) =~= body_events(rest, options));
        }
    } else {
        assert(voiced_notes(notes) =~= notes);
    }
}

/// Rests leave a track unchanged: it is the track of the voiced notes.
pub proof fn law_rests_leave_the_track_unchanged(
    notes: Seq<NoteTicks>,
    options: MidiWriteOptions,
)
    ensures
        track_events(voiced_notes(notes), options) == track_events(notes, options),
        track_of(voiced_notes(notes), options) == track_of(notes, options),
{
    lemma_rests_have_no_events(notes, options);
}

/// The tempo stands first, at tick zero, and the end of the track stands last.
pub proof fn law_track_begins_with_tempo_and_ends_with_end(
    notes: Seq<NoteTicks>,
    options: MidiWriteOptions,
)
    requires
        options.tempo_bpm > 0,
    ensures
        ({
            let track = by_time(track_events(notes, options));
            &&& track.len() >= 2
            &&& track[0] == (TimedEvent {
                tick: 0,
                event: SetTempo(60_000_000u32 / options.tempo_bpm),
            })
            &&& track.last().event == End
            &&& track.last().tick == last_tick(body_events(notes, options))
        }),
{
    let body = body_events(notes, options);
    let all = track_events(notes, options);
    lemma_body_starts_with_tempo(notes, options);
    lemma_first_stays_first(body);
    lemma_last_tick(body);
    law_track_is_by_time(body);
    let sorted = by_time(body);
    assert(all.drop_last() =~= body);
    lemma_no_later(sorted, last_tick(body));
    lemma_sorted_ticks_bounded(body, last_tick(body));
    assert(no_later(sorted, last_tick(body)) == sorted.len()) by {
        if no_later(sorted, last_tick(body)) < sorted.len() {
            assert(sorted[sorted.len() - 1].tick > last_tick(body));
        }
    }
}

proof fn lemma_body_starts_with_tempo(notes: Seq<NoteTicks>, options: MidiWriteOptions)
    requires
        options.tempo_bpm > 0,
    ensures
        body_events(notes, options).len() >= 1,
        body_events(notes, options)[0] == (TimedEvent {
            tick: 0,
            event: SetTempo(60_000_000u32 / options.tempo_bpm),
        }),
    decreases notes.len(),
{
    if notes.len() > 0 {
        lemma_body_starts_with_tempo(notes.drop_last(), options);
        let head = body_events(notes.drop_last(), options);
        let tail = note_events(notes.last(), clamped_velocity(options.velocity));
        assert(body_events(notes, options) == head + tail);
        assert((head + tail)[0] == head[0]);
    }
}

proof fn lemma_first_stays_first(events: Seq<TimedEvent>)
    requires
        events.len() >= 1,
        events[0].tick == 0,
    ensures
        by_time(events).len() == events.len(),
        by_time(events)[0] == events[0],
    decreases events.len(),
{
    law_track_is_by_time(events);
    law_track_is_by_time(events.drop_last());
    let rest = by_time(events.drop_last());
    if events.len() > 1 {
        lemma_first_stays_first(events.drop_last());
        lemma_no_later(rest, events.last().tick);
        if no_later(rest, events.last().tick) == 0 {
            assert(rest[0].tick > events.last().tick);
        }
    } else {
        assert(rest.len() == 0);
        lemma_no_later(rest, events.last().tick);
    }
}

proof fn lemma_last_tick(events: Seq<TimedEvent>)
    ensures
        forall|i: int| 0 <= i < events.len() ==> (#[trigger] events[i]).tick <= last_tick(events),
    decreases events.len(),
{
    if events.len() > 0 {
        lemma_last_tick(events.drop_last());
        assert forall|i: int| 0 <= i < events.len() implies (#[trigger] events[i]).tick
            <= last_tick(events) by {
            if i < events.len() - 1 {
                assert(events.drop_last()[i].tick <= last_tick(events.drop_last()));
            }
        }
    }
}

/// Sorting keeps every tick within a bound that all ticks keep.
proof fn lemma_sorted_ticks_bounded(events: Seq<TimedEvent>, bound: u64)
    requires
        forall|i: int| 0 <= i < events.len() ==> (#[trigger] events[i]).tick <= bound,
    ensures
        forall|i: int|
            0 <= i < by_time(events).len() ==> (#[trigger] by_time(events)[i]).tick <= bound,
    decreases events.len(),
{
    if events.len() > 0 {
        let shorter = events.drop_last();
        assert forall|i: int| 0 <= i < shorter.len() implies (#[trigger] shorter[i]).tick
            <= bound by {
            assert(events[i].tick <= bound);
        }
        lemma_sorted_ticks_bounded(shorter, bound);
        let rest = by_time(shorter);
        law_track_is_by_time(shorter);
        let at = no_later(rest, events.last().tick);
        lemma_no_later(rest, events.last().tick);
        let all = by_time(events);
        assert forall|i: int| 0 <= i < all.len() implies (#[trigger] all[i]).tick <= bound by {
            if i < at {
                assert(rest[i].tick <= bound);
            } else if i > at {
                assert(rest[i - 1].tick <= bound);
            } else {
                assert(events[events.len() - 1].tick <= bound);
            }
        }
    }
}

/// The distances of a track add up: after its first `n` entries the time is that
/// of event `n - 1`.
pub proof fn law_deltas_restore_ticks(events: Seq<TimedEvent>, n: int)
    requires
        is_by_time(events),
        0 <= n <= events.len(),
        entries(events, n) is Ok,
    ensures
        entries(events, n)->Ok_0.len() == n,
        elapsed(entries(events, n)->Ok_0) == if n == 0 {
            0
        } else {
            events[n - 1].tick as int
        },
        forall|i: int|
            0 <= i < n ==> (#[trigger] entries(events, n)->Ok_0[i]).event == events[i].event
                && entries(events, n)->Ok_0[i].delta <= MAX_DELTA,
    decreases n,
{
    if n > 0 {
        law_deltas_restore_ticks(events, n - 1);
        let done = entries(events, n - 1)->Ok_0;
        let all = entries(events, n)->Ok_0;
        if n > 1 {
            assert(events[n - 2].tick <= events[n - 1].tick);
        }
        assert(all.drop_last() =~= done);
        assert forall|i: int| 0 <= i < n implies (#[trigger] all[i]).event == events[i].event
            && all[i].delta <= MAX_DELTA by {
            if i < n - 1 {
                assert(done[i].event == events[i].event);
            }
        }
    }
}

/// The ticks that a run of entries takes.
pub open spec fn elapsed(track: Seq<TrackEntry>) -> int
    decreases track.len(),
{
    if track.len() == 0 {
        0
    } else {
        elapsed(track.drop_last()) + track.last().delta
    }
}

// ---------------------------------------------------------------------------
// What a track says of its notes
// ---------------------------------------------------------------------------
/// The tick of entry `i`: all distances up to it, its own among them.
pub open spec fn time_at(track: Seq<TrackEntry>, i: int) -> int
    decreases i + 1,
{
    if i < 0 {
        0
    } else {
        time_at(track, i - 1) + track[i].delta
    }
}

/// `order` lists the numbers below its length, each once.
pub open spec fn is_permutation(order: Seq<int>) -> bool {
    &&& forall|i: int| 0 <= i < order.len() ==> 0 <= #[trigger] order[i] < order.len()
    &&& forall|i: int, j: int| 0 <= i < j < order.len() ==> order[i] != order[j]
}

/// `sorted` has the events in the given order, which is by time, and by place where the
/// time is the same.
spec fn is_sorted_by(sorted: Seq<TimedEvent>, events: Seq<TimedEvent>, order: Seq<int>) -> bool {
    &&& order.len() == events.len()
    &&& sorted.len() == events.len()
    &&& is_permutation(order)
    &&& forall|i: int| 0 <= i < order.len() ==> #[trigger] sorted[i] == events[order[i]]
    &&& forall|i: int, j: int|
        0 <= i < j < order.len() ==> (#[trigger] sorted[i]).tick < (#[trigger] sorted[j]).tick || (
        sorted[i].tick == sorted[j].tick && order[i] < order[j])
}

proof fn lemma_sorted_by(events: Seq<TimedEvent>) -> (order: Seq<int>)
    ensures
        is_sorted_by(by_time(events), events, order),
    decreases events.len(),
{
    if events.len() == 0 {
        assert(by_time(events) =~= Seq::empty());
        Seq::empty()
    } else {
        let shorter = events.drop_last();
        let e = events.last();
        let before = lemma_sorted_by(shorter);
        let rest = by_time(shorter);
        law_track_is_by_time(shorter);
        lemma_no_later(rest, e.tick);
        let at = no_later(rest, e.tick);
        let n = events.len() as int;
        let order = before.insert(at, n - 1);
        let sorted = by_time(events);
        assert(sorted == rest.insert(at, e));
        assert forall|i: int| 0 <= i < n implies 0 <= #[trigger] order[i] < n && sorted[i]
            == events[order[i]] by {
            if i < at {
                assert(rest[i] == shorter[before[i]]);
            } else if i > at {
                assert(rest[i - 1] == shorter[before[i - 1]]);
            }
        }
        assert forall|i: int, j: int| 0 <= i < j < n implies order[i] != order[j] by {
            let a = if i < at {
                i
            } else {
                i - 1
            };
            let b = if j < at {
                j
            } else {
                j - 1
            };
            if i != at {
                assert(before[a] < n - 1);
            }
            if j != at {
                assert(before[b] < n - 1);
            }
        }
        assert forall|i: int, j: int| 0 <= i < j < n implies (#[trigger] sorted[i]).tick < (
        #[trigger] sorted[j]).tick || (sorted[i].tick == sorted[j].tick && order[i] < order[j]) by {
            if j < at {
                assert(rest[i].tick < rest[j].tick || (rest[i].tick == rest[j].tick && before[i]
                    < before[j]));
            } else if i > at {
                assert(rest[i - 1].tick < rest[j - 1].tick || (rest[i - 1].tick
                    == rest[j - 1].tick && before[i - 1] < before[j - 1]));
            } else if j == at {
                assert(rest[i].tick <= e.tick);
                assert(before[i] < n - 1);
            } else if i == at {
                assert(rest[j - 1].tick > e.tick);
            } else {
                assert(rest[i].tick < rest[j - 1].tick || (rest[i].tick == rest[j - 1].tick
                    && before[i] < before[j - 1]));
            }
        }
        order
    }
}

/// The events of the notes are those of the voiced ones, a press and a release each.
proof fn lemma_body(notes: Seq<NoteTicks>, options: MidiWriteOptions)
    requires
        options.tempo_bpm > 0,
    ensures
        ({
            let voiced = voiced_notes(notes);
            let body = body_events(notes, options);
            &&& body.len() == 2 * voiced.len() + 1
            &&& body[0] == (TimedEvent {
                tick: 0,
                event: SetTempo(60_000_000u32 / options.tempo_bpm),
            })
            &&& forall|k: int|
                0 <= k < voiced.len() ==> note_events(
                    #[trigger] voiced[k],
                    clamped_velocity(options.velocity),
                ) == seq![body[2 * k + 1], body[2 * k + 2]]
        }),
    decreases notes.len(),
{
    reveal(Seq::filter);
    let voiced = voiced_notes(notes);
    let body = body_events(notes, options);
    let velocity = clamped_velocity(options.velocity);
    if notes.len() > 0 {
        let rest = notes.drop_last();
        let before = body_events(rest, options);
        lemma_body(rest, options);
        if notes.last().voiced {
            assert(voiced == voiced_notes(rest).push(notes.last()));
        } else {
            assert(voiced == voiced_notes(rest));
            assert(body =~= before);
        }
        assert forall|k: int| 0 <= k < voiced.len() implies note_events(
            #[trigger] voiced[k],
            velocity,
        ) == seq![body[2 * k + 1], body[2 * k + 2]] by {
            if k < voiced_notes(rest).len() {
                assert(voiced[k] == voiced_notes(rest)[k]);
                assert(note_events(voiced_notes(rest)[k], velocity) == seq![
                    before[2 * k + 1],
                    before[2 * k + 2],
                ]);
                assert(body[2 * k + 1] == before[2 * k + 1]);
                assert(body[2 * k + 2] == before[2 * k + 2]);
            } else {
                assert(note_events(voiced[k], velocity) =~= seq![
                    body[2 * k + 1],
                    body[2 * k + 2],
                ]);
            }
        }
        assert(body[0] == before[0]);
    } else {
        assert(voiced =~= Seq::empty());
    }
}

proof fn lemma_last_tick_is_met(events: Seq<TimedEvent>) -> (k: int)
    requires
        events.len() > 0,
    ensures
        0 <= k < events.len(),
        events[k].tick == last_tick(events),
    decreases events.len(),
{
    let n = events.len() as int;
    if events.last().tick > last_tick(events.drop_last()) || n == 1 {
        n - 1
    } else {
        lemma_last_tick_is_met(events.drop_last())
    }
}

/// The last events are the same ones whether or not more follow.
proof fn lemma_entries_len(events: Seq<TimedEvent>, n: int)
    requires
        is_by_time(events),
        0 <= n <= events.len(),
        entries(events, n) is Ok,
    ensures
        ({
            let track = entries(events, n)->Ok_0;
            &&& track.len() == n
            &&& forall|i: int|
                0 <= i < n ==> (#[trigger] track[i]).event == events[i].event && track[i].delta
                    <= 0x0fff_ffff && time_at(track, i) == events[i].tick
        }),
    decreases n,
{
    if n > 0 {
        lemma_entries_len(events, n - 1);
        let done = entries(events, n - 1)->Ok_0;
        let track = entries(events, n)->Ok_0;
        if n > 1 {
            assert(events[n - 2].tick <= events[n - 1].tick);
        }
        assert forall|i: int| 0 <= i < n implies (#[trigger] track[i]).event == events[i].event
            && track[i].delta <= 0x0fff_ffff && time_at(track, i) == events[i].tick by {
            lemma_time_of_part(done, track, n - 2);
            if i < n - 1 {
                lemma_time_of_part(done, track, i);
                assert(done[i].event == events[i].event);
            } else if n > 1 {
                assert(done[n - 2].event == events[n - 2].event);
            }
        }
    }
}

proof fn lemma_time_of_part(part: Seq<TrackEntry>, track: Seq<TrackEntry>, i: int)
    requires
        i < part.len() <= track.len(),
        forall|j: int| 0 <= j < part.len() ==> #[trigger] part[j] == track[j],
    ensures
        time_at(part, i) == time_at(track, i),
    decreases i + 1,
{
    if i >= 0 {
        lemma_time_of_part(part, track, i - 1);
        assert(part[i] == track[i]);
    }
}

/// The track presses the key of every voiced note at the tick where the note begins and
/// releases it where the note ends, but never before the next tick, and does nothing to a
/// key otherwise. It begins with the tempo at tick zero and ends with its last event. What
/// happens at the same tick keeps the order of the notes, presses before releases.
pub open spec fn plays(
    track: Seq<TrackEntry>,
    notes: Seq<NoteTicks>,
    options: MidiWriteOptions,
) -> bool {
    let voiced = notes.filter(|note: NoteTicks| note.voiced);
    let n = 2 * voiced.len() as int;
    &&& track.len() == n + 2
    &&& track[0].delta == 0
    &&& track[0].event == SetTempo((60_000_000int / options.tempo_bpm as int) as u32)
    &&& track[n + 1].delta == 0
    &&& track[n + 1].event == End
    &&& forall|i: int| 0 <= i < track.len() ==> (#[trigger] track[i]).delta <= 0x0fff_ffff
    &&& exists|order: Seq<int>|
        {
            &&& #[trigger] order.len() == n
            &&& forall|i: int| 0 <= i < n ==> 0 <= #[trigger] order[i] < n
            &&& forall|i: int, j: int| 0 <= i < j < n ==> order[i] != order[j]
            &&& forall|i: int, j: int|
                0 <= i < j < n ==> time_at(track, i + 1) < time_at(track, j + 1) || (
                time_at(track, i + 1) == time_at(track, j + 1) && (#[trigger] order[i]) < (
                #[trigger] order[j]))
            &&& forall|i: int|
                0 <= i < n ==> {
                    let note = voiced[#[trigger] order[i] / 2];
                    let v = options.velocity;
                    if order[i] % 2 == 0 {
                        time_at(track, i + 1) == note.start && track[i + 1].event == (Key {
                            channel: 0u8,
                            change: Press(
                                note.key,
                                if v == 0 {
                                    1
                                } else if v <= 127 {
                                    v
                                } else {
                                    127
                                },
                            ),
                        })
                    } else {
                        time_at(track, i + 1) == (if note.end > note.start {
                            note.end as int
                        } else {
                            note.start + 1
                        }) && track[i + 1].event == (Key {
                            channel: 0u8,
                            change: Release(note.key, 64u8),
                        })
                    }
                }
        }
}

/// The track of some notes plays them, and nothing else.
pub proof fn law_track_plays_every_note(
    notes: Seq<NoteTicks>,
    options: MidiWriteOptions,
    track: Seq<TrackEntry>,
)
    requires
        options.tempo_bpm > 0,
        forall|i: int|
            0 <= i < notes.len() && (#[trigger] notes[i]).voiced ==> notes[i].start < u64::MAX,
        track_of(notes, options) == Ok::<Seq<TrackEntry>, Seq<char>>(track),
    ensures
        plays(track, notes, options),
{
    let voiced = notes.filter(|note: NoteTicks| note.voiced);
    assert(voiced == voiced_notes(notes));
    let n = 2 * voiced.len() as int;
    let body = body_events(notes, options);
    let all = track_events(notes, options);
    let sorted = by_time(all);
    lemma_body(notes, options);
    lemma_last_tick(body);
    law_track_is_by_time(all);
    let full = lemma_sorted_by(all);
    lemma_entries_len(sorted, sorted.len() as int);
    assert(all.len() == n + 2);
    lemma_place_of(full, 0);
    lemma_place_of(full, n + 1);
    let first = choose|i: int| 0 <= i < full.len() && full[i] == 0;
    let end = choose|i: int| 0 <= i < full.len() && full[i] == n + 1;
    assert(all[0].tick == 0);
    if first != 0 {
        assert(sorted[0].tick < sorted[first].tick || full[0] < full[first]);
    }
    assert(all[n + 1] == (TimedEvent { tick: last_tick(body), event: End }));
    assert forall|k: int| 0 <= k < n + 2 implies all[k].tick <= last_tick(body) by {
        if k < n + 1 {
            assert(all[k] == body[k]);
        }
    }
    if end != n + 1 {
        assert(sorted[end].tick < sorted[n + 1].tick || full[end] < full[n + 1]);
        assert(sorted[n + 1] == all[full[n + 1]]);
        assert(sorted[end] == all[full[end]]);
    }
    assert(full[0] == 0 && full[n + 1] == n + 1);
    assert(sorted[0] == all[0] && sorted[n + 1] == all[n + 1]);
    // The last event before the end is as late as the end.
    let k = lemma_last_tick_is_met(body);
    assert(all[k] == body[k]);
    lemma_place_of(full, k);
    let at = choose|i: int| 0 <= i < full.len() && full[i] == k;
    assert(sorted[at] == all[k]);
    if at < n {
        assert(sorted[at].tick <= sorted[n].tick);
    }
    assert(sorted[n].tick <= sorted[n + 1].tick);
    assert(track[0].event == sorted[0].event);
    assert(time_at(track, -1) == 0);
    assert(track[n].event == sorted[n].event);
    assert(track[n + 1].event == sorted[n + 1].event);
    let order = Seq::new(n as nat, |i: int| full[i + 1] - 1);
    assert forall|i: int| 0 <= i < n implies 0 <= #[trigger] order[i] < n by {
        assert(0 <= full[i + 1] < full.len());
        assert(full[0] != full[i + 1] && full[i + 1] != full[n + 1]);
    }
    assert forall|i: int, j: int| 0 <= i < j < n implies order[i] != order[j] by {
        assert(full[i + 1] != full[j + 1]);
    }
    assert forall|i: int, j: int| 0 <= i < j < n implies time_at(track, i + 1) < time_at(
        track,
        j + 1,
    ) || (time_at(track, i + 1) == time_at(track, j + 1) && (#[trigger] order[i]) < (
    #[trigger] order[j])) by {
        assert(track[i + 1].event == sorted[i + 1].event);
        assert(track[j + 1].event == sorted[j + 1].event);
        assert(sorted[i + 1].tick < sorted[j + 1].tick || (sorted[i + 1].tick
            == sorted[j + 1].tick && full[i + 1] < full[j + 1]));
    }
    assert forall|i: int| 0 <= i < n implies {
        let note = voiced[#[trigger] order[i] / 2];
        let v = options.velocity;
        if order[i] % 2 == 0 {
            time_at(track, i + 1) == note.start && track[i + 1].event == (Key {
                channel: 0u8,
                change: Press(
                    note.key,
                    if v == 0 {
                        1
                    } else if v <= 127 {
                        v
                    } else {
                        127
                    },
                ),
            })
        } else {
            time_at(track, i + 1) == (if note.end > note.start {
                note.end as int
            } else {
                note.start + 1
            }) && track[i + 1].event == (Key {
                channel: 0u8,
                change: Release(note.key, 64u8),
            })
        }
    } by {
        let m = order[i] / 2;
        let note = voiced[m];
        let velocity = clamped_velocity(options.velocity);
        assert(track[i + 1].event == sorted[i + 1].event);
        assert(sorted[i + 1] == all[full[i + 1]]);
        assert(all[full[i + 1]] == body[order[i] + 1]);
        assert(note_events(note, velocity) == seq![body[2 * m + 1], body[2 * m + 2]]);
        lemma_filtered(notes, m);
        assert(note_events(note, velocity)[0] == body[2 * m + 1]);
        assert(note_events(note, velocity)[1] == body[2 * m + 2]);
    }
    assert(order.len() == n);
}

/// A voiced note is one of the notes.
proof fn lemma_filtered(notes: Seq<NoteTicks>, m: int)
    requires
        0 <= m < voiced_notes(notes).len(),
    ensures
        voiced_notes(notes)[m].voiced,
        exists|i: int| 0 <= i < notes.len() && notes[i] == voiced_notes(notes)[m],
    decreases notes.len(),
{
    reveal(Seq::filter);
    if notes.len() > 0 {
        let rest = notes.drop_last();
        if m < voiced_notes(rest).len() {
            lemma_filtered(rest, m);
            let i = choose|i: int| 0 <= i < rest.len() && rest[i] == voiced_notes(rest)[m];
            assert(notes[i] == voiced_notes(notes)[m]);
        } else {
            assert(notes[notes.len() - 1] == voiced_notes(notes)[m]);
        }
    }
}

/// Every number below its length stands somewhere in a permutation.
proof fn lemma_place_of(order: Seq<int>, k: int)
    requires
        is_permutation(order),
        0 <= k < order.len(),
    ensures
        exists|i: int| 0 <= i < order.len() && order[i] == k,
{
    if !(exists|i: int| 0 <= i < order.len() && order[i] == k) {
        let n = order.len() as int;
        let moved = Seq::new(
            n as nat,
            |i: int|
                if order[i] > k {
                    order[i] - 1
                } else {
                    order[i]
                },
        );
        assert forall|i: int, j: int| 0 <= i < j < n implies moved[i] != moved[j] by {
            assert(order[i] != order[j] && order[i] != k && order[j] != k);
        }
        assert forall|i: int| 0 <= i < n implies 0 <= #[trigger] moved[i] < n - 1 by {
            assert(0 <= order[i] < n && order[i] != k);
        }
        lemma_too_few_places(moved, n - 1);
    }
}

/// There are no more different numbers below `bound` than `bound`.
proof fn lemma_too_few_places(s: Seq<int>, bound: int)
    requires
        forall|i: int| 0 <= i < s.len() ==> 0 <= #[trigger] s[i] < bound,
        forall|i: int, j: int| 0 <= i < j < s.len() ==> s[i] != s[j],
    ensures
        s.len() <= bound || (bound < 0 && s.len() == 0),
    decreases bound,
{
    if bound <= 0 {
        if s.len() > 0 {
            assert(0 <= s[0] < bound);
        }
    } else if exists|i: int| 0 <= i < s.len() && s[i] == bound - 1 {
        let at = choose|i: int| 0 <= i < s.len() && s[i] == bound - 1;
        let rest = s.remove(at);
        assert forall|i: int| 0 <= i < rest.len() implies 0 <= #[trigger] rest[i] < bound - 1 by {
            let j = if i < at {
                i
            } else {
                i + 1
            };
            assert(rest[i] == s[j]);
            if j < at {
                assert(s[j] != s[at]);
            } else {
                assert(s[at] != s[j]);
            }
        }
        lemma_too_few_places(rest, bound - 1);
    } else {
        assert forall|i: int| 0 <= i < s.len() implies 0 <= #[trigger] s[i] < bound - 1 by {}
        lemma_too_few_places(s, bound - 1);
    }
}

/// A tick at which a voiced note begins or ends.
pub open spec fn is_note_tick(notes: Seq<NoteTicks>, t: int) -> bool {
    exists|i: int|
        0 <= i < notes.len() && (#[trigger] notes[i]).voiced && (t == notes[i].start || t == (
        if notes[i].end > notes[i].start {
            notes[i].end as int
        } else {
            notes[i].start + 1
        }))
}

/// Nothing happens from tick `a`, the beginning or that of an event, up to the event at
/// tick `b`, and the file format cannot tell so long a time.
pub open spec fn is_long_rest(notes: Seq<NoteTicks>, a: int, b: int) -> bool {
    &&& a == 0 || is_note_tick(notes, a)
    &&& is_note_tick(notes, b)
    &&& b - a > 0x0fff_ffff
    &&& forall|t: int| a < t < b ==> !#[trigger] is_note_tick(notes, t)
}

/// A track is refused where, and only where, nothing happens for longer than the file
/// format can tell, from the beginning on or between two events.
pub proof fn law_track_is_refused_for_a_long_rest(
    notes: Seq<NoteTicks>,
    options: MidiWriteOptions,
)
    requires
        options.tempo_bpm > 0,
        forall|i: int|
            0 <= i < notes.len() && (#[trigger] notes[i]).voiced ==> notes[i].start < u64::MAX,
    ensures
        track_of(notes, options) is Err <==> exists|a: int, b: int| is_long_rest(notes, a, b),
{
    let all = track_events(notes, options);
    let sorted = by_time(all);
    let n = sorted.len() as int;
    law_track_is_by_time(all);
    let order = lemma_sorted_by(all);
    lemma_body(notes, options);
    lemma_last_tick(body_events(notes, options));
    assert forall|i: int| 0 <= i < n implies (#[trigger] sorted[i]).tick == 0 || is_note_tick(
        notes,
        sorted[i].tick as int,
    ) by {
        assert(sorted[i] == all[order[i]]);
        let m = lemma_last_tick_is_met(body_events(notes, options));
        let k = if order[i] < n - 1 {
            order[i]
        } else {
            m
        };
        lemma_event_is_note_tick(notes, options, k);
    }
    assert forall|t: int| #[trigger] is_note_tick(notes, t) implies exists|i: int|
        0 <= i < n && (#[trigger] sorted[i]).tick == t by {
        lemma_note_tick_is_event(notes, options, t);
        let body = body_events(notes, options);
        let k = choose|k: int| 0 <= k < body.len() && (#[trigger] body[k]).tick == t;
        assert(all[k] == body[k]);
        lemma_place_of(order, k);
        let i = choose|i: int| 0 <= i < order.len() && order[i] == k;
        assert(sorted[i] == all[order[i]]);
    }
    if track_of(notes, options) is Err {
        let g = lemma_refused_gap(sorted, n);
        let (a, b) = (
            if g == 0 {
                0int
            } else {
                sorted[g - 1].tick as int
            },
            sorted[g].tick as int,
        );
        assert(is_note_tick(notes, b));
        assert(a == 0 || is_note_tick(notes, a)) by {
            if g > 0 {
                assert(sorted[g - 1].tick == 0 || is_note_tick(
                    notes,
                    sorted[g - 1].tick as int,
                ));
            }
        }
        assert forall|t: int| a < t < b implies !#[trigger] is_note_tick(notes, t) by {
            if is_note_tick(notes, t) {
                let i = choose|i: int| 0 <= i < n && (#[trigger] sorted[i]).tick == t;
                if i < g {
                    assert(sorted[i].tick <= sorted[g - 1].tick);
                } else {
                    assert(sorted[g].tick <= sorted[i].tick);
                }
            }
        }
        assert(is_long_rest(notes, a, b));
    } else if exists|a: int, b: int| is_long_rest(notes, a, b) {
        let (a, b) = choose|a: int, b: int| is_long_rest(notes, a, b);
        assert(is_note_tick(notes, b));
        let j = choose|j: int| 0 <= j < n && (#[trigger] sorted[j]).tick == b;
        let g = lemma_first_from(sorted, b, j);
        lemma_no_gap(sorted, n, g);
        if g > 0 {
            let before = sorted[g - 1].tick as int;
            assert(before < b);
            assert(before == 0 || is_note_tick(notes, before));
            assert(before <= a);
        }
    }
}

/// The first event of the tick of event `j`.
proof fn lemma_first_from(sorted: Seq<TimedEvent>, b: int, j: int) -> (g: int)
    requires
        is_by_time(sorted),
        0 <= j < sorted.len(),
        sorted[j].tick == b,
    ensures
        0 <= g <= j,
        sorted[g].tick == b,
        g > 0 ==> sorted[g - 1].tick < b,
    decreases j,
{
    if j > 0 && sorted[j - 1].tick == b {
        lemma_first_from(sorted, b, j - 1)
    } else {
        if j > 0 {
            assert(sorted[j - 1].tick <= sorted[j].tick);
        }
        j
    }
}

proof fn lemma_refused_gap(events: Seq<TimedEvent>, n: int) -> (g: int)
    requires
        is_by_time(events),
        0 <= n <= events.len(),
        entries(events, n) is Err,
    ensures
        0 <= g < n,
        events[g].tick - (if g == 0 {
            0int
        } else {
            events[g - 1].tick as int
        }) > 0x0fff_ffff,
    decreases n,
{
    if n <= 0 {
        0
    } else if entries(events, n - 1) is Err {
        lemma_refused_gap(events, n - 1)
    } else {
        n - 1
    }
}

proof fn lemma_no_gap(events: Seq<TimedEvent>, n: int, g: int)
    requires
        is_by_time(events),
        0 <= g < n <= events.len(),
        entries(events, n) is Ok,
    ensures
        events[g].tick - (if g == 0 {
            0int
        } else {
            events[g - 1].tick as int
        }) <= 0x0fff_ffff,
    decreases n,
{
    if g < n - 1 {
        lemma_no_gap(events, n - 1, g);
    }
}

proof fn lemma_event_is_note_tick(notes: Seq<NoteTicks>, options: MidiWriteOptions, k: int)
    requires
        options.tempo_bpm > 0,
        forall|i: int|
            0 <= i < notes.len() && (#[trigger] notes[i]).voiced ==> notes[i].start < u64::MAX,
        0 <= k < body_events(notes, options).len(),
    ensures
        body_events(notes, options)[k].tick == 0 || is_note_tick(
            notes,
            body_events(notes, options)[k].tick as int,
        ),
{
    lemma_body(notes, options);
    let body = body_events(notes, options);
    let velocity = clamped_velocity(options.velocity);
    if k > 0 {
        let m = (k - 1) / 2;
        let note = voiced_notes(notes)[m];
        lemma_filtered(notes, m);
        assert(note_events(note, velocity) == seq![body[2 * m + 1], body[2 * m + 2]]);
        assert(note_events(note, velocity)[0] == body[2 * m + 1]);
        assert(note_events(note, velocity)[1] == body[2 * m + 2]);
        let i = choose|i: int| 0 <= i < notes.len() && notes[i] == note;
        assert(notes[i].voiced);
    }
}

proof fn lemma_note_tick_is_event(notes: Seq<NoteTicks>, options: MidiWriteOptions, t: int)
    requires
        forall|i: int|
            0 <= i < notes.len() && (#[trigger] notes[i]).voiced ==> notes[i].start < u64::MAX,
        is_note_tick(notes, t),
    ensures
        exists|k: int|
            0 <= k < body_events(notes, options).len() && (#[trigger] body_events(
                notes,
                options,
            )[k]).tick == t,
    decreases notes.len(),
{
    let i = choose|i: int|
        0 <= i < notes.len() && (#[trigger] notes[i]).voiced && (t == notes[i].start || t == (
        if notes[i].end > notes[i].start {
            notes[i].end as int
        } else {
            notes[i].start + 1
        }));
    let rest = notes.drop_last();
    let before = body_events(rest, options);
    let body = body_events(notes, options);
    if i < rest.len() {
        assert(rest[i].voiced);
        assert forall|j: int| 0 <= j < rest.len() && (#[trigger] rest[j]).voiced implies rest[j].start
            < u64::MAX by {
            assert(notes[j].voiced);
        }
        assert(is_note_tick(rest, t));
        lemma_note_tick_is_event(rest, options, t);
        let k = choose|k: int| 0 <= k < before.len() && (#[trigger] before[k]).tick == t;
        assert(body[k] == before[k]);
    } else {
        let n = before.len() as int;
        let events = note_events(notes[i], clamped_velocity(options.velocity));
        assert(body == before + events);
        assert(body[n] == events[0] && body[n + 1] == events[1]);
        assert(body[n].tick == t || body[n + 1].tick == t);
    }
}

// ---------------------------------------------------------------------------
// Encoding
// ---------------------------------------------------------------------------
/// The bytes that `midly` writes for a file with one track of these entries, or
/// the text of its error.
pub uninterp spec fn smf_bytes(ticks_per_qn: u16, track: Seq<TrackEntry>) -> Result<
    Seq<u8>,
    Seq<char>,
>;

/// `midly::Smf::write_std` into a vector: a header of the single-track format
/// with `ticks_per_qn` ticks per quarter note (its low 15 bits), and one track
/// with these entries. The vector takes every byte, and the writer's own limits
/// (256 MB for one event, 4 GB for the track) are out of reach of a track of up to
/// 2^28 entries, which take at most ten bytes each.
#[verifier::external_body]
fn write_smf(ticks_per_qn: u16, track: &Vec<TrackEntry>) -> (r: Result<Vec<u8>, String>)
    ensures
        match r {
            Ok(bytes) => smf_bytes(ticks_per_qn, track@) == Ok::<Seq<u8>, Seq<char>>(bytes@),
            Err(text) => smf_bytes(ticks_per_qn, track@) == Err::<Seq<u8>, Seq<char>>(text@),
        },
        track.len() <= 0x1000_0000 ==> r is Ok,
{
    let mut out = vec![];
    Smf {
        header: Header::new(SingleTrack, Metrical(ticks_per_qn.into())),
        tracks: vec![track.iter().map(|e| TrackEvent { delta: e.delta.into(), kind: match e.event {
            SetTempo(us) => Meta(Tempo(us.into())),
            Key { channel, change } => Midi { channel: channel.into(), message: match change {
                Press(key, vel) => NoteOn { key: key.into(), vel: vel.into() },
                Release(key, vel) => NoteOff { key: key.into(), vel: vel.into() }
            } },
            End => Meta(EndOfTrack)
        } }).collect()],
    }.write_std(&mut out).map_err(|e| e.to_string())?;
    Ok(out)
}

/// The track of the notes, checked for distances that the format cannot hold.
pub fn build_track(notes: &Vec<NoteTicks>, options: &MidiWriteOptions) -> (r: Result<
    Vec<TrackEntry>,
    Error,
>)
    requires
        options.tempo_bpm > 0,
        forall|i: int| 0 <= i < notes.len() && notes@[i].voiced ==> notes@[i].start < u64::MAX,
    ensures
        match r {
            Ok(track) => track_of(notes@, *options) == Ok::<Seq<TrackEntry>, Seq<char>>(track@),
            Err(e) => track_of(notes@, *options) == Err::<Seq<TrackEntry>, Seq<char>>(e@),
        },
{
    let velocity: u8 = if options.velocity < 1 {
        1
    } else if options.velocity > 127 {
        127
    } else {
        options.velocity
    };
    let mut events: Vec<TimedEvent> = Vec::new();
    let mut latest: u64 = 0;
    let ghost mut unsorted: Seq<TimedEvent> = body_events(Seq::empty(), *options);
    events.push(
        TimedEvent { tick: 0, event: SetTempo(60_000_000u32 / options.tempo_bpm) },
    );
    proof {
        lemma_by_time_singleton(unsorted[0]);
        assert(unsorted =~= seq![unsorted[0]]);
        assert(events@ =~= by_time(unsorted));
        assert(unsorted.drop_last() =~= Seq::<TimedEvent>::empty());
        assert(last_tick(unsorted.drop_last()) == 0);
        assert(unsorted.last().tick == 0);
        assert(last_tick(unsorted) == 0);
    }
    let mut i: usize = 0;
    while i < notes.len()
        invariant
            i <= notes.len(),
            velocity == clamped_velocity(options.velocity),
            unsorted == body_events(notes@.take(i as int), *options),
            events@ == by_time(unsorted),
            latest == last_tick(unsorted),
            forall|j: int|
                0 <= j < notes.len() && notes@[j].voiced ==> notes@[j].start < u64::MAX,
        decreases notes.len() - i,
    {
        let note: NoteTicks = notes[i];
        proof {
            let upto = notes@.take(i as int + 1);
            assert(upto.drop_last() =~= notes@.take(i as int));
            assert(upto.last() == note);
        }
        if note.voiced {
            let end: u64 = if note.end <= note.start {
                note.start + 1
            } else {
                note.end
            };
            let on = TimedEvent {
                tick: note.start,
                event: Key { channel: NOTE_CHANNEL, change: Press(note.key, velocity) },
            };
            let off = TimedEvent {
                tick: end,
                event: Key { channel: NOTE_CHANNEL, change: Release(note.key, RELEASE_VELOCITY) },
            };
            let ghost first = unsorted.push(on);
            let ghost second = first.push(off);
            proof {
                assert(first.drop_last() =~= unsorted);
                assert(second.drop_last() =~= first);
                assert(second =~= unsorted + note_events(note, velocity));
                law_track_is_by_time(unsorted);
                law_track_is_by_time(first);
            }
            insert_by_time(&mut events, on);
            if on.tick > latest {
                latest = on.tick;
            }
            insert_by_time(&mut events, off);
            if off.tick > latest {
                latest = off.tick;
            }
            proof {
                assert(first.last() == on && second.last() == off);
                assert(last_tick(first) == if on.tick > last_tick(unsorted) {
                    on.tick
                } else {
                    last_tick(unsorted)
                });
                unsorted = second;
            }
        } else {
            assert(unsorted + note_events(note, velocity) =~= unsorted);
        }
        i += 1;
    }
    assert(notes@.take(i as int) =~= notes@);
    let end = TimedEvent { tick: latest, event: End };
    proof {
        law_track_is_by_time(unsorted);
        law_track_is_by_time(unsorted.push(end));
        assert(unsorted.push(end).drop_last() =~= unsorted);
    }
    insert_by_time(&mut events, end);
    deltas(&events)
}

proof fn lemma_by_time_singleton(e: TimedEvent)
    ensures
        by_time(seq![e]) == seq![e],
{
    let s = seq![e];
    assert(s.drop_last() =~= Seq::<TimedEvent>::empty());
    assert(by_time(s.drop_last()) =~= Seq::<TimedEvent>::empty());
    assert(by_time(s) =~= s);
}

/// Inserts an event behind all events that are no later.
fn insert_by_time(events: &mut Vec<TimedEvent>, event: TimedEvent)
    requires
        is_by_time(old(events)@),
    ensures
        final(events)@ == old(events)@.insert(no_later(old(events)@, event.tick), event),
{
    let mut at: usize = events.len();
    proof {
        assert(events@.take(at as int) =~= events@);
        lemma_no_later(events@, event.tick);
    }
    while at > 0 && events[at - 1].tick > event.tick
        invariant
            at <= events.len(),
            events@ == old(events)@,
            no_later(events@, event.tick) == no_later(events@.take(at as int), event.tick),
        decreases at,
    {
        proof {
            let head = events@.take(at as int);
            assert(head.drop_last() =~= events@.take(at - 1));
            assert(head.last() == events@[at - 1]);
        }
        at -= 1;
    }
    proof {
        let head = events@.take(at as int);
        if at > 0 {
            assert(head.last() == events@[at - 1]);
        }
        assert(no_later(head, event.tick) == at);
    }
    events.insert(at, event);
}

/// The events as entries with distances.
fn deltas(events: &Vec<TimedEvent>) -> (r: Result<Vec<TrackEntry>, Error>)
    requires
        is_by_time(events@),
    ensures
        match r {
            Ok(track) => entries(events@, events.len() as int) == Ok::<
                Seq<TrackEntry>,
                Seq<char>,
            >(track@),
            Err(e) => entries(events@, events.len() as int) == Err::<Seq<TrackEntry>, Seq<char>>(
                e@,
            ),
        },
{
    let mut track: Vec<TrackEntry> = Vec::new();
    let mut previous: u64 = 0;
    let mut i: usize = 0;
    while i < events.len()
        invariant
            i <= events.len(),
            is_by_time(events@),
            previous == (if i == 0 {
                0
            } else {
                events@[i - 1].tick as int
            }),
            entries(events@, i as int) == Ok::<Seq<TrackEntry>, Seq<char>>(track@),
        decreases events.len() - i,
    {
        let event: TimedEvent = events[i];
        assert(i > 0 ==> events@[i - 1].tick <= events@[i as int].tick);
        let delta: u64 = event.tick - previous;
        if delta > MAX_DELTA as u64 {
            let mut text = String::from_str("MIDI delta time ");
            push_decimal(&mut text, delta);
            if delta > u32::MAX as u64 {
                text.append(" exceeds u32::MAX");
            } else {
                text.append(" exceeds the SMF u28 limit");
            }
            proof {
                lemma_entry_error_stays(events@, i as int + 1, events.len() as int);
            }
            return Err(Error::from_text(text));
        }
        track.push(TrackEntry { delta: delta as u32, event: event.event });
        previous = event.tick;
        i += 1;
    }
    Ok(track)
}

proof fn lemma_entry_error_stays(events: Seq<TimedEvent>, n: int, m: int)
    requires
        0 <= n <= m,
        entries(events, n) is Err,
    ensures
        entries(events, m) == entries(events, n),
    decreases m - n,
{
    if n < m {
        lemma_entry_error_stays(events, n, m - 1);
    }
}

/// What `encode_midi` gives: a complaint about the options, about a distance, or
/// what is written for the track.
pub open spec fn encoded(notes: Seq<NoteTicks>, options: MidiWriteOptions) -> Result<
    Seq<u8>,
    Seq<char>,
> {
    if options.tempo_bpm == 0 {
        Err("MIDI tempo must be > 0 BPM"@)
    } else if options.ticks_per_qn == 0 {
        Err("MIDI ticks_per_qn must be > 0"@)
    } else {
        match track_of(notes, options) {
            Err(e) => Err(e),
            Ok(track) => match smf_bytes(options.ticks_per_qn, track) {
                Err(e) => Err("failed to encode MIDI: "@ + e),
                Ok(bytes) => Ok(bytes),
            },
        }
    }
}

/// Encodes notes as a MIDI file.
pub fn encode_midi(notes: &Vec<NoteTicks>, options: &MidiWriteOptions) -> (r: Result<
    Vec<u8>,
    Error,
>)
    requires
        forall|i: int| 0 <= i < notes.len() && notes@[i].voiced ==> notes@[i].start < u64::MAX,
    ensures
        match r {
            Ok(bytes) => encoded(notes@, *options) == Ok::<Seq<u8>, Seq<char>>(bytes@),
            Err(e) => encoded(notes@, *options) == Err::<Seq<u8>, Seq<char>>(e@),
        },
        options.tempo_bpm > 0 && options.ticks_per_qn > 0 && track_of(notes@, *options) is Ok
            && track_of(notes@, *options)->Ok_0.len() <= 0x1000_0000 ==> r is Ok,
{
    if options.tempo_bpm == 0 {
        return Err(Error::message("MIDI tempo must be > 0 BPM"));
    }
    if options.ticks_per_qn == 0 {
        return Err(Error::message("MIDI ticks_per_qn must be > 0"));
    }
    let track = match build_track(notes, options) {
        Ok(track) => track,
        Err(e) => {
            return Err(e);
        },
    };
    match write_smf(options.ticks_per_qn, &track) {
        Ok(bytes) => Ok(bytes),
        Err(err) => {
            let mut text = String::from_str("failed to encode MIDI: ");
            text.append(&err);
            Err(Error::from_text(text))
        },
    }
}

/// A file is written for every tempo and resolution but zero, unless nothing happens for
/// longer than the format can tell or the writer fails. It has the given resolution, and
/// its track plays the notes.
pub proof fn law_file_plays_every_note(notes: Seq<NoteTicks>, options: MidiWriteOptions)
    requires
        forall|i: int|
            0 <= i < notes.len() && (#[trigger] notes[i]).voiced ==> notes[i].start < u64::MAX,
    ensures
        options.tempo_bpm == 0 ==> encoded(notes, options) == Err::<Seq<u8>, Seq<char>>(
            "MIDI tempo must be > 0 BPM"@,
        ),
        options.tempo_bpm > 0 && options.ticks_per_qn == 0 ==> encoded(notes, options) == Err::<
            Seq<u8>,
            Seq<char>,
        >("MIDI ticks_per_qn must be > 0"@),
        options.tempo_bpm > 0 && options.ticks_per_qn > 0 && (forall|a: int, b: int|
            !is_long_rest(notes, a, b)) ==> exists|track: Seq<TrackEntry>|
            plays(track, notes, options) && match #[trigger] smf_bytes(
                options.ticks_per_qn,
                track,
            ) {
                Ok(bytes) => encoded(notes, options) == Ok::<Seq<u8>, Seq<char>>(bytes),
                Err(e) => encoded(notes, options) == Err::<Seq<u8>, Seq<char>>(
                    "failed to encode MIDI: "@ + e,
                ),
            },
        options.tempo_bpm > 0 && options.ticks_per_qn > 0 && (exists|a: int, b: int|
            is_long_rest(notes, a, b)) ==> encoded(notes, options) is Err,
{
    if options.tempo_bpm > 0 && options.ticks_per_qn > 0 {
        law_track_is_refused_for_a_long_rest(notes, options);
        if track_of(notes, options) is Ok {
            let track = track_of(notes, options)->Ok_0;
            law_track_plays_every_note(notes, options, track);
            assert(smf_bytes(options.ticks_per_qn, track) is Ok || smf_bytes(
                options.ticks_per_qn,
                track,
            ) is Err);
        }
    }
}

} // verus!
