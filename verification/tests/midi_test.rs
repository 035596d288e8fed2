use game_rs::midi_writer::{
    build_track, encode_midi, KeyChange, MidiEvent, MidiWriteOptions, NoteTicks, MAX_DELTA,
};
use midly::{MetaMessage, MidiMessage, Smf, TrackEventKind};

fn tick(seconds: f32, options: &MidiWriteOptions) -> u64 {
    let per_second = f64::from(options.tempo_bpm) * f64::from(options.ticks_per_qn) / 60.0;
    (f64::from(seconds) * per_second).round() as u64
}

fn note(offset: f32, duration: f32, pitch: f32, voiced: bool) -> NoteTicks {
    let options = MidiWriteOptions::default();
    NoteTicks {
        start: tick(offset, &options),
        end: tick(offset + duration, &options),
        key: pitch.round().clamp(0.0, 127.0) as u8,
        voiced,
    }
}

#[test]
fn encodes_single_track_midi_with_note_events() {
    let notes = vec![note(0.0, 0.5, 60.0, true), note(0.5, 0.5, 64.0, true)];

    let bytes = encode_midi(&notes, &MidiWriteOptions::default()).unwrap();
    let smf = Smf::parse(&bytes).unwrap();

    assert_eq!(smf.header.format, midly::Format::SingleTrack);
    assert_eq!(smf.tracks.len(), 1);

    let mut note_on_count = 0usize;
    let mut note_off_count = 0usize;
    let mut saw_tempo = false;
    let mut saw_end = false;

    for event in &smf.tracks[0] {
        match event.kind {
            TrackEventKind::Meta(MetaMessage::Tempo(_)) => saw_tempo = true,
            TrackEventKind::Meta(MetaMessage::EndOfTrack) => saw_end = true,
            TrackEventKind::Midi { message: MidiMessage::NoteOn { .. }, .. } => note_on_count += 1,
            TrackEventKind::Midi { message: MidiMessage::NoteOff { .. }, .. } => {
                note_off_count += 1
            }
            _ => {}
        }
    }

    assert!(saw_tempo);
    assert!(saw_end);
    assert_eq!(note_on_count, 2);
    assert_eq!(note_off_count, 2);
}

#[test]
fn skips_unvoiced_notes() {
    let notes = vec![note(0.0, 0.5, 60.0, true), note(0.5, 0.5, 0.0, false)];

    let bytes = encode_midi(&notes, &MidiWriteOptions::default()).unwrap();
    let smf = Smf::parse(&bytes).unwrap();
    let note_event_count = smf.tracks[0]
        .iter()
        .filter(|event| {
            matches!(
                event.kind,
                TrackEventKind::Midi {
                    message: MidiMessage::NoteOn { .. } | MidiMessage::NoteOff { .. },
                    ..
                }
            )
        })
        .count();

    assert_eq!(note_event_count, 2);
}

fn press(key: u8, velocity: u8) -> MidiEvent {
    MidiEvent::Key { channel: 0, change: KeyChange::Press(key, velocity) }
}

fn release(key: u8) -> MidiEvent {
    MidiEvent::Key { channel: 0, change: KeyChange::Release(key, 64) }
}

#[test]
fn events_come_by_time_and_keep_their_order_within_a_tick() {
    let notes = vec![note(0.5, 0.5, 64.0, true), note(0.0, 0.5, 60.0, true)];
    let track = build_track(&notes, &MidiWriteOptions::default()).unwrap();
    let events: Vec<(u32, MidiEvent)> = track.iter().map(|e| (e.delta, e.event)).collect();
    assert_eq!(
        events,
        vec![
            (0, MidiEvent::SetTempo(500_000)),
            (0, press(60, 96)),
            (480, press(64, 96)),
            (0, release(60)),
            (480, release(64)),
            (0, MidiEvent::End),
        ]
    );
}

#[test]
fn encoded_events_are_the_events_of_the_track() {
    let notes = vec![note(0.25, 0.5, 60.0, true), note(1.0, 0.5, 64.0, true)];
    let options = MidiWriteOptions { tempo_bpm: 90, velocity: 200, ticks_per_qn: 96 };
    let track = build_track(&notes, &options).unwrap();
    let bytes = encode_midi(&notes, &options).unwrap();
    let smf = Smf::parse(&bytes).unwrap();
    assert_eq!(smf.header.timing, midly::Timing::Metrical(midly::num::u15::new(96)));
    assert_eq!(smf.tracks[0].len(), track.len());
    for (written, wanted) in smf.tracks[0].iter().zip(&track) {
        assert_eq!(written.delta.as_int(), wanted.delta);
        let event = match written.kind {
            TrackEventKind::Meta(MetaMessage::Tempo(t)) => MidiEvent::SetTempo(t.as_int()),
            TrackEventKind::Meta(MetaMessage::EndOfTrack) => MidiEvent::End,
            TrackEventKind::Midi { channel, message } => MidiEvent::Key {
                channel: channel.as_int(),
                change: match message {
                    MidiMessage::NoteOn { key, vel } => {
                        KeyChange::Press(key.as_int(), vel.as_int())
                    }
                    MidiMessage::NoteOff { key, vel } => {
                        KeyChange::Release(key.as_int(), vel.as_int())
                    }
                    _ => panic!("unexpected message"),
                },
            },
            _ => panic!("unexpected event"),
        };
        assert_eq!(event, wanted.event);
    }
    assert_eq!(track[0].event, MidiEvent::SetTempo(666_666));
    assert_eq!(track[1].event, press(60, 127));
}

#[test]
fn options_and_distances_out_of_range_are_refused() {
    let notes = vec![NoteTicks { start: 0, end: 1, key: 60, voiced: true }];
    let ok = MidiWriteOptions::default();
    assert!(encode_midi(&notes, &MidiWriteOptions { tempo_bpm: 0, ..ok }).is_err());
    assert!(encode_midi(&notes, &MidiWriteOptions { ticks_per_qn: 0, ..ok }).is_err());
    let far = vec![NoteTicks {
        start: MAX_DELTA as u64 + 1,
        end: MAX_DELTA as u64 + 2,
        key: 60,
        voiced: true,
    }];
    assert_eq!(
        encode_midi(&far, &ok).unwrap_err().text,
        "MIDI delta time 268435456 exceeds the SMF u28 limit"
    );
    let farther = vec![NoteTicks { start: 1 << 40, end: 1 << 41, key: 60, voiced: true }];
    assert_eq!(
        encode_midi(&farther, &ok).unwrap_err().text,
        "MIDI delta time 1099511627776 exceeds u32::MAX"
    );
}

#[test]
fn rests_leave_the_track_unchanged() {
    let options = MidiWriteOptions::default();
    let voiced = vec![note(0.0, 0.5, 60.0, true), note(2.0, 0.5, 64.0, true)];
    let rests = vec![
        note(0.0, 9.0, 61.0, false),
        voiced[0],
        note(0.5, 1.5, 0.0, false),
        voiced[1],
        note(3.0, 7.0, 0.0, false),
    ];
    assert_eq!(build_track(&rests, &options).unwrap(), build_track(&voiced, &options).unwrap());
    assert_eq!(encode_midi(&rests, &options).unwrap(), encode_midi(&voiced, &options).unwrap());
}
