use game_rs::output::{
    format_notes_text, midi_note_name, NoteText, TextOutputFormat, TextWriteOptions,
};

fn note(offset: f32, duration: f32, pitch: f32, voiced: bool) -> NoteText {
    let nearest = pitch.round();
    let cents = (pitch - nearest) * 100.0;
    NoteText {
        offset: offset.to_string(),
        duration: duration.to_string(),
        pitch: format!("{pitch:.3}"),
        nearest: nearest as i32,
        cents: if cents.abs() >= 0.5 { Some(cents.round() as i32) } else { None },
        voiced,
    }
}

#[test]
fn txt_and_csv_emit_expected_separators_and_headers() {
    let notes = vec![note(0.0, 0.5, 60.0, true), note(0.5, 0.5, 0.0, false)];

    let options = TextWriteOptions { round_pitch: true, use_pitch_names: false };
    let txt = format_notes_text(&notes, TextOutputFormat::Txt, &options);
    let csv = format_notes_text(&notes, TextOutputFormat::Csv, &options);

    assert!(txt.contains('\t'));
    assert!(txt.contains("rest"));
    assert!(csv.starts_with("offset,duration,pitch\n"));
    assert!(csv.contains("60"));
    assert_eq!(txt, "0\t0.5\t60\n0.5\t0.5\trest\n");
    assert_eq!(csv, "offset,duration,pitch\n0,0.5,60\n0.5,0.5,rest\n");
}

#[test]
fn note_names_include_octave() {
    let notes = vec![note(0.0, 1.0, 69.0, true)];

    let options = TextWriteOptions { round_pitch: false, use_pitch_names: true };
    let txt = format_notes_text(&notes, TextOutputFormat::Txt, &options);

    assert!(txt.contains("A4"));
}

#[test]
fn names_carry_cents_where_they_are_not_rounded() {
    let notes = vec![note(0.0, 1.0, 60.25, true), note(0.0, 1.0, 59.75, true)];
    let names = TextWriteOptions { round_pitch: false, use_pitch_names: true };
    let rounded = TextWriteOptions { round_pitch: true, use_pitch_names: true };
    let numbers = TextWriteOptions::default();
    assert_eq!(
        format_notes_text(&notes, TextOutputFormat::Txt, &names),
        "0\t1\tC4+25\n0\t1\tC4-25\n"
    );
    assert_eq!(
        format_notes_text(&notes, TextOutputFormat::Txt, &rounded),
        "0\t1\tC4\n0\t1\tC4\n"
    );
    assert_eq!(
        format_notes_text(&notes, TextOutputFormat::Csv, &numbers),
        "offset,duration,pitch\n0,1,60.250\n0,1,59.750\n"
    );
}

#[test]
fn note_names_of_the_whole_range() {
    assert_eq!(midi_note_name(60), "C4");
    assert_eq!(midi_note_name(61), "C#4");
    assert_eq!(midi_note_name(0), "C-1");
    assert_eq!(midi_note_name(-1), "B-2");
    assert_eq!(midi_note_name(127), "G9");
}

#[test]
fn the_comma_form_is_the_tab_form_with_a_header() {
    let notes = vec![
        note(0.0, 0.5, 60.25, true),
        note(0.5, 1.5, 0.0, false),
        note(2.0, 0.25, 59.75, true),
    ];
    for (round_pitch, use_pitch_names) in [(false, false), (true, false), (false, true)] {
        let options = TextWriteOptions { round_pitch, use_pitch_names };
        let txt = format_notes_text(&notes, TextOutputFormat::Txt, &options);
        let csv = format_notes_text(&notes, TextOutputFormat::Csv, &options);
        assert_eq!(csv, format!("offset,duration,pitch\n{}", txt.replace('\t', ",")));
        assert_eq!(txt.matches('\n').count(), notes.len());
        assert!(txt.ends_with('\n'));
    }
    let none = TextWriteOptions::default();
    assert_eq!(format_notes_text(&vec![], TextOutputFormat::Txt, &none), "");
    assert_eq!(format_notes_text(&vec![], TextOutputFormat::Csv, &none), "offset,duration,pitch\n");
}
