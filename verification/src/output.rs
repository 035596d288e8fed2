//! Notes as lines of text: tab-separated or comma-separated.
use vstd::prelude::*;
use vstd::string::*;

use crate::text::{
    decimal, explicit_signed_decimal, push_explicit_signed, push_signed, signed_decimal,
};

verus! {

#[derive(Debug, Clone, Copy, PartialEq, Eq, Structural)]
pub enum TextOutputFormat {
    Txt,
    Csv,
}

/// How a pitch is shown.
#[derive(Debug, Clone, Copy, PartialEq, Eq, Structural)]
pub struct TextWriteOptions {
    pub round_pitch: bool,
    pub use_pitch_names: bool,
}

impl Default for TextWriteOptions {
    fn default() -> (options: Self)
        ensures
            options == (TextWriteOptions { round_pitch: false, use_pitch_names: false }),
    {
        TextWriteOptions { round_pitch: false, use_pitch_names: false }
    }
}

/// A note with its numbers in the forms that a line of text can need.
#[derive(Debug, Clone)]
pub struct NoteText {
    /// The beginning in seconds.
    pub offset: String,
    /// The length in seconds.
    pub duration: String,
    /// The pitch as a MIDI number with three decimals.
    pub pitch: String,
    /// The MIDI number nearest to the pitch.
    pub nearest: i32,
    /// How many cents, to the nearest, the pitch lies from `nearest`; nothing
    /// where it is less than half a cent.
    pub cents: Option<i32>,
    /// A note that is not voiced is a rest.
    pub voiced: bool,
}

/// The name of a pitch class, counted from C.
pub open spec fn class_name(class: int) -> Seq<char> {
    if class == 0 {
        "C"@
    } else if class == 1 {
        "C#"@
    } else if class == 2 {
        "D"@
    } else if class == 3 {
        "D#"@
    } else if class == 4 {
        "E"@
    } else if class == 5 {
        "F"@
    } else if class == 6 {
        "F#"@
    } else if class == 7 {
        "G"@
    } else if class == 8 {
        "G#"@
    } else if class == 9 {
        "A"@
    } else if class == 10 {
        "A#"@
    } else {
        "B"@
    }
}

/// The name of a MIDI number with its octave: 60 is C4.
pub open spec fn pitch_name(midi: int) -> Seq<char> {
    class_name(midi % 12) + signed_decimal(midi / 12 - 1)
}

/// The pitch column of a note.
pub open spec fn pitch_text(note: NoteText, options: TextWriteOptions) -> Seq<char> {
    if !note.voiced {
        "rest"@
    } else if options.use_pitch_names {
        if options.round_pitch || note.cents is None {
            pitch_name(note.nearest as int)
        } else {
            pitch_name(note.nearest as int) + explicit_signed_decimal(note.cents->0 as int)
        }
    } else if options.round_pitch {
        signed_decimal(note.nearest as int)
    } else {
        note.pitch@
    }
}

pub open spec fn separator(format: TextOutputFormat) -> Seq<char> {
    match format {
        TextOutputFormat::Txt => "\t"@,
        TextOutputFormat::Csv => ","@,
    }
}

/// One line of the file.
pub open spec fn note_line(
    note: NoteText,
    format: TextOutputFormat,
    options: TextWriteOptions,
) -> Seq<char> {
    note.offset@ + separator(format) + note.duration@ + separator(format) + pitch_text(
        note,
        options,
    ) + "\n"@
}

/// The header, where the format has one, and a line for each note.
pub open spec fn notes_text(
    notes: Seq<NoteText>,
    format: TextOutputFormat,
    options: TextWriteOptions,
) -> Seq<char>
    decreases notes.len(),
{
    if notes.len() == 0 {
        match format {
            TextOutputFormat::Txt => Seq::empty(),
            TextOutputFormat::Csv => "offset,duration,pitch\n"@,
        }
    } else {
        notes_text(notes.drop_last(), format, options) + note_line(notes.last(), format, options)
    }
}

fn class_name_str(class: u32) -> (name: &'static str)
    requires
        class < 12,
    ensures
        name@ == class_name(class as int),
{
    if class == 0 {
        "C"
    } else if class == 1 {
        "C#"
    } else if class == 2 {
        "D"
    } else if class == 3 {
        "D#"
    } else if class == 4 {
        "E"
    } else if class == 5 {
        "F"
    } else if class == 6 {
        "F#"
    } else if class == 7 {
        "G"
    } else if class == 8 {
        "G#"
    } else if class == 9 {
        "A"
    } else if class == 10 {
        "A#"
    } else {
        "B"
    }
}

/// Appends the name of a MIDI number.
pub fn push_pitch_name(out: &mut String, midi: i32)
    ensures
        final(out)@ == old(out)@ + pitch_name(midi as int),
{
    // Shifted by a multiple of twelve, every number is positive.
    let shifted: u64 = (midi as i64 + 12 * 178_956_971) as u64;
    let class: u32 = (shifted % 12) as u32;
    let octave: i64 = (shifted / 12) as i64 - 178_956_971 - 1;
    out.append(class_name_str(class));
    push_signed(out, octave);
    assert(out@ =~= old(out)@ + pitch_name(midi as int));
}

/// The name of a MIDI number with its octave.
pub fn midi_note_name(midi: i32) -> (name: String)
    ensures
        name@ == pitch_name(midi as int),
{
    let mut name = String::new();
    push_pitch_name(&mut name, midi);
    assert(name@ =~= pitch_name(midi as int));
    name
}

fn push_pitch(out: &mut String, note: &NoteText, options: &TextWriteOptions)
    ensures
        final(out)@ == old(out)@ + pitch_text(*note, *options),
{
    if !note.voiced {
        out.append("rest");
    } else if options.use_pitch_names {
        push_pitch_name(out, note.nearest);
        if !options.round_pitch {
            if let Some(cents) = note.cents {
                push_explicit_signed(out, cents as i64);
            }
        }
    } else if options.round_pitch {
        push_signed(out, note.nearest as i64);
    } else {
        out.append(&note.pitch);
    }
    assert(out@ =~= old(out)@ + pitch_text(*note, *options));
}

/// The text of a file of notes.
pub fn format_notes_text(
    notes: &Vec<NoteText>,
    format: TextOutputFormat,
    options: &TextWriteOptions,
) -> (out: String)
    ensures
        out@ == notes_text(notes@, format, *options),
{
    let mut out = String::new();
    if format == TextOutputFormat::Csv {
        out.append("offset,duration,pitch\n");
    }
    let sep: &str = match format {
        TextOutputFormat::Txt => "\t",
        TextOutputFormat::Csv => ",",
    };
    assert(out@ =~= notes_text(notes@.take(0), format, *options));
    let mut i: usize = 0;
    while i < notes.len()
        invariant
            i <= notes.len(),
            sep@ == separator(format),
            out@ == notes_text(notes@.take(i as int), format, *options),
        decreases notes.len() - i,
    {
        let ghost before = out@;
        let note = &notes[i];
        out.append(&note.offset);
        out.append(sep);
        out.append(&note.duration);
        out.append(sep);
        push_pitch(&mut out, note, options);
        out.append("\n");
        proof {
            assert(out@ =~= before + note_line(*note, format, *options));
            let upto = notes@.take(i as int + 1);
            assert(upto.drop_last() =~= notes@.take(i as int));
            assert(upto.last() == *note);
        }
        i += 1;
    }
    assert(notes@.take(i as int) =~= notes@);
    out
}

/// The name of a pitch tells its MIDI number: numbers with the same pitch class
/// and octave are the same.
pub proof fn law_pitch_class_and_octave_determine_number(a: int, b: int)
    requires
        a % 12 == b % 12,
        a / 12 - 1 == b / 12 - 1,
    ensures
        a == b,
{
}

/// How often `c` occurs in a text.
pub open spec fn occurrences(s: Seq<char>, c: char) -> nat
    decreases s.len(),
{
    if s.len() == 0 {
        0
    } else {
        occurrences(s.drop_last(), c) + if s.last() == c {
            1nat
        } else {
            0
        }
    }
}

/// The text with every tab replaced by a comma.
pub open spec fn commas_for_tabs(s: Seq<char>) -> Seq<char> {
    s.map_values(
        |c: char|
            if c == '\t' {
                ','
            } else {
                c
            },
    )
}

/// A text that fits in a column: without tabs and without ends of lines.
pub open spec fn fits_column(s: Seq<char>) -> bool {
    forall|i: int| 0 <= i < s.len() ==> #[trigger] s[i] != '\t' && s[i] != '\n'
}

/// The numbers of a note, as text, fit in their columns.
pub open spec fn fits_columns(note: NoteText) -> bool {
    fits_column(note.offset@) && fits_column(note.duration@) && fits_column(note.pitch@)
}

proof fn lemma_decimal_fits(n: nat)
    ensures
        fits_column(decimal(n)),
    decreases n,
{
    if n >= 10 {
        lemma_decimal_fits(n / 10);
    }
}

proof fn lemma_pitch_fits(note: NoteText, options: TextWriteOptions)
    requires
        fits_columns(note),
    ensures
        fits_column(pitch_text(note, options)),
{
    reveal_strlit("rest");
    reveal_strlit("C");
    reveal_strlit("C#");
    reveal_strlit("D");
    reveal_strlit("D#");
    reveal_strlit("E");
    reveal_strlit("F");
    reveal_strlit("F#");
    reveal_strlit("G");
    reveal_strlit("G#");
    reveal_strlit("A");
    reveal_strlit("A#");
    reveal_strlit("B");
    let octave = note.nearest as int / 12 - 1;
    lemma_decimal_fits(octave as nat);
    lemma_decimal_fits((-octave) as nat);
    lemma_decimal_fits(note.nearest as nat);
    lemma_decimal_fits((-note.nearest) as nat);
    assert(fits_column(class_name(note.nearest as int % 12)));
    if note.cents is Some {
        lemma_decimal_fits(note.cents->0 as nat);
        lemma_decimal_fits((-note.cents->0) as nat);
        assert(fits_column(explicit_signed_decimal(note.cents->0 as int)));
    }
    assert(fits_column(signed_decimal(octave)));
    assert(fits_column(signed_decimal(note.nearest as int)));
    assert(fits_column(pitch_name(note.nearest as int)));
}

proof fn lemma_occurrences_add(a: Seq<char>, b: Seq<char>, c: char)
    ensures
        occurrences(a + b, c) == occurrences(a, c) + occurrences(b, c),
    decreases b.len(),
{
    if b.len() == 0 {
        assert(a + b =~= a);
    } else {
        lemma_occurrences_add(a, b.drop_last(), c);
        assert((a + b).drop_last() =~= a + b.drop_last());
        assert((a + b).last() == b.last());
    }
}

proof fn lemma_column_has_no_end(s: Seq<char>)
    requires
        fits_column(s),
    ensures
        occurrences(s, '\n') == 0,
    decreases s.len(),
{
    if s.len() > 0 {
        assert(s.last() == s[s.len() - 1]);
        assert forall|i: int| 0 <= i < s.drop_last().len() implies #[trigger] s.drop_last()[i]
            != '\t' && s.drop_last()[i] != '\n' by {
            assert(s[i] != '\t' && s[i] != '\n');
        }
        lemma_column_has_no_end(s.drop_last());
    }
}

/// A line holds one end of line, and differs between the forms by its separators.
proof fn lemma_line(note: NoteText, options: TextWriteOptions)
    requires
        fits_columns(note),
    ensures
        note_line(note, TextOutputFormat::Csv, options) == commas_for_tabs(
            note_line(note, TextOutputFormat::Txt, options),
        ),
        occurrences(note_line(note, TextOutputFormat::Txt, options), '\n') == 1,
        note_line(note, TextOutputFormat::Txt, options).last() == '\n',
        note_line(note, TextOutputFormat::Txt, options).len() > 0,
{
    lemma_pitch_fits(note, options);
    reveal_strlit("\t");
    reveal_strlit(",");
    reveal_strlit("\n");
    let (x, y, z) = (note.offset@, note.duration@, pitch_text(note, options));
    let line = note_line(note, TextOutputFormat::Txt, options);
    assert(note_line(note, TextOutputFormat::Csv, options) =~= commas_for_tabs(line));
    let tab = "\t"@;
    let end = "\n"@;
    assert(tab =~= seq!['\t'] && end =~= seq!['\n']);
    lemma_column_has_no_end(x);
    lemma_column_has_no_end(y);
    lemma_column_has_no_end(z);
    assert(tab.drop_last() =~= Seq::empty() && end.drop_last() =~= Seq::empty());
    reveal_with_fuel(occurrences, 2);
    assert(occurrences(tab, '\n') == 0);
    assert(occurrences(end, '\n') == 1);
    lemma_occurrences_add(x, tab, '\n');
    lemma_occurrences_add(x + tab, y, '\n');
    lemma_occurrences_add(x + tab + y, tab, '\n');
    lemma_occurrences_add(x + tab + y + tab, z, '\n');
    lemma_occurrences_add(x + tab + y + tab + z, end, '\n');
    assert(line == x + tab + y + tab + z + end);
}

/// The comma form is its header and the tab form with commas for tabs.
pub proof fn law_comma_form_is_the_tab_form(notes: Seq<NoteText>, options: TextWriteOptions)
    requires
        forall|i: int| 0 <= i < notes.len() ==> fits_columns(#[trigger] notes[i]),
    ensures
        notes_text(notes, TextOutputFormat::Csv, options) == "offset,duration,pitch\n"@
            + commas_for_tabs(notes_text(notes, TextOutputFormat::Txt, options)),
    decreases notes.len(),
{
    let head = "offset,duration,pitch\n"@;
    if notes.len() == 0 {
        assert(head =~= head + commas_for_tabs(Seq::empty()));
    } else {
        let rest = notes.drop_last();
        assert forall|i: int| 0 <= i < rest.len() implies fits_columns(#[trigger] rest[i]) by {
            assert(fits_columns(notes[i]));
        }
        law_comma_form_is_the_tab_form(rest, options);
        assert(fits_columns(notes[notes.len() - 1]));
        lemma_line(notes.last(), options);
        let before = notes_text(rest, TextOutputFormat::Txt, options);
        let line = note_line(notes.last(), TextOutputFormat::Txt, options);
        assert(commas_for_tabs(before + line) =~= commas_for_tabs(before) + commas_for_tabs(line));
        assert(head + commas_for_tabs(before) + commas_for_tabs(line) =~= head + (commas_for_tabs(
            before,
        ) + commas_for_tabs(line)));
    }
}

/// The tab form has a line for each note, and every line is ended.
pub proof fn law_every_note_has_a_line(notes: Seq<NoteText>, options: TextWriteOptions)
    requires
        forall|i: int| 0 <= i < notes.len() ==> fits_columns(#[trigger] notes[i]),
    ensures
        occurrences(notes_text(notes, TextOutputFormat::Txt, options), '\n') == notes.len(),
        notes.len() == 0 ==> notes_text(notes, TextOutputFormat::Txt, options).len() == 0,
        notes.len() > 0 ==> notes_text(notes, TextOutputFormat::Txt, options).last() == '\n',
    decreases notes.len(),
{
    if notes.len() > 0 {
        let rest = notes.drop_last();
        assert forall|i: int| 0 <= i < rest.len() implies fits_columns(#[trigger] rest[i]) by {
            assert(fits_columns(notes[i]));
        }
        law_every_note_has_a_line(rest, options);
        assert(fits_columns(notes[notes.len() - 1]));
        lemma_line(notes.last(), options);
        lemma_occurrences_add(
            notes_text(rest, TextOutputFormat::Txt, options),
            note_line(notes.last(), TextOutputFormat::Txt, options),
            '\n',
        );
    }
}

/// The twelve names repeat in every octave, and octaves begin at C: number 12 is C0, and
/// every twelve numbers the octave goes up by one.
pub proof fn law_names_repeat_every_octave(octave: int)
    ensures
        ({
            let c = 12 * (octave + 1);
            let o = signed_decimal(octave);
            &&& pitch_name(c) == "C"@ + o
            &&& pitch_name(c + 1) == "C#"@ + o
            &&& pitch_name(c + 2) == "D"@ + o
            &&& pitch_name(c + 3) == "D#"@ + o
            &&& pitch_name(c + 4) == "E"@ + o
            &&& pitch_name(c + 5) == "F"@ + o
            &&& pitch_name(c + 6) == "F#"@ + o
            &&& pitch_name(c + 7) == "G"@ + o
            &&& pitch_name(c + 8) == "G#"@ + o
            &&& pitch_name(c + 9) == "A"@ + o
            &&& pitch_name(c + 10) == "A#"@ + o
            &&& pitch_name(c + 11) == "B"@ + o
        }),
{
    assert forall|k: int| 0 <= k < 12 implies #[trigger] ((12 * (octave + 1) + k) % 12) == k && (12
        * (octave + 1) + k) / 12 == octave + 1 by {}
    let c = 12 * (octave + 1);
    assert((c + 0) % 12 == 0);
    assert((c + 1) % 12 == 1);
    assert((c + 2) % 12 == 2);
    assert((c + 3) % 12 == 3);
    assert((c + 4) % 12 == 4);
    assert((c + 5) % 12 == 5);
    assert((c + 6) % 12 == 6);
    assert((c + 7) % 12 == 7);
    assert((c + 8) % 12 == 8);
    assert((c + 9) % 12 == 9);
    assert((c + 10) % 12 == 10);
    assert((c + 11) % 12 == 11);
}

/// `column` is the pitch of a note as the options want it.
pub open spec fn shows_pitch(
    column: Seq<char>,
    note: NoteText,
    options: TextWriteOptions,
) -> bool {
    &&& !note.voiced ==> column == "rest"@
    &&& note.voiced && !options.use_pitch_names && !options.round_pitch ==> column == note.pitch@
    &&& note.voiced && !options.use_pitch_names && options.round_pitch ==> column
        == signed_decimal(note.nearest as int)
    &&& note.voiced && options.use_pitch_names && (options.round_pitch || note.cents is None)
        ==> column == pitch_name(note.nearest as int)
    &&& note.voiced && options.use_pitch_names && !options.round_pitch && note.cents is Some
        ==> column == pitch_name(note.nearest as int) + explicit_signed_decimal(
        note.cents->0 as int,
    )
}

/// One more note adds one line at the end, of its beginning, its length and its pitch, and
/// changes nothing of the lines before it. Without notes there is the header alone, which
/// only the comma form has.
pub proof fn law_a_note_adds_a_line(
    notes: Seq<NoteText>,
    note: NoteText,
    options: TextWriteOptions,
)
    ensures
        notes_text(Seq::empty(), TextOutputFormat::Txt, options) == ""@,
        notes_text(Seq::empty(), TextOutputFormat::Csv, options) == "offset,duration,pitch\n"@,
        exists|column: Seq<char>|
            {
                &&& #[trigger] shows_pitch(column, note, options)
                &&& notes_text(notes.push(note), TextOutputFormat::Txt, options) == notes_text(
                    notes,
                    TextOutputFormat::Txt,
                    options,
                ) + (note.offset@ + seq!['\t'] + note.duration@ + seq!['\t'] + column
                    + seq!['\n'])
                &&& notes_text(notes.push(note), TextOutputFormat::Csv, options) == notes_text(
                    notes,
                    TextOutputFormat::Csv,
                    options,
                ) + (note.offset@ + seq![','] + note.duration@ + seq![','] + column + seq!['\n'])
            },
{
    reveal_strlit("");
    reveal_strlit("\t");
    reveal_strlit(",");
    reveal_strlit("\n");
    assert("\t"@ =~= seq!['\t']);
    assert(","@ =~= seq![',']);
    assert("\n"@ =~= seq!['\n']);
    assert(""@ =~= Seq::<char>::empty());
    assert(notes.push(note).drop_last() =~= notes);
    assert(shows_pitch(pitch_text(note, options), note, options));
}

} // verus!
