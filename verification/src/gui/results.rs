//! What stands on the page of results.
use vstd::prelude::*;
use vstd::string::*;

use crate::float_order::{is_nan, is_nan_bits, less, less_bits};
use crate::gui::pages::{backend_label, backend_name, format_label, output_format_name};
use crate::notify::{duration_text, format_duration};
use crate::output::{midi_note_name, pitch_name};
use crate::paths::{text_view, FilePath, PathView};
use crate::service_session::{ExtractOutputResult, ExtractResult};
use crate::text::{
    count_text, decimal, decimal_string, digit_char, format_count, push_decimal, zero_padded,
};

verus! {

// ---------------------------------------------------------------------------
// The summary
// ---------------------------------------------------------------------------
/// A number of seconds in minutes and seconds.
pub open spec fn audio_duration_text(total: nat) -> Seq<char> {
    if total < 60 {
        decimal(total) + "s"@
    } else {
        decimal(total / 60) + "m "@ + zero_padded(decimal(total % 60), 2) + "s"@
    }
}

/// Shows a number of seconds, rounded to a whole one, in minutes and seconds.
pub fn format_audio_duration(total: u64) -> (s: String)
    ensures
        s@ == audio_duration_text(total as nat),
{
    let minutes: u64 = total / 60;
    let seconds: u64 = total % 60;
    if minutes == 0 {
        let mut s = decimal_string(seconds);
        s.append("s");
        s
    } else {
        let mut s = decimal_string(minutes);
        s.append("m ");
        proof {
            crate::gui::results::lemma_two_digits(seconds as nat);
        }
        if seconds < 10 {
            s.append("0");
        }
        push_decimal(&mut s, seconds);
        s.append("s");
        assert(s@ =~= audio_duration_text(total as nat));
        s
    }
}

pub proof fn lemma_two_digits(n: nat)
    requires
        n < 60,
    ensures
        zero_padded(decimal(n), 2) == if n < 10 {
            "0"@ + decimal(n)
        } else {
            decimal(n)
        },
{
    reveal_strlit("0");
    reveal_with_fuel(decimal, 3);
    if n < 10 {
        assert(zero_padded(decimal(n), 2) =~= "0"@ + decimal(n));
    } else {
        assert(decimal(n).len() == 2);
        assert(zero_padded(decimal(n), 2) =~= decimal(n));
    }
}

/// What is told of a result.
#[derive(Debug)]
pub struct ResultSummary {
    pub backend: String,
    pub note_count: String,
    pub chunk_count: String,
    pub audio_duration: String,
    pub total_frames: String,
    pub total_time: String,
    pub model_load: String,
    pub audio_prepare: String,
    pub silence_slice: String,
    pub long_chunk_split: String,
    pub mel_setup: String,
    pub inference: String,
    pub output_write: String,
    pub output_display: Option<String>,
    pub output_path: Option<FilePath>,
}

/// The backend, with the adapter where there is one.
pub open spec fn backend_summary<N>(result: ExtractResult<N>) -> Seq<char> {
    match result.gpu_adapter {
        Some(adapter) => backend_label(result.backend) + " ("@ + adapter.name@ + ")"@,
        None => backend_label(result.backend),
    }
}

/// The number of chunks, with the one before long chunks were split where it differs.
pub open spec fn chunk_summary(before: nat, after: nat) -> Seq<char> {
    if before != after {
        decimal(before) + " -> "@ + decimal(after)
    } else {
        decimal(after)
    }
}

pub open spec fn output_summary(output: Option<ExtractOutputResult>) -> Option<Seq<char>> {
    match output {
        Some(o) => Some(o.path.text@ + " ("@ + format_label(o.format) + ")"@),
        None => None,
    }
}

/// The summary tells this result.
pub open spec fn is_summary<N>(s: ResultSummary, result: ExtractResult<N>, seconds: nat) -> bool {
    &&& s.backend@ == backend_summary(result)
    &&& s.note_count@ == count_text(result.notes@.len())
    &&& s.chunk_count@ == chunk_summary(
        result.chunks_before_long_split as nat,
        result.chunk_count as nat,
    )
    &&& s.audio_duration@ == audio_duration_text(seconds)
    &&& s.total_frames@ == count_text(result.total_frames as nat)
    &&& s.total_time@ == duration_text(result.timings.total)
    &&& s.model_load@ == duration_text(result.timings.model_load)
    &&& s.audio_prepare@ == duration_text(result.timings.audio_prepare)
    &&& s.silence_slice@ == duration_text(result.timings.silence_slice)
    &&& s.long_chunk_split@ == duration_text(result.timings.long_chunk_split)
    &&& s.mel_setup@ == duration_text(result.timings.mel_setup)
    &&& s.inference@ == duration_text(result.timings.inference)
    &&& s.output_write@ == duration_text(result.timings.output_write)
    &&& text_view(s.output_display) == output_summary(result.output)
    &&& match result.output {
        Some(o) => s.output_path matches Some(p) && p@ == o.path@,
        None => s.output_path is None,
    }
}

impl ResultSummary {
    /// Sums up a result; `seconds` is the length of the audio, rounded.
    pub fn from_result<N>(result: &ExtractResult<N>, seconds: u64) -> (s: ResultSummary)
        ensures
            is_summary(s, *result, seconds as nat),
    {
        let mut backend = String::from_str(backend_name(result.backend));
        if let Some(adapter) = &result.gpu_adapter {
            backend.append(" (");
            backend.append(&adapter.name);
            backend.append(")");
        }
        let chunk_count = if result.chunks_before_long_split != result.chunk_count {
            let mut s = decimal_string(result.chunks_before_long_split as u64);
            s.append(" -> ");
            push_decimal(&mut s, result.chunk_count as u64);
            s
        } else {
            decimal_string(result.chunk_count as u64)
        };
        let output_display = match &result.output {
            Some(output) => {
                let mut s = String::from_str(&output.path.text);
                s.append(" (");
                s.append(output_format_name(output.format));
                s.append(")");
                Some(s)
            },
            None => None,
        };
        let output_path = match &result.output {
            Some(output) => Some(output.path.duplicate()),
            None => None,
        };
        ResultSummary {
            backend,
            note_count: format_count(result.notes.len() as u64),
            chunk_count,
            audio_duration: format_audio_duration(seconds),
            total_frames: format_count(result.total_frames as u64),
            total_time: format_duration(result.timings.total),
            model_load: format_duration(result.timings.model_load),
            audio_prepare: format_duration(result.timings.audio_prepare),
            silence_slice: format_duration(result.timings.silence_slice),
            long_chunk_split: format_duration(result.timings.long_chunk_split),
            mel_setup: format_duration(result.timings.mel_setup),
            inference: format_duration(result.timings.inference),
            output_write: format_duration(result.timings.output_write),
            output_display,
            output_path,
        }
    }
}

/// The folder that holds an output: the current one where the path names none.
pub open spec fn folder_of(path: PathView) -> Seq<char> {
    match path.parent {
        Some(dir) => if dir.len() > 0 {
            dir
        } else {
            "."@
        },
        None => "."@,
    }
}

/// Finds the folder that holds an output.
pub fn output_folder(path: &FilePath) -> (s: String)
    ensures
        s@ == folder_of(path@),
{
    match &path.parent {
        Some(dir) => if dir.as_str().is_empty() {
            String::from_str(".")
        } else {
            String::from_str(dir)
        },
        None => String::from_str("."),
    }
}

// ---------------------------------------------------------------------------
// The notes
// ---------------------------------------------------------------------------
/// So many notes are shown.
pub const NOTE_PREVIEW_LIMIT: usize = 200;

/// A note with its numbers in the forms that the page needs.
#[derive(Debug)]
pub struct PreviewNote {
    /// The beginning in seconds with three decimals.
    pub offset: String,
    /// The length in seconds with three decimals.
    pub duration: String,
    /// The pitch as a MIDI number with one decimal.
    pub pitch: String,
    /// The bit pattern of the pitch.
    pub bits: u32,
    /// The MIDI number nearest to the pitch.
    pub nearest: i32,
    pub voiced: bool,
}

/// The voiced ones among the first `n` notes.
pub open spec fn voiced_count(notes: Seq<PreviewNote>, n: int) -> int
    decreases n,
{
    if n <= 0 {
        0
    } else {
        voiced_count(notes, n - 1) + if notes[n - 1].voiced {
            1int
        } else {
            0
        }
    }
}

/// Of two notes, the place of the lower: a pitch that is no number gives way.
pub open spec fn lower(notes: Seq<PreviewNote>, a: int, b: int) -> int {
    if is_nan(notes[a].bits) || less(notes[b].bits, notes[a].bits) {
        b
    } else {
        a
    }
}

/// Of two notes, the place of the higher: a pitch that is no number gives way.
pub open spec fn higher(notes: Seq<PreviewNote>, a: int, b: int) -> int {
    if is_nan(notes[a].bits) || less(notes[a].bits, notes[b].bits) {
        b
    } else {
        a
    }
}

/// The places of the lowest and the highest voiced note among the first `n`.
pub open spec fn pitch_range(notes: Seq<PreviewNote>, n: int) -> Option<(int, int)>
    decreases n,
{
    if n <= 0 {
        None
    } else if !notes[n - 1].voiced {
        pitch_range(notes, n - 1)
    } else {
        match pitch_range(notes, n - 1) {
            None => Some((n - 1, n - 1)),
            Some((lo, hi)) => Some((lower(notes, lo, n - 1), higher(notes, hi, n - 1))),
        }
    }
}

proof fn lemma_pitch_range_bounds(notes: Seq<PreviewNote>, n: int)
    requires
        n <= notes.len(),
    ensures
        pitch_range(notes, n) matches Some((lo, hi)) ==> 0 <= lo < n && 0 <= hi < n
            && notes[lo].voiced && notes[hi].voiced,
    decreases n,
{
    if n > 0 {
        lemma_pitch_range_bounds(notes, n - 1);
    }
}

/// Finds the places of the lowest and the highest voiced note.
pub fn voiced_pitch_range(notes: &Vec<PreviewNote>) -> (r: Option<(usize, usize)>)
    ensures
        match r {
            Some((lo, hi)) => pitch_range(notes@, notes.len() as int) == Some(
                (lo as int, hi as int),
            ) && lo < notes.len() && hi < notes.len(),
            None => pitch_range(notes@, notes.len() as int) is None,
        },
{
    let mut r: Option<(usize, usize)> = None;
    let mut i: usize = 0;
    while i < notes.len()
        invariant
            i <= notes.len(),
            match r {
                Some((lo, hi)) => pitch_range(notes@, i as int) == Some((lo as int, hi as int))
                    && lo < i && hi < i,
                None => pitch_range(notes@, i as int) is None,
            },
        decreases notes.len() - i,
    {
        if notes[i].voiced {
            r = match r {
                None => Some((i, i)),
                Some((lo, hi)) => {
                    let new_lo: usize = if is_nan_bits(notes[lo].bits) || less_bits(
                        notes[i].bits,
                        notes[lo].bits,
                    ) {
                        i
                    } else {
                        lo
                    };
                    let new_hi: usize = if is_nan_bits(notes[hi].bits) || less_bits(
                        notes[hi].bits,
                        notes[i].bits,
                    ) {
                        i
                    } else {
                        hi
                    };
                    Some((new_lo, new_hi))
                },
            };
        }
        i += 1;
    }
    r
}

/// No voiced note is lower than the lowest or higher than the highest.
pub proof fn law_pitch_range_holds_all_voiced_notes(notes: Seq<PreviewNote>, n: int, k: int)
    requires
        0 <= k < n <= notes.len(),
        notes[k].voiced,
    ensures
        pitch_range(notes, n) matches Some((lo, hi)) && !less(notes[k].bits, notes[lo].bits)
            && !less(notes[hi].bits, notes[k].bits) && (is_nan(notes[lo].bits) ==> is_nan(
            notes[k].bits,
        )) && (is_nan(notes[hi].bits) ==> is_nan(notes[k].bits)),
    decreases n,
{
    if k < n - 1 {
        law_pitch_range_holds_all_voiced_notes(notes, n - 1, k);
    } else if pitch_range(notes, n - 1) is Some {
        lemma_pitch_range_bounds(notes, n - 1);
    }
}

/// A row of the table of notes.
#[derive(Debug)]
pub struct NoteRow {
    pub number: String,
    pub offset: String,
    pub duration: String,
    pub pitch: String,
}

pub open spec fn pitch_cell(note: PreviewNote) -> Seq<char> {
    if note.voiced {
        pitch_name(note.nearest as int) + " ("@ + note.pitch@ + ")"@
    } else {
        "rest"@
    }
}

/// The row tells the note of this place.
pub open spec fn is_note_row(row: NoteRow, note: PreviewNote, index: int) -> bool {
    &&& row.number@ == decimal((index + 1) as nat)
    &&& row.offset@ == note.offset@ + "s"@
    &&& row.duration@ == note.duration@ + "s"@
    &&& row.pitch@ == pitch_cell(note)
}

/// What is shown of the notes.
#[derive(Debug)]
pub struct NotesPreview {
    pub caption: String,
    pub rows: Vec<NoteRow>,
    pub more: Option<String>,
}

pub open spec fn range_text(notes: Seq<PreviewNote>) -> Seq<char> {
    match pitch_range(notes, notes.len() as int) {
        Some((lo, hi)) => pitch_name(notes[lo].nearest as int) + " \u{2013} "@ + pitch_name(
            notes[hi].nearest as int,
        ),
        None => "\u{2014}"@,
    }
}

pub open spec fn notes_caption(notes: Seq<PreviewNote>) -> Seq<char> {
    if notes.len() == 0 {
        "No notes were produced."@
    } else {
        count_text(notes.len()) + " notes ("@ + decimal(
            voiced_count(notes, notes.len() as int) as nat,
        ) + " voiced) \u{b7} pitch range "@ + range_text(notes)
    }
}

pub open spec fn shown_notes(n: nat) -> nat {
    if n > NOTE_PREVIEW_LIMIT {
        NOTE_PREVIEW_LIMIT as nat
    } else {
        n
    }
}

pub open spec fn more_text(n: nat) -> Option<Seq<char>> {
    if n > NOTE_PREVIEW_LIMIT {
        Some("\u{2026} and "@ + count_text((n - NOTE_PREVIEW_LIMIT) as nat) + " more"@)
    } else {
        None
    }
}

fn count_voiced(notes: &Vec<PreviewNote>) -> (n: usize)
    ensures
        n == voiced_count(notes@, notes.len() as int),
{
    let mut n: usize = 0;
    let mut i: usize = 0;
    while i < notes.len()
        invariant
            i <= notes.len(),
            n <= i,
            n == voiced_count(notes@, i as int),
        decreases notes.len() - i,
    {
        if notes[i].voiced {
            n += 1;
        }
        i += 1;
    }
    n
}

fn note_row(note: &PreviewNote, index: usize) -> (row: NoteRow)
    requires
        index < usize::MAX,
    ensures
        is_note_row(row, *note, index as int),
{
    let mut offset = String::from_str(&note.offset);
    offset.append("s");
    let mut duration = String::from_str(&note.duration);
    duration.append("s");
    let pitch = if note.voiced {
        let mut s = midi_note_name(note.nearest);
        s.append(" (");
        s.append(&note.pitch);
        s.append(")");
        s
    } else {
        String::from_str("rest")
    };
    NoteRow { number: decimal_string((index + 1) as u64), offset, duration, pitch }
}

/// Lays out the notes: a caption, the first of them, and how many more there are.
pub fn notes_preview(notes: &Vec<PreviewNote>) -> (p: NotesPreview)
    ensures
        p.caption@ == notes_caption(notes@),
        p.rows.len() == shown_notes(notes@.len()),
        forall|i: int|
            0 <= i < p.rows.len() ==> is_note_row(#[trigger] p.rows@[i], notes@[i], i),
        text_view(p.more) == more_text(notes@.len()),
{
    let caption = if notes.len() == 0 {
        String::from_str("No notes were produced.")
    } else {
        let range = match voiced_pitch_range(notes) {
            Some((lo, hi)) => {
                let mut s = midi_note_name(notes[lo].nearest);
                s.append(" \u{2013} ");
                s.append(&midi_note_name(notes[hi].nearest));
                s
            },
            None => String::from_str("\u{2014}"),
        };
        let mut s = format_count(notes.len() as u64);
        s.append(" notes (");
        push_decimal(&mut s, count_voiced(notes) as u64);
        s.append(" voiced) \u{b7} pitch range ");
        s.append(&range);
        s
    };
    let shown: usize = if notes.len() > NOTE_PREVIEW_LIMIT {
        NOTE_PREVIEW_LIMIT
    } else {
        notes.len()
    };
    let mut rows: Vec<NoteRow> = Vec::new();
    let mut i: usize = 0;
    while i < shown
        invariant
            i <= shown <= notes.len(),
            rows.len() == i,
            forall|k: int| 0 <= k < i ==> is_note_row(#[trigger] rows@[k], notes@[k], k),
        decreases shown - i,
    {
        rows.push(note_row(&notes[i], i));
        i += 1;
    }
    let more = if notes.len() > NOTE_PREVIEW_LIMIT {
        let mut s = String::from_str("\u{2026} and ");
        s.append(&format_count((notes.len() - NOTE_PREVIEW_LIMIT) as u64));
        s.append(" more");
        Some(s)
    } else {
        None
    };
    NotesPreview { caption, rows, more }
}

/// Minutes and seconds add up to the seconds that they show; the seconds beside minutes
/// have two digits and are fewer than sixty.
pub proof fn law_minutes_and_seconds_add_up(minutes: nat, seconds: nat)
    requires
        seconds < 60,
    ensures
        audio_duration_text(seconds) == decimal(seconds) + "s"@,
        minutes > 0 ==> audio_duration_text(60 * minutes + seconds) == decimal(minutes) + "m "@
            + seq![digit_char((seconds / 10) as int), digit_char((seconds % 10) as int)] + "s"@,
{
    if minutes > 0 {
        assert((60 * minutes + seconds) / 60 == minutes);
        assert((60 * minutes + seconds) % 60 == seconds);
        reveal_with_fuel(decimal, 2);
        assert(zero_padded(decimal(seconds), 2) =~= seq![
            digit_char((seconds / 10) as int),
            digit_char((seconds % 10) as int),
        ]);
    }
}

/// The ends of the range of pitches are voiced notes, and there is a range exactly where
/// there is a voiced note.
pub proof fn law_pitch_range_ends_in_voiced_notes(notes: Seq<PreviewNote>, n: int)
    requires
        0 <= n <= notes.len(),
    ensures
        pitch_range(notes, n) is Some <==> exists|k: int| 0 <= k < n && #[trigger] notes[k].voiced,
        pitch_range(notes, n) matches Some((lo, hi)) ==> {
            &&& 0 <= lo < n && notes[lo].voiced
            &&& 0 <= hi < n && notes[hi].voiced
        },
    decreases n,
{
    if n > 0 {
        law_pitch_range_ends_in_voiced_notes(notes, n - 1);
    }
}

/// Every voiced note is counted, and no rest.
pub proof fn law_voiced_notes_are_counted(notes: Seq<PreviewNote>, n: int)
    requires
        0 <= n <= notes.len(),
    ensures
        voiced_count(notes, n) == Set::new(|k: int| 0 <= k < n && notes[k].voiced).len(),
        Set::new(|k: int| 0 <= k < n && notes[k].voiced).finite(),
    decreases n,
{
    let all = Set::new(|k: int| 0 <= k < n && notes[k].voiced);
    if n > 0 {
        law_voiced_notes_are_counted(notes, n - 1);
        let fewer = Set::new(|k: int| 0 <= k < n - 1 && notes[k].voiced);
        if notes[n - 1].voiced {
            assert(all =~= fewer.insert(n - 1));
        } else {
            assert(all =~= fewer);
        }
    } else {
        assert(all =~= Set::<int>::empty());
    }
}

/// Chunks are shown by their number; where splitting made more of them, by the number
/// before as well.
pub proof fn law_split_chunks_show_both_numbers(before: nat, after: nat)
    ensures
        chunk_summary(after, after) == decimal(after),
        before != after ==> chunk_summary(before, after) == decimal(before) + " -> "@ + decimal(
            after,
        ),
{
}

/// All notes are in the table or counted behind it.
pub proof fn law_notes_are_shown_or_counted(n: nat)
    ensures
        shown_notes(n) <= n,
        shown_notes(n) == n <==> more_text(n) is None,
        more_text(n) matches Some(text) ==> text == "\u{2026} and "@ + count_text(
            (n - shown_notes(n)) as nat,
        ) + " more"@,
{
}

} // verus!
