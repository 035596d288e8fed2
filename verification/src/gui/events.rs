//! What a window shows of the events of a run.
use vstd::prelude::*;
use vstd::string::*;

use crate::cli::{
    chunk_index, find_word_after, number, parse_chunk_index, read_number, word_after,
};
use crate::notify::{
    duration_text, format_duration, level_name, level_text, CoreEvent, EventView,
    NotificationLevel,
};
use crate::service_chunks::chunk_label_text;
use crate::text::{
    chars_of, decimal, digits_end, find, find_chars, is_digit, law_decimal_is_read_back,
    lemma_find_from, lemma_numeral_ends, occurs_at, push_decimal, same_text, scan_digits,
    starts_with, string_of, words,
};

verus! {

/// How much a line of the log matters.
#[derive(Debug, Clone, Copy, PartialEq, Eq, Structural)]
pub enum GuiLogLevel {
    Trace,
    Debug,
    Info,
    Warn,
    Error,
}

pub open spec fn event_level(event: EventView) -> GuiLogLevel {
    match event {
        EventView::Message { level, .. } => match level {
            NotificationLevel::Trace => GuiLogLevel::Trace,
            NotificationLevel::Debug => GuiLogLevel::Debug,
            NotificationLevel::Info => GuiLogLevel::Info,
            NotificationLevel::Warn => GuiLogLevel::Warn,
            NotificationLevel::Error => GuiLogLevel::Error,
        },
        EventView::Progress { .. } | EventView::Timing { .. } => GuiLogLevel::Debug,
        _ => GuiLogLevel::Info,
    }
}

impl GuiLogLevel {
    /// The level of an event: progress and timings are details.
    pub fn from_event(event: &CoreEvent) -> (level: GuiLogLevel)
        ensures
            level == event_level(event@),
    {
        match event {
            CoreEvent::Message { level, .. } => match level {
                NotificationLevel::Trace => GuiLogLevel::Trace,
                NotificationLevel::Debug => GuiLogLevel::Debug,
                NotificationLevel::Info => GuiLogLevel::Info,
                NotificationLevel::Warn => GuiLogLevel::Warn,
                NotificationLevel::Error => GuiLogLevel::Error,
            },
            CoreEvent::Progress { .. } | CoreEvent::Timing { .. } => GuiLogLevel::Debug,
            _ => GuiLogLevel::Info,
        }
    }
}

/// A stage in brackets and a blank.
pub open spec fn stage_mark(stage: Seq<char>) -> Seq<char> {
    "["@ + stage + "] "@
}

/// The line of an event in the log.
pub open spec fn event_line(event: EventView) -> Seq<char> {
    match event {
        EventView::ChunkPlan { total } => "planning "@ + decimal(total as nat) + " chunk(s)"@,
        EventView::Status { stage, message, .. } => stage_mark(stage) + message,
        EventView::Progress { stage, current, total, detail, .. } => {
            let line = stage_mark(stage) + decimal(current as nat) + "/"@ + decimal(total as nat);
            match detail {
                Some(text) => line + " ("@ + text + ")"@,
                None => line,
            }
        },
        EventView::Timing { stage, elapsed, detail, .. } => {
            let line = stage_mark(stage) + duration_text(elapsed);
            match detail {
                Some(text) => line + " "@ + text,
                None => line,
            }
        },
        EventView::ModelLoaded { backend, elapsed } => "model loaded ("@ + backend + ") in "@
            + duration_text(elapsed),
        EventView::Message { level, message } => stage_mark(level_text(level)) + message,
    }
}

fn stage_prefix(stage: &str) -> (s: String)
    ensures
        s@ == stage_mark(stage@),
{
    let mut s = String::from_str("[");
    s.append(stage);
    s.append("] ");
    s
}

/// Makes the line of an event in the log.
pub fn format_event(event: &CoreEvent) -> (s: String)
    ensures
        s@ == event_line(event@),
{
    match event {
        CoreEvent::ChunkPlan { total } => {
            let mut s = String::from_str("planning ");
            push_decimal(&mut s, *total as u64);
            s.append(" chunk(s)");
            s
        },
        CoreEvent::Status { stage, message, .. } => {
            let mut s = stage_prefix(stage);
            s.append(message);
            s
        },
        CoreEvent::Progress { stage, current, total, detail, .. } => {
            let mut s = stage_prefix(stage);
            push_decimal(&mut s, *current as u64);
            s.append("/");
            push_decimal(&mut s, *total as u64);
            if let Some(text) = detail {
                s.append(" (");
                s.append(text);
                s.append(")");
            }
            s
        },
        CoreEvent::Timing { stage, elapsed, detail, .. } => {
            let mut s = stage_prefix(stage);
            s.append(&format_duration(*elapsed));
            if let Some(text) = detail {
                s.append(" ");
                s.append(text);
            }
            s
        },
        CoreEvent::ModelLoaded { backend, elapsed } => {
            let mut s = String::from_str("model loaded (");
            s.append(backend);
            s.append(") in ");
            s.append(&format_duration(*elapsed));
            s
        },
        CoreEvent::Message { level, message } => {
            let mut s = stage_prefix(level_name(*level));
            s.append(message);
            s
        },
    }
}

/// The label of a chunk: from `chunk 1/5: infer start offset=.. duration=4.56s` it
/// is `chunk 1/5 (4.56s)`. Another text stays as it is.
pub open spec fn chunk_title(message: Seq<char>) -> Seq<char> {
    match find(message, ": infer start "@) {
        Some(at) => {
            let label = message.take(at);
            let rest = message.skip(at + ": infer start "@.len());
            let duration = word_after(words(rest), "duration="@, 0);
            if duration.len() == 0 {
                label
            } else {
                label + " ("@ + duration + ")"@
            }
        },
        None => message,
    }
}

/// Makes the label of a chunk from the text of its status.
pub fn format_chunk_status(message: &str) -> (out: String)
    ensures
        out@ == chunk_title(message@),
{
    let chars = chars_of(message);
    let mark = chars_of(": infer start ");
    match find_chars(&chars, &mark, 0) {
        Some(at) => {
            let mut label = string_of(&chars, 0, at);
            assert(label@ =~= message@.take(at as int));
            let rest = string_of(&chars, at + mark.len(), chars.len());
            assert(rest@ =~= message@.skip(at + ": infer start "@.len()));
            let duration = find_word_after(&rest, "duration=");
            if chars_of(&duration).len() == 0 {
                label
            } else {
                label.append(" (");
                label.append(&duration);
                label.append(")");
                label
            }
        },
        None => String::from_str(message),
    }
}

/// What a stage and the message of its status are shown as.
pub open spec fn status_shown(stage: Seq<char>, message: Seq<char>) -> Seq<char> {
    if stage == "model_load"@ {
        "Loading model..."@
    } else if stage == "audio_prepare"@ {
        "Preparing audio..."@
    } else if stage == "silence_slice"@ {
        "Slicing audio on silence..."@
    } else if stage == "long_chunk_split"@ {
        "Splitting long chunks..."@
    } else if stage == "mel_setup"@ {
        "Initializing mel extractor..."@
    } else if stage == "output_write"@ {
        "Writing output..."@
    } else if stage == "chunk_infer"@ {
        chunk_title(message)
    } else {
        message
    }
}

/// Puts the status of a stage into words.
pub fn friendly_status(stage: &str, message: &str) -> (s: String)
    ensures
        s@ == status_shown(stage@, message@),
{
    if same_text(stage, "model_load") {
        String::from_str("Loading model...")
    } else if same_text(stage, "audio_prepare") {
        String::from_str("Preparing audio...")
    } else if same_text(stage, "silence_slice") {
        String::from_str("Slicing audio on silence...")
    } else if same_text(stage, "long_chunk_split") {
        String::from_str("Splitting long chunks...")
    } else if same_text(stage, "mel_setup") {
        String::from_str("Initializing mel extractor...")
    } else if same_text(stage, "output_write") {
        String::from_str("Writing output...")
    } else if same_text(stage, "chunk_infer") {
        format_chunk_status(message)
    } else {
        String::from_str(message)
    }
}

/// The number behind the slash that begins a text; zero where there is none.
pub open spec fn total_behind(rest: Seq<char>) -> int {
    if rest.len() == 0 || rest[0] != '/' {
        0
    } else {
        let digits = rest.skip(1).take(digits_end(rest.skip(1), 0));
        match number(digits) {
            Some(n) => n,
            None => 0,
        }
    }
}

/// The zero-based index and the number of chunks that a text beginning with
/// `chunk N/M` names; the number is zero where the text does not tell it.
pub open spec fn chunk_position(detail: Seq<char>) -> Option<(int, int)> {
    match chunk_index(detail) {
        Some(index) => {
            let rest = detail.skip("chunk "@.len() as int);
            Some((index, total_behind(rest.skip(digits_end(rest, 0)))))
        },
        None => None,
    }
}

pub open spec fn position_view(r: Option<(usize, usize)>) -> Option<(int, int)> {
    match r {
        Some((index, total)) => Some((index as int, total as int)),
        None => None,
    }
}

/// Reads which chunk of how many a text names.
pub fn parse_chunk_position(detail: &str) -> (r: Option<(usize, usize)>)
    ensures
        position_view(r) == chunk_position(detail@),
        r matches Some((index, _)) ==> index < usize::MAX,
{
    let index: usize = match parse_chunk_index(detail) {
        Some(index) => index,
        None => {
            return None;
        },
    };
    let chars = chars_of(detail);
    let skipped: usize = chars_of("chunk ").len();
    let rest = string_of(&chars, skipped, chars.len());
    assert(rest@ =~= detail@.skip("chunk "@.len() as int));
    let rest = chars_of(&rest);
    let end: usize = scan_digits(&rest, 0);
    let tail = string_of(&rest, end, rest.len());
    assert(tail@ =~= rest@.skip(end as int));
    let tail = chars_of(&tail);
    if tail.len() == 0 || tail[0] != '/' {
        return Some((index, 0));
    }
    let behind = string_of(&tail, 1, tail.len());
    assert(behind@ =~= tail@.skip(1));
    let behind = chars_of(&behind);
    let stop: usize = scan_digits(&behind, 0);
    let digits = string_of(&behind, 0, stop);
    assert(digits@ =~= behind@.take(stop as int));
    match read_number(&chars_of(&digits)) {
        Some(n) => Some((index, n)),
        None => Some((index, 0)),
    }
}

/// The label that a chunk is given is read back as the same chunk of as many,
/// whatever follows it that is no digit.
pub proof fn law_chunk_labels_are_read_back(index: nat, count: nat, rest: Seq<char>)
    requires
        index < usize::MAX,
        count <= usize::MAX,
        rest.len() == 0 || !is_digit(rest[0]),
    ensures
        chunk_index(chunk_label_text(index as int, count as int) + rest) == Some(index as int),
        chunk_position(chunk_label_text(index as int, count as int) + rest) == Some(
            (index as int, count as int),
        ),
{
    reveal_strlit("chunk ");
    reveal_strlit("/");
    let detail = chunk_label_text(index as int, count as int) + rest;
    let first = decimal((index + 1) as nat);
    let behind = "/"@ + decimal(count) + rest;
    let numbers = detail.skip("chunk "@.len() as int);
    assert(starts_with(detail, "chunk "@)) by {
        assert(detail.take("chunk "@.len() as int) =~= "chunk "@);
        assert(occurs_at(detail, "chunk "@, 0)) by {
            assert(detail.subrange(0, "chunk "@.len() as int) =~= "chunk "@);
        }
    }
    assert(numbers =~= first + behind);
    assert(behind[0] == '/');
    lemma_numeral_ends((index + 1) as nat, behind, 0);
    assert(numbers.take(first.len() as int) =~= first);
    law_decimal_is_read_back((index + 1) as nat, usize::MAX as int);
    assert(numbers.skip(first.len() as int) =~= behind);
    assert(behind.skip(1) =~= decimal(count) + rest);
    lemma_numeral_ends(count, rest, 0);
    assert(behind.skip(1).take(decimal(count).len() as int) =~= decimal(count));
    law_decimal_is_read_back(count, usize::MAX as int);
}

/// The title of a chunk that begins: its label, and in brackets how long it is, where that
/// is told; any other text is its own title.
pub proof fn law_titles_tell_label_and_duration(
    label: Seq<char>,
    rest: Seq<char>,
    before: Seq<Seq<char>>,
    duration: Seq<char>,
    after: Seq<Seq<char>>,
    message: Seq<char>,
)
    requires
        forall|i: int|
            0 <= i < label.len() ==> !occurs_at(
                label + ": infer start "@ + rest,
                ": infer start "@,
                i,
            ),
        words(rest) == before + seq!["duration="@ + duration] + after,
        forall|i: int| 0 <= i < before.len() ==> !starts_with(#[trigger] before[i], "duration="@),
    ensures
        duration.len() > 0 ==> chunk_title(label + ": infer start "@ + rest) == label + " ("@
            + duration + ")"@,
        duration.len() == 0 ==> chunk_title(label + ": infer start "@ + rest) == label,
        (forall|i: int| !occurs_at(message, ": infer start "@, i)) ==> chunk_title(message)
            == message,
{
    let key = ": infer start "@;
    let all = label + key + rest;
    let at = label.len() as int;
    assert(all.subrange(at, at + key.len()) =~= key);
    assert(occurs_at(all, key, at));
    lemma_find_from(all, key, 0);
    assert(find(all, key) == Some(at));
    assert(all.take(at) =~= label);
    assert(all.skip(at + key.len()) =~= rest);
    lemma_first_with_prefix(before, "duration="@, duration, after, 0);
    lemma_find_from(message, key, 0);
}

proof fn lemma_first_with_prefix(
    before: Seq<Seq<char>>,
    prefix: Seq<char>,
    rest: Seq<char>,
    after: Seq<Seq<char>>,
    i: int,
)
    requires
        0 <= i <= before.len(),
        forall|k: int| 0 <= k < before.len() ==> !starts_with(#[trigger] before[k], prefix),
    ensures
        word_after(before + seq![prefix + rest] + after, prefix, i) == rest,
    decreases before.len() - i,
{
    let ws = before + seq![prefix + rest] + after;
    if i < before.len() {
        assert(ws[i] == before[i]);
        lemma_first_with_prefix(before, prefix, rest, after, i + 1);
    } else {
        let w = prefix + rest;
        assert(ws[i] == w);
        assert(w.subrange(0, prefix.len() as int) =~= prefix);
        assert(w.skip(prefix.len() as int) =~= rest);
    }
}

} // verus!
