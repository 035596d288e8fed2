//! What the command line shows of a run: a state that takes in events and says
//! what to print and what to change on the progress bars.
use std::collections::HashMap;

use vstd::prelude::*;
use vstd::string::*;

use crate::cli::{
    audio_bracket, chunk_index, chunk_status, count_before_chunk, format_chunk_status,
    law_chunk_counts_are_read_back, law_numbers_are_read_behind_their_key, number_behind,
    parse_audio_bracket, parse_chunk_count_from_message, parse_chunk_index, parse_kv_usize,
};
use crate::gui::events::law_chunk_labels_are_read_back;
use crate::notify::{
    detail_view, duration_text, format_duration, ChunkContext, CoreEvent, Elapsed, EventView,
    NotificationLevel,
};
use crate::paths::{display_path_name, path_label, text_view, FilePath};
use crate::service_chunks::chunk_label_text;
use crate::text::{
    byte_count, byte_len, chars_of, decimal, is_digit, push_decimal, push_repeated, repeated,
    same_text, split_words, stands_at, starts_with, string_of, words,
};

verus! {

/// How a piece of a line is styled.
#[derive(Debug, Clone, Copy, PartialEq, Eq, Structural)]
pub enum TextStyle {
    Plain,
    Label,
    Timing,
    Warn,
    Error,
    Dim,
    Completed,
}

/// A piece of a line in one style.
#[derive(Debug, Clone, PartialEq, Eq)]
pub struct Span<T> {
    pub style: TextStyle,
    pub text: T,
}

/// Where a new bar goes.
#[derive(Debug, Clone, Copy, PartialEq, Eq, Structural)]
pub enum BarPlace {
    /// Above the bar of this chunk.
    Before(usize),
    /// Below the bar of this chunk.
    After(usize),
    /// Below the root bar.
    AfterRoot,
}

/// One thing to do on the terminal, with texts of type `T` and lines of type `L`.
#[derive(Debug, Clone, PartialEq, Eq)]
pub enum Action<T, L> {
    /// Write a line to the log.
    Log { level: NotificationLevel, text: T },
    /// Print a line above the bars.
    Print(L),
    /// Put the bar of a chunk, in the pending style, at a place.
    AddBar { index: usize, place: BarPlace },
    /// Give the bar of a chunk the pending style.
    BarPending { index: usize },
    /// Give the bar of a chunk the style with steps, and set them.
    BarSteps { index: usize, current: usize, total: usize },
    BarMessage { index: usize, text: T },
    /// Finish and remove the bar of a chunk.
    ClearBar { index: usize },
    /// Finish and remove the bars of all chunks.
    ClearBars,
    RootPosition(usize),
    RootLength(usize),
    /// Count the elapsed time from now.
    RootRestart,
    /// Show position and length on the root bar.
    RootCounts,
    /// Redraw the root bar by itself, or stop doing so.
    RootTick(bool),
    RootMessage(T),
    /// Finish and remove the root bar.
    RootFinish,
}

pub type Line = Vec<Span<String>>;

pub type LineView = Seq<Span<Seq<char>>>;

pub type ActionView = Action<Seq<char>, LineView>;

pub open spec fn span_view(span: Span<String>) -> Span<Seq<char>> {
    Span { style: span.style, text: span.text@ }
}

pub open spec fn line_view(line: Seq<Span<String>>) -> LineView {
    line.map_values(|span: Span<String>| span_view(span))
}

pub open spec fn action_view(action: Action<String, Line>) -> ActionView {
    match action {
        Action::Log { level, text } => Action::Log { level, text: text@ },
        Action::Print(line) => Action::Print(line_view(line@)),
        Action::AddBar { index, place } => Action::AddBar { index, place },
        Action::BarPending { index } => Action::BarPending { index },
        Action::BarSteps { index, current, total } => Action::BarSteps { index, current, total },
        Action::BarMessage { index, text } => Action::BarMessage { index, text: text@ },
        Action::ClearBar { index } => Action::ClearBar { index },
        Action::ClearBars => Action::ClearBars,
        Action::RootPosition(n) => Action::RootPosition(n),
        Action::RootLength(n) => Action::RootLength(n),
        Action::RootRestart => Action::RootRestart,
        Action::RootCounts => Action::RootCounts,
        Action::RootTick(on) => Action::RootTick(on),
        Action::RootMessage(text) => Action::RootMessage(text@),
        Action::RootFinish => Action::RootFinish,
    }
}

pub open spec fn action_views(actions: Seq<Action<String, Line>>) -> Seq<ActionView> {
    actions.map_values(|action: Action<String, Line>| action_view(action))
}

// ---------------------------------------------------------------------------
// Lines
// ---------------------------------------------------------------------------
pub const STAGE_LINE_WIDTH: usize = 50;

pub open spec fn span(style: TextStyle, text: Seq<char>) -> Span<Seq<char>> {
    Span { style, text }
}

pub open spec fn plain_line(text: Seq<char>) -> LineView {
    seq![span(TextStyle::Plain, text)]
}

/// Two blanks, a word in a style, and the rest.
pub open spec fn marked_line(style: TextStyle, mark: Seq<char>, rest: Seq<char>) -> LineView {
    seq![span(TextStyle::Plain, "  "@), span(style, mark), span(TextStyle::Plain, rest)]
}

/// What stands in brackets behind a label; nothing for an empty text.
pub open spec fn bracketed(bracket: Seq<char>) -> Seq<char> {
    if bracket.len() == 0 {
        Seq::empty()
    } else {
        " ["@ + bracket + "]"@
    }
}

/// How many blanks bring the label and the time to the width of a stage line.
pub open spec fn stage_padding(label: Seq<char>, bracket: Seq<char>, time: Seq<char>) -> int {
    let used = byte_count("  "@ + label + bracketed(bracket)) + byte_count(time);
    if used < STAGE_LINE_WIDTH {
        STAGE_LINE_WIDTH - used
    } else {
        0
    }
}

/// The line about a stage: its label, a remark in brackets, and at the right the
/// time that it took.
pub open spec fn stage_line(label: Seq<char>, bracket: Seq<char>, elapsed: Elapsed) -> LineView {
    let time = duration_text(elapsed);
    seq![
        span(TextStyle::Plain, "  "@),
        span(TextStyle::Label, label),
        span(
            TextStyle::Plain,
            bracketed(bracket) + repeated(' ', stage_padding(label, bracket, time)),
        ),
        span(TextStyle::Timing, time),
    ]
}

pub(crate) fn push_span(line: &mut Line, style: TextStyle, text: &str)
    ensures
        line_view(final(line)@) == line_view(old(line)@).push(span(style, text@)),
{
    line.push(Span { style, text: String::from_str(text) });
    assert(line_view(line@) =~= line_view(old(line)@).push(span(style, text@)));
}

fn plain(text: &str) -> (line: Line)
    ensures
        line_view(line@) == plain_line(text@),
{
    let mut line: Line = Vec::new();
    assert(line_view(line@) =~= Seq::empty());
    push_span(&mut line, TextStyle::Plain, text);
    assert(line_view(line@) =~= plain_line(text@));
    line
}

fn marked(style: TextStyle, mark: &str, rest: &str) -> (line: Line)
    ensures
        line_view(line@) == marked_line(style, mark@, rest@),
{
    let mut line: Line = Vec::new();
    assert(line_view(line@) =~= Seq::empty());
    push_span(&mut line, TextStyle::Plain, "  ");
    push_span(&mut line, style, mark);
    push_span(&mut line, TextStyle::Plain, rest);
    assert(line_view(line@) =~= marked_line(style, mark@, rest@));
    line
}

/// Makes the line about a stage.
pub fn format_stage_line(label: &str, bracket: &str, elapsed: Elapsed) -> (line: Line)
    ensures
        line_view(line@) == stage_line(label@, bracket@, elapsed),
{
    let time = format_duration(elapsed);
    let mut behind = String::new();
    if !bracket.is_empty() {
        behind.append(" [");
        behind.append(bracket);
        behind.append("]");
    }
    assert(behind@ =~= bracketed(bracket@));
    let mut left = String::from_str("  ");
    left.append(label);
    left.append(&behind);
    let used: usize = byte_len(&left);
    let padding: usize = STAGE_LINE_WIDTH.saturating_sub(used).saturating_sub(byte_len(&time));
    assert(padding == stage_padding(label@, bracket@, time@));
    push_repeated(&mut behind, ' ', padding);
    let mut line: Line = Vec::new();
    assert(line_view(line@) =~= Seq::empty());
    push_span(&mut line, TextStyle::Plain, "  ");
    push_span(&mut line, TextStyle::Label, label);
    push_span(&mut line, TextStyle::Plain, &behind);
    push_span(&mut line, TextStyle::Timing, &time);
    assert(line_view(line@) =~= stage_line(label@, bracket@, elapsed));
    line
}

// ---------------------------------------------------------------------------
// The width of the terminal
// ---------------------------------------------------------------------------
/// The text that remains of `text` on a terminal of `width` columns.
pub uninterp spec fn truncated(text: Seq<char>, width: usize) -> Seq<char>;

/// `console::truncate_str` with an empty tail: `text` cut to `width` columns. What
/// it does with wide characters and with escape sequences is left to it.
#[verifier::external_body]
fn cut_to_width(text: &str, width: usize) -> (out: String)
    ensures
        out@ == truncated(text@, width),
{
    console::truncate_str(text, width, "").into_owned()
}

/// The columns to cut lines to; a terminal that tells none cuts nothing.
pub open spec fn usable_width(columns: u16) -> usize {
    if columns == 0 {
        usize::MAX
    } else {
        columns as usize
    }
}

/// Cuts a line to a terminal that has, as far as it tells, `columns` columns.
pub fn truncate(text: &str, columns: u16) -> (out: String)
    ensures
        out@ == truncated(text@, usable_width(columns)),
{
    let width: usize = if columns == 0 {
        usize::MAX
    } else {
        columns as usize
    };
    cut_to_width(text, width)
}

// ---------------------------------------------------------------------------
// The state
// ---------------------------------------------------------------------------
/// What the command line keeps of a run.
#[derive(Debug)]
pub struct RichNotifier {
    /// The label of each chunk at work.
    pub chunk_labels: HashMap<usize, String>,
    /// The chunks that have a bar, in ascending order.
    pub chunk_bars: Vec<usize>,
    pub total_chunks: Option<usize>,
    pub completed_chunks: usize,
    pub silence_chunk_count: Option<usize>,
    pub chunk_parallelism_on: bool,
    pub use_progress: bool,
    pub log_events: bool,
}

/// A [`RichNotifier`] with texts as character sequences.
pub ghost struct ProgressView {
    pub labels: Map<usize, Seq<char>>,
    pub bars: Seq<usize>,
    pub total: Option<usize>,
    pub completed: int,
    pub silence: Option<usize>,
    pub parallel: bool,
    pub use_progress: bool,
    pub log_events: bool,
}

pub open spec fn label_views(labels: Map<usize, String>) -> Map<usize, Seq<char>> {
    labels.map_values(|s: String| s@)
}

impl View for RichNotifier {
    type V = ProgressView;

    open spec fn view(&self) -> ProgressView {
        ProgressView {
            labels: label_views(self.chunk_labels@),
            bars: self.chunk_bars@,
            total: self.total_chunks,
            completed: self.completed_chunks as int,
            silence: self.silence_chunk_count,
            parallel: self.chunk_parallelism_on,
            use_progress: self.use_progress,
            log_events: self.log_events,
        }
    }
}

pub open spec fn ascending(bars: Seq<usize>) -> bool {
    forall|i: int, j: int| 0 <= i < j < bars.len() ==> bars[i] < bars[j]
}

/// The first place at or after `i` of a bar that belongs to no chunk before `index`.
pub open spec fn place_from(bars: Seq<usize>, index: usize, i: int) -> int
    decreases bars.len() - i,
{
    if i < 0 || i >= bars.len() || bars[i] >= index {
        i
    } else {
        place_from(bars, index, i + 1)
    }
}

/// How many of the bars, which are in ascending order, belong to chunks before
/// `index`.
pub open spec fn bars_before(bars: Seq<usize>, index: usize) -> int {
    place_from(bars, index, 0)
}

pub open spec fn has_bar(bars: Seq<usize>, index: usize) -> bool {
    bars.contains(index)
}

/// The place that keeps the bars in the order of their chunks.
pub open spec fn bar_place(bars: Seq<usize>, index: usize) -> BarPlace {
    let n = bars_before(bars, index);
    if n < bars.len() {
        BarPlace::Before(bars[n])
    } else if n > 0 {
        BarPlace::After(bars[n - 1])
    } else {
        BarPlace::AfterRoot
    }
}

pub open spec fn bars_with(bars: Seq<usize>, index: usize) -> Seq<usize> {
    if has_bar(bars, index) {
        bars
    } else {
        bars.insert(bars_before(bars, index), index)
    }
}

pub open spec fn bars_without(bars: Seq<usize>, index: usize) -> Seq<usize> {
    if has_bar(bars, index) {
        bars.remove(bars_before(bars, index))
    } else {
        bars
    }
}

/// What has to be done for a chunk to have a bar.
pub open spec fn bar_actions(bars: Seq<usize>, index: usize) -> Seq<ActionView> {
    if has_bar(bars, index) {
        Seq::empty()
    } else {
        seq![Action::AddBar { index, place: bar_place(bars, index) }]
    }
}

pub open spec fn processing_text(parallel: bool) -> Seq<char> {
    if parallel {
        "Processing chunks in parallel..."@
    } else {
        "Processing chunks..."@
    }
}

// ---------------------------------------------------------------------------
// Log lines
// ---------------------------------------------------------------------------
pub open spec fn in_parentheses(detail: Option<Seq<char>>) -> Seq<char> {
    match detail {
        Some(text) => " ("@ + text + ")"@,
        None => Seq::empty(),
    }
}

pub open spec fn behind_blank(detail: Option<Seq<char>>) -> Seq<char> {
    match detail {
        Some(text) => " "@ + text,
        None => Seq::empty(),
    }
}

/// The line of the log about an event.
pub open spec fn log_line(event: EventView) -> Option<(NotificationLevel, Seq<char>)> {
    match event {
        EventView::ChunkPlan { total } => None,
        EventView::Status { stage, message, chunk } => Some(
            (NotificationLevel::Info, "["@ + stage + "] "@ + message),
        ),
        EventView::Progress { stage, current, total, detail, chunk } => Some(
            (
                NotificationLevel::Info,
                "["@ + stage + "] progress "@ + decimal(current as nat) + "/"@ + decimal(
                    total as nat,
                ) + in_parentheses(detail),
            ),
        ),
        EventView::Timing { stage, elapsed, detail, chunk } => Some(
            (
                NotificationLevel::Info,
                "["@ + stage + "] timing "@ + duration_text(elapsed) + behind_blank(detail),
            ),
        ),
        EventView::ModelLoaded { backend, elapsed } => Some(
            (
                NotificationLevel::Info,
                "model loaded on "@ + backend + " backend in "@ + duration_text(elapsed),
            ),
        ),
        EventView::Message { level, message } => Some((level, message)),
    }
}

pub open spec fn log_view(line: Option<(NotificationLevel, String)>) -> Option<
    (NotificationLevel, Seq<char>),
> {
    match line {
        Some((level, text)) => Some((level, text@)),
        None => None,
    }
}

fn append_in_parentheses(text: &mut String, detail: &Option<String>)
    ensures
        final(text)@ == old(text)@ + in_parentheses(detail_view(*detail)),
{
    match detail {
        Some(d) => {
            text.append(" (");
            text.append(d);
            text.append(")");
            assert(text@ =~= old(text)@ + in_parentheses(Some(d@)));
        },
        None => {
            assert(text@ =~= old(text)@ + in_parentheses(None));
        },
    }
}

fn append_behind_blank(text: &mut String, detail: &Option<String>)
    ensures
        final(text)@ == old(text)@ + behind_blank(detail_view(*detail)),
{
    match detail {
        Some(d) => {
            text.append(" ");
            text.append(d);
            assert(text@ =~= old(text)@ + behind_blank(Some(d@)));
        },
        None => {
            assert(text@ =~= old(text)@ + behind_blank(None));
        },
    }
}

/// Makes the line of the log about an event.
pub fn log_event(event: &CoreEvent) -> (line: Option<(NotificationLevel, String)>)
    ensures
        log_view(line) == log_line(event@),
{
    match event {
        CoreEvent::ChunkPlan { .. } => None,
        CoreEvent::Status { stage, message, .. } => {
            let mut text = String::from_str("[");
            text.append(stage);
            text.append("] ");
            text.append(message);
            Some((NotificationLevel::Info, text))
        },
        CoreEvent::Progress { stage, current, total, detail, .. } => {
            let mut text = String::from_str("[");
            text.append(stage);
            text.append("] progress ");
            push_decimal(&mut text, *current as u64);
            text.append("/");
            push_decimal(&mut text, *total as u64);
            append_in_parentheses(&mut text, detail);
            Some((NotificationLevel::Info, text))
        },
        CoreEvent::Timing { stage, elapsed, detail, .. } => {
            let mut text = String::from_str("[");
            text.append(stage);
            text.append("] timing ");
            text.append(&format_duration(*elapsed));
            append_behind_blank(&mut text, detail);
            Some((NotificationLevel::Info, text))
        },
        CoreEvent::ModelLoaded { backend, elapsed } => {
            let mut text = String::from_str("model loaded on ");
            text.append(backend);
            text.append(" backend in ");
            text.append(&format_duration(*elapsed));
            Some((NotificationLevel::Info, text))
        },
        CoreEvent::Message { level, message } => Some((*level, String::from_str(message))),
    }
}

// ---------------------------------------------------------------------------
// Reactions
// ---------------------------------------------------------------------------
pub open spec fn index_or_zero(detail: Option<Seq<char>>) -> usize {
    match detail {
        Some(text) => match chunk_index(text) {
            Some(n) => n as usize,
            None => 0,
        },
        None => 0,
    }
}

/// What a status does: it begins the chunks, or says which chunk is at work.
pub open spec fn status_reaction(s: ProgressView, stage: Seq<char>, message: Seq<char>) -> (
    ProgressView,
    Seq<ActionView>,
) {
    if stage == "extract_infer"@ {
        match count_before_chunk(words(message), 0) {
            Some(count) => (
                ProgressView {
                    labels: Map::empty(),
                    bars: Seq::empty(),
                    total: Some(count as usize),
                    completed: 0,
                    ..s
                },
                seq![
                    Action::ClearBars,
                    Action::RootPosition(0),
                    Action::RootLength(count as usize),
                    Action::RootRestart,
                    Action::RootCounts,
                    Action::RootTick(true),
                    Action::RootMessage(processing_text(s.parallel)),
                ],
            ),
            None => (s, Seq::empty()),
        }
    } else if stage == "chunk_infer"@ {
        let label = chunk_status(message);
        let index = index_or_zero(Some(message));
        if s.use_progress {
            (
                ProgressView {
                    labels: s.labels.insert(index, label),
                    bars: bars_with(s.bars, index),
                    ..s
                },
                bar_actions(s.bars, index) + seq![
                    Action::BarPending { index },
                    Action::BarMessage { index, text: label },
                    Action::RootMessage(processing_text(s.parallel)),
                ],
            )
        } else {
            (
                ProgressView { labels: s.labels.insert(index, label), ..s },
                seq![Action::Print(marked_line(TextStyle::Label, "Processing"@, " "@ + label))],
            )
        }
    } else {
        (s, Seq::empty())
    }
}

/// The label of a chunk: the one of its last status, or its number.
pub open spec fn label_of(labels: Map<usize, Seq<char>>, index: usize) -> Seq<char> {
    if labels.contains_key(index) {
        labels[index]
    } else {
        "chunk "@ + decimal((index + 1) as nat)
    }
}

/// What a step of a chunk does.
pub open spec fn progress_reaction(
    s: ProgressView,
    stage: Seq<char>,
    current: usize,
    total: usize,
    detail: Option<Seq<char>>,
) -> (ProgressView, Seq<ActionView>) {
    if stage == "d3pm_step"@ && s.use_progress {
        let index = index_or_zero(detail);
        (
            ProgressView { bars: bars_with(s.bars, index), ..s },
            bar_actions(s.bars, index) + seq![
                Action::BarSteps { index, current, total },
                Action::BarMessage { index, text: label_of(s.labels, index) },
                Action::RootMessage(processing_text(s.parallel)),
            ],
        )
    } else {
        (s, Seq::empty())
    }
}

/// The number behind a key in a detail.
pub open spec fn detail_number(detail: Option<Seq<char>>, key: Seq<char>) -> Option<int> {
    match detail {
        Some(text) => number_behind(text, key),
        None => None,
    }
}

pub open spec fn chunk_count_text(count: Option<int>) -> Seq<char> {
    match count {
        Some(n) => if n != 1 {
            decimal(n as nat) + " chunk"@ + "s"@
        } else {
            decimal(n as nat) + " chunk"@
        },
        None => Seq::empty(),
    }
}

pub open spec fn frame_count_text(count: Option<int>) -> Seq<char> {
    match count {
        Some(n) => decimal(n as nat) + " frames"@,
        None => Seq::empty(),
    }
}

/// The path that the detail of a written output names.
pub open spec fn written_path(detail: Option<Seq<char>>) -> Seq<char> {
    match detail {
        Some(text) => if starts_with(text, "path="@) {
            let rest = text.skip("path="@.len() as int);
            if words(rest).len() > 0 {
                words(rest)[0]
            } else {
                rest
            }
        } else {
            "output"@
        },
        None => "output"@,
    }
}

/// The path of the file that an event tells was written.
pub open spec fn written_by(event: EventView) -> Option<Seq<char>> {
    match event {
        EventView::Timing { stage, elapsed, detail, chunk } => if stage == "output_write"@ {
            Some(written_path(detail))
        } else {
            None
        },
        _ => None,
    }
}

pub open spec fn text_of(path: Option<&FilePath>) -> Option<Seq<char>> {
    match path {
        Some(p) => Some(p.text@),
        None => None,
    }
}

/// How a file is called, where there is one.
pub open spec fn file_label(path: Option<&FilePath>) -> Option<Seq<char>> {
    match path {
        Some(p) => Some(path_label(p@)),
        None => None,
    }
}

/// What the end of a chunk does.
pub open spec fn chunk_done_reaction(s: ProgressView, detail: Option<Seq<char>>) -> (
    ProgressView,
    Seq<ActionView>,
) {
    let index = index_or_zero(detail);
    let cleared: Seq<ActionView> = if has_bar(s.bars, index) {
        seq![Action::ClearBar { index }]
    } else {
        Seq::empty()
    };
    let moved: Seq<ActionView> = if s.use_progress {
        seq![
            Action::RootPosition((s.completed + 1) as usize),
            Action::RootMessage(processing_text(s.parallel)),
        ]
    } else {
        Seq::empty()
    };
    (
        ProgressView {
            labels: s.labels.remove(index),
            bars: bars_without(s.bars, index),
            completed: s.completed + 1,
            ..s
        },
        cleared + moved,
    )
}

/// What the time of a stage does.
pub open spec fn timing_reaction(
    s: ProgressView,
    written: Option<Seq<char>>,
    stage: Seq<char>,
    elapsed: Elapsed,
    detail: Option<Seq<char>>,
) -> (ProgressView, Seq<ActionView>) {
    if stage == "audio_prepare"@ {
        let bracket = match detail {
            Some(text) => audio_bracket(text),
            None => Seq::empty(),
        };
        (s, seq![Action::Print(stage_line("audio prepared"@, bracket, elapsed))])
    } else if stage == "silence_slice"@ {
        let count = detail_number(detail, "chunks="@);
        let next = match count {
            Some(n) => ProgressView { silence: Some(n as usize), ..s },
            None => s,
        };
        (
            next,
            seq![
                Action::Print(stage_line("sliced on silence"@, chunk_count_text(count), elapsed)),
            ],
        )
    } else if stage == "long_chunk_split"@ {
        match (s.silence, detail_number(detail, "chunks="@)) {
            (Some(before), Some(after)) => if before as int != after {
                (
                    s,
                    seq![
                        Action::Print(
                            stage_line(
                                "split long chunks"@,
                                decimal(before as nat) + " -> "@ + decimal(after as nat),
                                elapsed,
                            ),
                        ),
                    ],
                )
            } else {
                (s, Seq::empty())
            },
            _ => (s, Seq::empty()),
        }
    } else if stage == "mel_setup"@ {
        let count = detail_number(detail, "frames="@);
        (s, seq![Action::Print(stage_line("mel setup"@, frame_count_text(count), elapsed))])
    } else if stage == "infer_total"@ {
        chunk_done_reaction(s, detail)
    } else if stage == "extract_infer"@ {
        let shown: Seq<ActionView> = if s.use_progress {
            seq![
                Action::ClearBars,
                Action::RootTick(false),
                Action::RootMessage(""@),
                Action::RootFinish,
            ]
        } else {
            seq![Action::ClearBars, Action::Print(plain_line(""@))]
        };
        (ProgressView { labels: Map::empty(), bars: Seq::empty(), ..s }, shown)
    } else if stage == "output_write"@ {
        let name = match written {
            Some(name) => name,
            None => written_path(detail),
        };
        if s.use_progress {
            (s, seq![Action::RootMessage("Wrote "@ + name)])
        } else {
            (s, seq![Action::Print(stage_line("wrote "@ + name, Seq::empty(), elapsed))])
        }
    } else {
        (s, Seq::empty())
    }
}

pub open spec fn message_reaction(level: NotificationLevel, message: Seq<char>) -> Seq<ActionView> {
    match level {
        NotificationLevel::Warn => seq![
            Action::Print(marked_line(TextStyle::Warn, "warning:"@, " "@ + message)),
        ],
        NotificationLevel::Error => seq![
            Action::Print(marked_line(TextStyle::Error, "error:"@, " "@ + message)),
        ],
        NotificationLevel::Info => seq![
            Action::Print(marked_line(TextStyle::Dim, message, Seq::empty())),
        ],
        _ => Seq::empty(),
    }
}

/// What an event changes, and what is shown of it.
pub open spec fn shown_reaction(s: ProgressView, event: EventView, written: Option<Seq<char>>) -> (
    ProgressView,
    Seq<ActionView>,
) {
    match event {
        EventView::ChunkPlan { total } => (s, Seq::empty()),
        EventView::ModelLoaded { backend, elapsed } => (
            s,
            seq![Action::Print(stage_line("model loaded"@, backend, elapsed))],
        ),
        EventView::Status { stage, message, chunk } => status_reaction(s, stage, message),
        EventView::Progress { stage, current, total, detail, chunk } => progress_reaction(
            s,
            stage,
            current as usize,
            total as usize,
            detail,
        ),
        EventView::Timing { stage, elapsed, detail, chunk } => timing_reaction(
            s,
            written,
            stage,
            elapsed,
            detail,
        ),
        EventView::Message { level, message } => (s, message_reaction(level, message)),
    }
}

/// What is done at the end of a run.
pub open spec fn finish_actions() -> Seq<ActionView> {
    seq![Action::RootMessage(""@), Action::RootFinish, Action::ClearBars]
}

/// What goes to the log about an event.
pub open spec fn logged(s: ProgressView, event: EventView) -> Seq<ActionView> {
    match log_line(event) {
        Some((level, text)) => if s.log_events {
            seq![Action::Log { level, text }]
        } else {
            Seq::empty()
        },
        None => Seq::empty(),
    }
}

// ---------------------------------------------------------------------------
// Bars
// ---------------------------------------------------------------------------
proof fn lemma_place(bars: Seq<usize>, index: usize, i: int)
    requires
        0 <= i <= bars.len(),
    ensures
        i <= place_from(bars, index, i) <= bars.len(),
        forall|j: int| i <= j < place_from(bars, index, i) ==> bars[j] < index,
        place_from(bars, index, i) < bars.len() ==> bars[place_from(bars, index, i)] >= index,
    decreases bars.len() - i,
{
    if i < bars.len() && bars[i] < index {
        lemma_place(bars, index, i + 1);
    }
}

proof fn lemma_has_bar(bars: Seq<usize>, index: usize)
    requires
        ascending(bars),
    ensures
        has_bar(bars, index) <==> bars_before(bars, index) < bars.len() && bars[bars_before(
            bars,
            index,
        )] == index,
{
    let n = bars_before(bars, index);
    lemma_place(bars, index, 0);
    if has_bar(bars, index) {
        let k = choose|k: int| 0 <= k < bars.len() && bars[k] == index;
        assert(k >= n);
        if k > n {
            assert(bars[n] < bars[k]);
        }
    }
}

proof fn lemma_bars_stay_ascending(bars: Seq<usize>, index: usize)
    requires
        ascending(bars),
    ensures
        ascending(bars_with(bars, index)),
        ascending(bars_without(bars, index)),
{
    lemma_has_bar(bars, index);
    lemma_place(bars, index, 0);
    let n = bars_before(bars, index);
    if !has_bar(bars, index) {
        let more = bars.insert(n, index);
        assert forall|i: int, j: int| 0 <= i < j < more.len() implies more[i] < more[j] by {
            if i < n && j > n {
                assert(bars[i] < index);
            }
            if i == n {
                assert(more[j] == bars[j - 1]);
                if n < j - 1 {
                    assert(bars[n] < bars[j - 1]);
                }
            }
        }
    }
}

fn place_of(bars: &Vec<usize>, index: usize) -> (n: usize)
    ensures
        n == bars_before(bars@, index),
        n <= bars.len(),
{
    let mut n: usize = 0;
    while n < bars.len() && bars[n] < index
        invariant
            n <= bars.len(),
            bars_before(bars@, index) == place_from(bars@, index, n as int),
        decreases bars.len() - n,
    {
        n += 1;
    }
    n
}

fn push_action(actions: &mut Vec<Action<String, Line>>, action: Action<String, Line>)
    ensures
        action_views(final(actions)@) == action_views(old(actions)@).push(action_view(action)),
{
    actions.push(action);
    assert(action_views(actions@) =~= action_views(old(actions)@).push(action_view(action)));
}

fn read_index(detail: &Option<String>) -> (index: usize)
    ensures
        index == index_or_zero(detail_view(*detail)),
        index < usize::MAX,
{
    match detail {
        Some(text) => match parse_chunk_index(text) {
            Some(n) => n,
            None => 0,
        },
        None => 0,
    }
}

fn read_detail(detail: &Option<String>, key: &str) -> (r: Option<usize>)
    ensures
        crate::cli::as_number(r) == detail_number(detail_view(*detail), key@),
{
    match detail {
        Some(text) => parse_kv_usize(text, key),
        None => None,
    }
}

/// Finds the path of the file that an event tells was written.
pub fn written_file(event: &CoreEvent) -> (path: Option<String>)
    ensures
        text_view(path) == written_by(event@),
{
    match event {
        CoreEvent::Timing { stage, detail, .. } => if same_text(stage, "output_write") {
            Some(read_written_path(detail))
        } else {
            None
        },
        _ => None,
    }
}

fn read_written_path(detail: &Option<String>) -> (path: String)
    ensures
        path@ == written_path(detail_view(*detail)),
{
    match detail {
        Some(text) => {
            let chars = chars_of(text);
            let prefix = chars_of("path=");
            if stands_at(&chars, &prefix, 0) {
                let rest = string_of(&chars, prefix.len(), chars.len());
                assert(rest@ =~= text@.skip("path="@.len() as int));
                let parts = split_words(&rest);
                assert(parts.len() == words(rest@).len());
                if parts.len() > 0 {
                    assert(words(rest@)[0] == parts@[0]@);
                    String::from_str(&parts[0])
                } else {
                    rest
                }
            } else {
                String::from_str("output")
            }
        },
        None => String::from_str("output"),
    }
}

// ---------------------------------------------------------------------------
// The notifier
// ---------------------------------------------------------------------------
impl RichNotifier {
    /// The bars are in the order of their chunks.
    pub open spec fn well_formed(&self) -> bool {
        ascending(self.chunk_bars@)
    }

    /// A notifier that has seen nothing yet.
    pub fn new(use_progress: bool, log_requested: bool) -> (n: Self)
        ensures
            n.well_formed(),
            n@ == (ProgressView {
                labels: Map::empty(),
                bars: Seq::empty(),
                total: None,
                completed: 0,
                silence: None,
                parallel: false,
                use_progress,
                log_events: !use_progress && log_requested,
            }),
    {
        let n = RichNotifier {
            chunk_labels: HashMap::new(),
            chunk_bars: Vec::new(),
            total_chunks: None,
            completed_chunks: 0,
            silence_chunk_count: None,
            chunk_parallelism_on: false,
            use_progress,
            log_events: !use_progress && log_requested,
        };
        assert(n@.labels =~= Map::empty());
        assert(n@.bars =~= Seq::empty());
        n
    }

    /// Begins a run; without bars the line that announces it is to be printed.
    pub fn start(&mut self, parallel: bool, input: &str, output: &str) -> (actions: Vec<
        Action<String, Line>,
    >)
        requires
            old(self).well_formed(),
        ensures
            final(self).well_formed(),
            final(self)@ == (ProgressView { parallel, ..old(self)@ }),
            action_views(actions@) == if old(self).use_progress {
                Seq::<ActionView>::empty()
            } else {
                seq![Action::Print(plain_line("Extract "@ + input@ + " -> "@ + output@))]
            },
    {
        self.chunk_parallelism_on = parallel;
        let mut actions: Vec<Action<String, Line>> = Vec::new();
        if !self.use_progress {
            let mut text = String::from_str("Extract ");
            text.append(input);
            text.append(" -> ");
            text.append(output);
            actions.push(Action::Print(plain(&text)));
            assert(action_views(actions@) =~= seq![
                Action::Print(plain_line("Extract "@ + input@ + " -> "@ + output@)),
            ]);
        } else {
            assert(action_views(actions@) =~= Seq::<ActionView>::empty());
        }
        actions
    }

    /// Ends a run: all bars go.
    pub fn finish(&mut self) -> (actions: Vec<Action<String, Line>>)
        ensures
            final(self).well_formed(),
            final(self)@ == (ProgressView {
                labels: Map::empty(),
                bars: Seq::empty(),
                ..old(self)@
            }),
            action_views(actions@) == finish_actions(),
    {
        self.clear_chunks();
        let mut actions: Vec<Action<String, Line>> = Vec::new();
        actions.push(Action::RootMessage(String::from_str("")));
        actions.push(Action::RootFinish);
        actions.push(Action::ClearBars);
        assert(action_views(actions@) =~= finish_actions());
        actions
    }

    fn clear_chunks(&mut self)
        ensures
            final(self).well_formed(),
            final(self)@ == (ProgressView {
                labels: Map::empty(),
                bars: Seq::empty(),
                ..old(self)@
            }),
    {
        self.chunk_labels.clear();
        self.chunk_bars = Vec::new();
        assert(self@.labels =~= Map::empty());
        assert(self@.bars =~= Seq::empty());
    }

    fn processing_message(&self) -> (text: String)
        ensures
            text@ == processing_text(self@.parallel),
    {
        if self.chunk_parallelism_on {
            String::from_str("Processing chunks in parallel...")
        } else {
            String::from_str("Processing chunks...")
        }
    }

    /// Sees to it that a chunk has a bar.
    fn ensure_chunk_bar(&mut self, index: usize, actions: &mut Vec<Action<String, Line>>)
        requires
            old(self).well_formed(),
        ensures
            final(self).well_formed(),
            final(self)@ == (ProgressView { bars: bars_with(old(self)@.bars, index), ..old(self)@ }),
            action_views(final(actions)@) == action_views(old(actions)@) + bar_actions(
                old(self)@.bars,
                index,
            ),
    {
        let n: usize = place_of(&self.chunk_bars, index);
        proof {
            lemma_has_bar(self.chunk_bars@, index);
            lemma_bars_stay_ascending(self.chunk_bars@, index);
        }
        if n < self.chunk_bars.len() && self.chunk_bars[n] == index {
            assert(action_views(actions@) =~= action_views(old(actions)@) + bar_actions(
                old(self)@.bars,
                index,
            ));
            return;
        }
        let place = if n < self.chunk_bars.len() {
            BarPlace::Before(self.chunk_bars[n])
        } else if n > 0 {
            BarPlace::After(self.chunk_bars[n - 1])
        } else {
            BarPlace::AfterRoot
        };
        self.chunk_bars.insert(n, index);
        actions.push(Action::AddBar { index, place });
        assert(action_views(actions@) =~= action_views(old(actions)@) + bar_actions(
            old(self)@.bars,
            index,
        ));
    }

    fn on_status(
        &mut self,
        stage: &str,
        message: &String,
        actions: &mut Vec<Action<String, Line>>,
    )
        requires
            old(self).well_formed(),
        ensures
            final(self).well_formed(),
            final(self)@ == status_reaction(old(self)@, stage@, message@).0,
            action_views(final(actions)@) == action_views(old(actions)@) + status_reaction(
                old(self)@,
                stage@,
                message@,
            ).1,
    {
        broadcast use vstd::std_specs::hash::group_hash_axioms;

        if same_text(stage, "extract_infer") {
            if let Some(count) = parse_chunk_count_from_message(message) {
                self.clear_chunks();
                self.total_chunks = Some(count);
                self.completed_chunks = 0;
                push_action(actions, Action::ClearBars);
                push_action(actions, Action::RootPosition(0));
                push_action(actions, Action::RootLength(count));
                push_action(actions, Action::RootRestart);
                push_action(actions, Action::RootCounts);
                push_action(actions, Action::RootTick(true));
                push_action(actions, Action::RootMessage(self.processing_message()));
            }
        } else if same_text(stage, "chunk_infer") {
            let label = format_chunk_status(message);
            let index: usize = match parse_chunk_index(message) {
                Some(n) => n,
                None => 0,
            };
            self.chunk_labels.insert(index, String::from_str(&label));
            assert(self@.labels =~= old(self)@.labels.insert(index, label@));
            if self.use_progress {
                self.ensure_chunk_bar(index, actions);
                push_action(actions, Action::BarPending { index });
                push_action(actions, Action::BarMessage { index, text: label });
                push_action(actions, Action::RootMessage(self.processing_message()));
                assert(action_views(actions@) =~= action_views(old(actions)@) + status_reaction(
                    old(self)@,
                    stage@,
                    message@,
                ).1);
            } else {
                let mut rest = String::from_str(" ");
                rest.append(&label);
                push_action(actions, Action::Print(marked(TextStyle::Label, "Processing", &rest)));
            }
        }
        assert(action_views(actions@) =~= action_views(old(actions)@) + status_reaction(
            old(self)@,
            stage@,
            message@,
        ).1);
    }

    fn on_progress(
        &mut self,
        stage: &str,
        current: usize,
        total: usize,
        detail: &Option<String>,
        actions: &mut Vec<Action<String, Line>>,
    )
        requires
            old(self).well_formed(),
        ensures
            final(self).well_formed(),
            final(self)@ == progress_reaction(
                old(self)@,
                stage@,
                current,
                total,
                detail_view(*detail),
            ).0,
            action_views(final(actions)@) == action_views(old(actions)@) + progress_reaction(
                old(self)@,
                stage@,
                current,
                total,
                detail_view(*detail),
            ).1,
    {
        broadcast use vstd::std_specs::hash::group_hash_axioms;

        if same_text(stage, "d3pm_step") && self.use_progress {
            let index: usize = read_index(detail);
            let label: String = match self.chunk_labels.get(&index) {
                Some(label) => String::from_str(label),
                None => {
                    let mut text = String::from_str("chunk ");
                    push_decimal(&mut text, (index + 1) as u64);
                    text
                },
            };
            assert(label@ == label_of(self@.labels, index));
            self.ensure_chunk_bar(index, actions);
            push_action(actions, Action::BarSteps { index, current, total });
            push_action(actions, Action::BarMessage { index, text: label });
            push_action(actions, Action::RootMessage(self.processing_message()));
        }
        assert(action_views(actions@) =~= action_views(old(actions)@) + progress_reaction(
            old(self)@,
            stage@,
            current,
            total,
            detail_view(*detail),
        ).1);
    }

    fn on_chunk_done(&mut self, detail: &Option<String>, actions: &mut Vec<Action<String, Line>>)
        requires
            old(self).well_formed(),
            old(self).completed_chunks < usize::MAX,
        ensures
            final(self).well_formed(),
            final(self)@ == chunk_done_reaction(old(self)@, detail_view(*detail)).0,
            action_views(final(actions)@) == action_views(old(actions)@) + chunk_done_reaction(
                old(self)@,
                detail_view(*detail),
            ).1,
    {
        broadcast use vstd::std_specs::hash::group_hash_axioms;

        let index: usize = read_index(detail);
        self.chunk_labels.remove(&index);
        assert(self@.labels =~= old(self)@.labels.remove(index));
        let n: usize = place_of(&self.chunk_bars, index);
        proof {
            lemma_has_bar(self.chunk_bars@, index);
            lemma_bars_stay_ascending(self.chunk_bars@, index);
        }
        if n < self.chunk_bars.len() && self.chunk_bars[n] == index {
            let _ = self.chunk_bars.remove(n);
            push_action(actions, Action::ClearBar { index });
        }
        self.completed_chunks = self.completed_chunks + 1;
        if self.use_progress {
            push_action(actions, Action::RootPosition(self.completed_chunks));
            push_action(actions, Action::RootMessage(self.processing_message()));
        }
        assert(action_views(actions@) =~= action_views(old(actions)@) + chunk_done_reaction(
            old(self)@,
            detail_view(*detail),
        ).1);
    }

    fn on_timing(
        &mut self,
        written: Option<&FilePath>,
        stage: &str,
        elapsed: Elapsed,
        detail: &Option<String>,
        actions: &mut Vec<Action<String, Line>>,
    )
        requires
            old(self).well_formed(),
            old(self).completed_chunks < usize::MAX,
        ensures
            final(self).well_formed(),
            final(self)@ == timing_reaction(
                old(self)@,
                file_label(written),
                stage@,
                elapsed,
                detail_view(*detail),
            ).0,
            action_views(final(actions)@) == action_views(old(actions)@) + timing_reaction(
                old(self)@,
                file_label(written),
                stage@,
                elapsed,
                detail_view(*detail),
            ).1,
    {
        if same_text(stage, "audio_prepare") {
            let bracket = match detail {
                Some(text) => parse_audio_bracket(text),
                None => String::new(),
            };
            assert(detail is None ==> bracket@ =~= Seq::empty());
            push_action(
                actions,
                Action::Print(format_stage_line("audio prepared", &bracket, elapsed)),
            );
        } else if same_text(stage, "silence_slice") {
            let mut bracket = String::new();
            assert(bracket@ =~= Seq::empty());
            let count = read_detail(detail, "chunks=");
            if let Some(n) = count {
                self.silence_chunk_count = Some(n);
                bracket = crate::text::decimal_string(n as u64);
                bracket.append(" chunk");
                if n != 1 {
                    bracket.append("s");
                }
            }
            assert(bracket@ == chunk_count_text(crate::cli::as_number(count)));
            push_action(
                actions,
                Action::Print(format_stage_line("sliced on silence", &bracket, elapsed)),
            );
        } else if same_text(stage, "long_chunk_split") {
            let after = read_detail(detail, "chunks=");
            if let (Some(before), Some(after)) = (self.silence_chunk_count, after) {
                if before != after {
                    let mut bracket = crate::text::decimal_string(before as u64);
                    bracket.append(" -> ");
                    push_decimal(&mut bracket, after as u64);
                    push_action(
                        actions,
                        Action::Print(format_stage_line("split long chunks", &bracket, elapsed)),
                    );
                }
            }
        } else if same_text(stage, "mel_setup") {
            let mut bracket = String::new();
            assert(bracket@ =~= Seq::empty());
            let count = read_detail(detail, "frames=");
            if let Some(n) = count {
                bracket = crate::text::decimal_string(n as u64);
                bracket.append(" frames");
            }
            assert(bracket@ == frame_count_text(crate::cli::as_number(count)));
            push_action(actions, Action::Print(format_stage_line("mel setup", &bracket, elapsed)));
        } else if same_text(stage, "infer_total") {
            self.on_chunk_done(detail, actions);
        } else if same_text(stage, "extract_infer") {
            self.clear_chunks();
            push_action(actions, Action::ClearBars);
            if self.use_progress {
                push_action(actions, Action::RootTick(false));
                push_action(actions, Action::RootMessage(String::from_str("")));
                push_action(actions, Action::RootFinish);
            } else {
                push_action(actions, Action::Print(plain("")));
            }
        } else if same_text(stage, "output_write") {
            let name = match written {
                Some(path) => display_path_name(path),
                None => read_written_path(detail),
            };
            if self.use_progress {
                let mut text = String::from_str("Wrote ");
                text.append(&name);
                push_action(actions, Action::RootMessage(text));
            } else {
                let mut text = String::from_str("wrote ");
                text.append(&name);
                let none = String::new();
                assert(none@ =~= Seq::empty());
                push_action(actions, Action::Print(format_stage_line(&text, &none, elapsed)));
            }
        }
        assert(action_views(actions@) =~= action_views(old(actions)@) + timing_reaction(
            old(self)@,
            file_label(written),
            stage@,
            elapsed,
            detail_view(*detail),
        ).1);
    }

    fn on_message(
        &self,
        level: NotificationLevel,
        message: &String,
        actions: &mut Vec<Action<String, Line>>,
    )
        ensures
            action_views(final(actions)@) == action_views(old(actions)@) + message_reaction(
                level,
                message@,
            ),
    {
        let mut rest = String::from_str(" ");
        rest.append(message);
        match level {
            NotificationLevel::Warn => {
                push_action(actions, Action::Print(marked(TextStyle::Warn, "warning:", &rest)));
            },
            NotificationLevel::Error => {
                push_action(actions, Action::Print(marked(TextStyle::Error, "error:", &rest)));
            },
            NotificationLevel::Info => {
                let none = String::new();
                assert(none@ =~= Seq::empty());
                push_action(actions, Action::Print(marked(TextStyle::Dim, message, &none)));
            },
            _ => {},
        }
        assert(action_views(actions@) =~= action_views(old(actions)@) + message_reaction(
            level,
            message@,
        ));
    }

    /// Takes in an event and says what to do about it on the terminal.
    /// `written` is the file that was written, where the event tells of one: it is
    /// called by its name.
    pub fn notify(&mut self, event: &CoreEvent, written: Option<&FilePath>) -> (actions: Vec<
        Action<String, Line>,
    >)
        requires
            written_by(event@) == text_of(written),
            old(self).well_formed(),
            old(self).completed_chunks < usize::MAX,
        ensures
            final(self).well_formed(),
            final(self)@ == shown_reaction(old(self)@, event@, file_label(written)).0,
            action_views(actions@) == logged(old(self)@, event@) + shown_reaction(
                old(self)@,
                event@,
                file_label(written),
            ).1,
    {
        let mut actions: Vec<Action<String, Line>> = Vec::new();
        assert(action_views(actions@) =~= Seq::empty());
        if self.log_events {
            if let Some((level, text)) = log_event(event) {
                push_action(&mut actions, Action::Log { level, text });
            }
        }
        assert(action_views(actions@) =~= logged(self@, event@));
        let ghost before = action_views(actions@);
        match event {
            CoreEvent::ChunkPlan { .. } => {},
            CoreEvent::ModelLoaded { backend, elapsed } => {
                push_action(
                    &mut actions,
                    Action::Print(format_stage_line("model loaded", backend, *elapsed)),
                );
            },
            CoreEvent::Status { stage, message, .. } => {
                self.on_status(stage, message, &mut actions);
            },
            CoreEvent::Progress { stage, current, total, detail, .. } => {
                self.on_progress(stage, *current, *total, detail, &mut actions);
            },
            CoreEvent::Timing { stage, elapsed, detail, .. } => {
                self.on_timing(written, stage, *elapsed, detail, &mut actions);
            },
            CoreEvent::Message { level, message } => {
                self.on_message(*level, message, &mut actions);
            },
        }
        assert(action_views(actions@) =~= before + shown_reaction(
            old(self)@,
            event@,
            file_label(written),
        ).1);
        actions
    }
}

/// Whatever the events, the bars on the terminal stand in the order of their
/// chunks, each chunk has at most one, and there are none without progress bars.
pub proof fn law_bars_follow_chunks(
    s: ProgressView,
    event: EventView,
    written: Option<Seq<char>>,
)
    requires
        ascending(s.bars),
        !s.use_progress ==> s.bars.len() == 0,
    ensures
        ascending(shown_reaction(s, event, written).0.bars),
        !s.use_progress ==> shown_reaction(s, event, written).0.bars.len() == 0,
        shown_reaction(s, event, written).0.use_progress == s.use_progress,
{
    match event {
        EventView::Status { stage, message, chunk } => {
            lemma_bars_stay_ascending(s.bars, index_or_zero(Some(message)));
        },
        EventView::Progress { stage, current, total, detail, chunk } => {
            lemma_bars_stay_ascending(s.bars, index_or_zero(detail));
        },
        EventView::Timing { stage, elapsed, detail, chunk } => {
            lemma_bars_stay_ascending(s.bars, index_or_zero(detail));
        },
        _ => {},
    }
}

/// The bar of a new chunk goes where its number belongs: above the next larger, else below
/// the next smaller, else below the root. It joins the others, and takes none away; the end
/// of a chunk takes its bar away, and no other.
pub proof fn law_bars_come_and_go_with_their_chunk(bars: Seq<usize>, index: usize)
    requires
        ascending(bars),
    ensures
        forall|x: usize| #[trigger]
            bars_with(bars, index).contains(x) <==> x == index || bars.contains(x),
        forall|x: usize| #[trigger]
            bars_without(bars, index).contains(x) <==> x != index && bars.contains(x),
        bars.contains(index) ==> bar_actions(bars, index) == Seq::<ActionView>::empty(),
        !bars.contains(index) ==> bar_actions(bars, index) == seq![
            Action::<Seq<char>, LineView>::AddBar { index, place: bar_place(bars, index) },
        ],
        !bars.contains(index) ==> match bar_place(bars, index) {
            BarPlace::Before(next) => bars.contains(next) && index < next && forall|x: usize|
                bars.contains(x) ==> x < index || next <= x,
            BarPlace::After(last) => bars.contains(last) && last < index && forall|x: usize|
                bars.contains(x) ==> x <= last,
            BarPlace::AfterRoot => bars.len() == 0,
        },
{
    lemma_has_bar(bars, index);
    lemma_place(bars, index, 0);
    let n = bars_before(bars, index);
    let with = bars_with(bars, index);
    let without = bars_without(bars, index);
    assert forall|x: usize| #[trigger] with.contains(x) <==> x == index || bars.contains(x) by {
        if !has_bar(bars, index) {
            assert(with[n] == index);
            if bars.contains(x) {
                let k = choose|k: int| 0 <= k < bars.len() && bars[k] == x;
                assert(with[if k < n {
                    k
                } else {
                    k + 1
                }] == x);
            }
            if with.contains(x) && x != index {
                let k = choose|k: int| 0 <= k < with.len() && with[k] == x;
                assert(bars[if k < n {
                    k
                } else {
                    k - 1
                }] == x);
            }
        }
    }
    assert forall|x: usize| #[trigger] without.contains(x) <==> x != index && bars.contains(x) by {
        if has_bar(bars, index) {
            if bars.contains(x) && x != index {
                let k = choose|k: int| 0 <= k < bars.len() && bars[k] == x;
                assert(without[if k < n {
                    k
                } else {
                    k - 1
                }] == x);
            }
            if without.contains(x) {
                let k = choose|k: int| 0 <= k < without.len() && without[k] == x;
                let m = if k < n {
                    k
                } else {
                    k + 1
                };
                assert(bars[m] == x);
                assert(m != n);
                assert(m < n ==> bars[m] < bars[n]);
                assert(m > n ==> bars[n] < bars[m]);
            }
        }
    }
    if !bars.contains(index) {
        if n < bars.len() {
            assert(bars.contains(bars[n]));
            assert forall|x: usize| bars.contains(x) implies x < index || bars[n] <= x by {
                let k = choose|k: int| 0 <= k < bars.len() && bars[k] == x;
                assert(k > n ==> bars[n] < bars[k]);
            }
        } else if n > 0 {
            assert(bars.contains(bars[n - 1]));
            assert forall|x: usize| bars.contains(x) implies x <= bars[n - 1] by {
                let k = choose|k: int| 0 <= k < bars.len() && bars[k] == x;
                assert(k < n - 1 ==> bars[k] < bars[n - 1]);
            }
        }
    }
}

/// What is shown of a chunk that begins, steps on and ends is shown on its own bar: its
/// label when it begins; the step, under the label it has; and when it ends, the bar goes
/// and one more chunk is counted.
pub proof fn law_chunks_show_on_their_bar(
    s: ProgressView,
    index: nat,
    count: nat,
    rest: Seq<char>,
    current: usize,
    total: usize,
    elapsed: Elapsed,
    written: Option<Seq<char>>,
    chunk: Option<ChunkContext>,
)
    requires
        index < usize::MAX,
        count <= usize::MAX,
        rest.len() == 0 || !is_digit(rest[0]),
        s.use_progress,
        s.completed < usize::MAX,
    ensures
        ({
            let text = chunk_label_text(index as int, count as int) + rest;
            let at = index as usize;
            let begun = shown_reaction(
                s,
                EventView::Status { stage: "chunk_infer"@, message: text, chunk },
                written,
            );
            &&& begun.0.labels == s.labels.insert(at, chunk_status(text))
            &&& begun.0.bars == bars_with(s.bars, at)
            &&& begun.0.completed == s.completed
            &&& begun.0.total == s.total
            &&& begun.1.take(begun.1.len() - 1) == bar_actions(s.bars, at).push(
                Action::BarPending { index: at },
            ).push(Action::BarMessage { index: at, text: chunk_status(text) })
        }),
        ({
            let text = chunk_label_text(index as int, count as int) + rest;
            let at = index as usize;
            let label = if s.labels.contains_key(at) {
                s.labels[at]
            } else {
                "chunk "@ + decimal(index + 1)
            };
            let stepped = shown_reaction(
                s,
                EventView::Progress {
                    stage: "d3pm_step"@,
                    current: current as int,
                    total: total as int,
                    detail: Some(text),
                    chunk,
                },
                written,
            );
            &&& stepped.0 == (ProgressView { bars: bars_with(s.bars, at), ..s })
            &&& stepped.1.take(stepped.1.len() - 1) == bar_actions(s.bars, at).push(
                Action::BarSteps { index: at, current, total },
            ).push(Action::BarMessage { index: at, text: label })
        }),
        ({
            let text = chunk_label_text(index as int, count as int) + rest;
            let at = index as usize;
            let ended = shown_reaction(
                s,
                EventView::Timing { stage: "infer_total"@, elapsed, detail: Some(text), chunk },
                written,
            );
            &&& ended.0 == (ProgressView {
                labels: s.labels.remove(at),
                bars: bars_without(s.bars, at),
                completed: s.completed + 1,
                ..s
            })
            &&& ended.1.contains(Action::RootPosition((s.completed + 1) as usize))
            &&& ended.1.contains(Action::ClearBar { index: at }) <==> s.bars.contains(at)
        }),
{
    let text = chunk_label_text(index as int, count as int) + rest;
    let at = index as usize;
    law_chunk_labels_are_read_back(index, count, rest);
    reveal_strlit("chunk_infer");
    reveal_strlit("extract_infer");
    reveal_strlit("infer_total");
    reveal_strlit("audio_prepare");
    reveal_strlit("silence_slice");
    reveal_strlit("long_chunk_split");
    reveal_strlit("mel_setup");
    assert("chunk_infer"@[0] == 'c');
    assert("infer_total"@[0] == 'i');
    let begun = status_reaction(s, "chunk_infer"@, text);
    let begun_actions = bar_actions(s.bars, at).push(Action::BarPending { index: at }).push(
        Action::BarMessage { index: at, text: chunk_status(text) },
    );
    assert(begun.1.take(begun.1.len() - 1) =~= begun_actions);
    let stepped = progress_reaction(s, "d3pm_step"@, current, total, Some(text));
    assert(stepped.1.take(stepped.1.len() - 1) =~= bar_actions(s.bars, at).push(
        Action::BarSteps { index: at, current, total },
    ).push(Action::BarMessage { index: at, text: label_of(s.labels, at) }));
    let ended = timing_reaction(s, written, "infer_total"@, elapsed, Some(text));
    assert(ended == chunk_done_reaction(s, Some(text)));
    let n = ended.1.len() as int;
    assert(ended.1[n - 2] == Action::<Seq<char>, LineView>::RootPosition(
        (s.completed + 1) as usize,
    ));
    if has_bar(s.bars, at) {
        assert(ended.1[0] == Action::<Seq<char>, LineView>::ClearBar { index: at });
    }
}

/// When inference begins, the chunks that it says are counted from zero, and the bars and
/// labels of an earlier run are gone; when it has ended, none are left.
pub proof fn law_inference_begins_and_ends_without_bars(
    s: ProgressView,
    message: Seq<char>,
    ws: Seq<Seq<char>>,
    count: nat,
    last: Seq<char>,
    elapsed: Elapsed,
    detail: Option<Seq<char>>,
    written: Option<Seq<char>>,
    chunk: Option<ChunkContext>,
)
    requires
        words(message) == ws + seq![decimal(count), last],
        count <= usize::MAX,
        starts_with(last, "chunk"@),
        forall|k: int| 0 <= k < ws.len() ==> !starts_with(#[trigger] ws[k], "chunk"@),
    ensures
        ({
            let (t, actions) = shown_reaction(
                s,
                EventView::Status { stage: "extract_infer"@, message, chunk },
                written,
            );
            &&& t.total == Some(count as usize)
            &&& t.completed == 0
            &&& t.bars.len() == 0
            &&& t.labels == Map::<usize, Seq<char>>::empty()
            &&& actions.len() > 2
            &&& actions[0] == Action::<Seq<char>, LineView>::ClearBars
            &&& actions[1] == Action::<Seq<char>, LineView>::RootPosition(0)
            &&& actions[2] == Action::<Seq<char>, LineView>::RootLength(count as usize)
        }),
        ({
            let (t, actions) = shown_reaction(
                s,
                EventView::Timing { stage: "extract_infer"@, elapsed, detail, chunk },
                written,
            );
            &&& t == (ProgressView { labels: Map::empty(), bars: Seq::empty(), ..s })
            &&& actions[0] == Action::<Seq<char>, LineView>::ClearBars
        }),
{
    law_chunk_counts_are_read_back(ws, count, last);
    reveal_strlit("extract_infer");
    reveal_strlit("infer_total");
    reveal_strlit("audio_prepare");
    reveal_strlit("silence_slice");
    reveal_strlit("long_chunk_split");
    reveal_strlit("mel_setup");
    assert("extract_infer"@[0] == 'e');
    assert("infer_total"@[0] == 'i');
}

/// Every event but a plan is one line of the log where logging is on, and none where it is
/// off, at its own level or, for what is not a message, as information.
pub proof fn law_every_event_is_one_line(s: ProgressView, event: EventView)
    ensures
        !s.log_events ==> logged(s, event).len() == 0,
        event is ChunkPlan ==> logged(s, event).len() == 0,
        s.log_events && !(event is ChunkPlan) ==> {
            &&& logged(s, event).len() == 1
            &&& logged(s, event)[0] is Log
            &&& logged(s, event)[0]->level == match event {
                EventView::Message { level, .. } => level,
                _ => NotificationLevel::Info,
            }
        },
{
}

/// The line of a stage is as wide as all others: the label, what stands in brackets, and
/// the time at the right end; only where these leave no room it is wider.
pub proof fn law_stage_lines_end_at_the_same_column(
    label: Seq<char>,
    bracket: Seq<char>,
    elapsed: Elapsed,
)
    ensures
        ({
            let line = stage_line(label, bracket, elapsed);
            let time = duration_text(elapsed);
            let shown = if bracket.len() == 0 {
                Seq::<char>::empty()
            } else {
                " ["@ + bracket + "]"@
            };
            let used = byte_count("  "@ + label + shown) + byte_count(time);
            &&& line.len() == 4
            &&& line[0].text == "  "@
            &&& line[1].text == label && line[1].style == TextStyle::Label
            &&& line[3].text == time && line[3].style == TextStyle::Timing
            &&& line[2].text.take(shown.len() as int) == shown
            &&& used + (line[2].text.len() - shown.len()) == if used < STAGE_LINE_WIDTH {
                STAGE_LINE_WIDTH as int
            } else {
                used
            }
            &&& forall|i: int|
                shown.len() <= i < line[2].text.len() ==> #[trigger] line[2].text[i] == ' '
        }),
{
    let line = stage_line(label, bracket, elapsed);
    let shown = bracketed(bracket);
    assert(line[2].text.take(shown.len() as int) =~= shown);
}

/// What is printed of the stages before inference: slicing is remembered with the number of
/// chunks it gave, and splitting is told only where it made another number of them.
pub proof fn law_slicing_and_splitting_are_told(
    s: ProgressView,
    count: nat,
    elapsed: Elapsed,
    written: Option<Seq<char>>,
    chunk: Option<ChunkContext>,
)
    requires
        count <= usize::MAX,
    ensures
        ({
            let detail = Some("chunks="@ + decimal(count));
            let (t, actions) = shown_reaction(
                s,
                EventView::Timing { stage: "silence_slice"@, elapsed, detail, chunk },
                written,
            );
            &&& t == (ProgressView { silence: Some(count as usize), ..s })
            &&& count != 1 ==> actions == seq![
                Action::<Seq<char>, LineView>::Print(
                    stage_line("sliced on silence"@, decimal(count) + " chunks"@, elapsed),
                ),
            ]
            &&& count == 1 ==> actions == seq![
                Action::<Seq<char>, LineView>::Print(
                    stage_line("sliced on silence"@, decimal(count) + " chunk"@, elapsed),
                ),
            ]
        }),
        ({
            let detail = Some("chunks="@ + decimal(count));
            let (t, actions) = shown_reaction(
                s,
                EventView::Timing { stage: "long_chunk_split"@, elapsed, detail, chunk },
                written,
            );
            &&& t == s
            &&& s.silence is None || s.silence == Some(count as usize) ==> actions.len() == 0
            &&& s.silence matches Some(before) ==> before != count ==> actions == seq![
                Action::<Seq<char>, LineView>::Print(
                    stage_line(
                        "split long chunks"@,
                        decimal(before as nat) + " -> "@ + decimal(count),
                        elapsed,
                    ),
                ),
            ]
        }),
{
    let key = "chunks="@;
    let empty = Seq::<char>::empty();
    law_numbers_are_read_behind_their_key(empty, key, count, empty);
    assert(empty + key + decimal(count) + empty =~= key + decimal(count));
    reveal_strlit("audio_prepare");
    reveal_strlit("silence_slice");
    reveal_strlit("long_chunk_split");
    assert("audio_prepare"@[0] == 'a');
    assert("silence_slice"@[0] == 's');
    assert("long_chunk_split"@[0] == 'l');
    reveal_strlit(" chunk");
    reveal_strlit("s");
    reveal_strlit(" chunks");
    assert(decimal(count) + " chunk"@ + "s"@ =~= decimal(count) + " chunks"@);
}

/// The file that was written is shown by its name; without a name, by the path that the
/// event tells.
pub proof fn law_written_files_are_shown(
    s: ProgressView,
    path: Seq<char>,
    name: Seq<char>,
    elapsed: Elapsed,
    detail: Option<Seq<char>>,
    chunk: Option<ChunkContext>,
)
    ensures
        ({
            let event = EventView::Timing { stage: "output_write"@, elapsed, detail, chunk };
            let (t, actions) = shown_reaction(s, event, Some(name));
            &&& t == s
            &&& s.use_progress ==> actions == seq![
                Action::<Seq<char>, LineView>::RootMessage("Wrote "@ + name),
            ]
            &&& !s.use_progress ==> actions == seq![
                Action::<Seq<char>, LineView>::Print(
                    stage_line("wrote "@ + name, Seq::empty(), elapsed),
                ),
            ]
        }),
        words(path).len() > 0 ==> written_path(Some("path="@ + path)) == words(path)[0],
        words(path).len() == 0 ==> written_path(Some("path="@ + path)) == path,
        written_path(None) == "output"@,
{
    reveal_strlit("audio_prepare");
    reveal_strlit("silence_slice");
    reveal_strlit("long_chunk_split");
    reveal_strlit("mel_setup");
    reveal_strlit("infer_total");
    reveal_strlit("extract_infer");
    reveal_strlit("output_write");
    assert("output_write"@[0] == 'o');
    let text = "path="@ + path;
    let n = "path="@.len() as int;
    assert(text.subrange(0, n) =~= "path="@);
    assert(text.skip(n) =~= path);
}

} // verus!
