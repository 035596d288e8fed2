//! What stands on the pages of the window.
use vstd::prelude::*;
use vstd::string::*;

use crate::gui::events::GuiLogLevel;
use crate::gui::state::{
    chunk_views, find_timing, log_views, progress_view, stages_distinct, timing_map, AppState,
    ChunkProgress, ChunkStatus, ChunkView, ExtractConfig, GpuAdapterChoice, GuiLogEntry, LogView,
    StageEntry, StageTiming, StatusView,
};
use crate::notify::{duration_text, format_duration};
use crate::paths::{copy_text, text_view, with_extension, FilePath, PathView};
use crate::service::{
    format_of_path, infer_extract_format, Backend, ChunkParallelism, ExtractDevice, ExtractFormat,
};
use crate::tensor::adapter::id_text;
use crate::text::{
    ascii_lowercase, decimal, decimal_string, join, join_strings, push_decimal, push_hex4, trim,
    trim_string, views,
};

verus! {

// ---------------------------------------------------------------------------
// Names
// ---------------------------------------------------------------------------
pub open spec fn backend_label(backend: Backend) -> Seq<char> {
    match backend {
        Backend::Cpu => "CPU"@,
        Backend::Gpu => "GPU"@,
    }
}

/// The name of a backend.
pub fn backend_name(backend: Backend) -> (s: &'static str)
    ensures
        s@ == backend_label(backend),
{
    match backend {
        Backend::Cpu => "CPU",
        Backend::Gpu => "GPU",
    }
}

pub open spec fn format_label(format: ExtractFormat) -> Seq<char> {
    match format {
        ExtractFormat::Midi => "MIDI"@,
        ExtractFormat::Txt => "TXT"@,
        ExtractFormat::Csv => "CSV"@,
    }
}

/// The name of a format.
pub fn output_format_name(format: ExtractFormat) -> (s: &'static str)
    ensures
        s@ == format_label(format),
{
    match format {
        ExtractFormat::Midi => "MIDI",
        ExtractFormat::Txt => "TXT",
        ExtractFormat::Csv => "CSV",
    }
}

/// The name of a device.
pub fn device_name(device: ExtractDevice) -> (s: &'static str)
    ensures
        s@ == match device {
            ExtractDevice::Auto => "Auto"@,
            ExtractDevice::Cpu => "CPU"@,
            ExtractDevice::Gpu => "GPU"@,
        },
{
    match device {
        ExtractDevice::Auto => "Auto",
        ExtractDevice::Cpu => "CPU",
        ExtractDevice::Gpu => "GPU",
    }
}

/// The name of a way to work on chunks.
pub fn chunk_parallelism_name(value: ChunkParallelism) -> (s: &'static str)
    ensures
        s@ == match value {
            ChunkParallelism::Auto => "Auto"@,
            ChunkParallelism::On => "On"@,
            ChunkParallelism::Off => "Off"@,
        },
{
    match value {
        ChunkParallelism::Auto => "Auto",
        ChunkParallelism::On => "On",
        ChunkParallelism::Off => "Off",
    }
}

// ---------------------------------------------------------------------------
// The form
// ---------------------------------------------------------------------------
/// Ends of the ranges that the form offers.
pub const MOST_D3PM_STEPS: i32 = 256;

pub const MOST_CHUNK_SECONDS: usize = 7200;

pub const MOST_BOUNDARY_RADIUS: i32 = 64;

pub open spec fn adapter_text(a: GpuAdapterChoice) -> Seq<char> {
    a.name@ + " ["@ + a.backend@ + " "@ + a.device_type@ + ", vendor="@ + id_text(a.vendor_id)
        + ", device="@ + id_text(a.device_id) + "]"@
}

/// The line of an adapter in the list.
pub fn adapter_label(adapter: &GpuAdapterChoice) -> (s: String)
    ensures
        s@ == adapter_text(*adapter),
{
    let mut s = String::from_str(&adapter.name);
    s.append(" [");
    s.append(&adapter.backend);
    s.append(" ");
    s.append(&adapter.device_type);
    s.append(", vendor=");
    s.append("0x");
    push_hex4(&mut s, adapter.vendor_id);
    s.append(", device=");
    s.append("0x");
    push_hex4(&mut s, adapter.device_id);
    s.append("]");
    assert(s@ =~= adapter_text(*adapter));
    s
}

/// Why a run cannot begin yet.
pub open spec fn blocking_text(config: ExtractConfig) -> Option<Seq<char>> {
    if trim(config.model_path@).len() == 0 {
        Some("Choose a GGUF model file to begin."@)
    } else if trim(config.audio_path@).len() == 0 {
        Some("Choose a WAV audio file to begin."@)
    } else {
        None
    }
}

/// Tells why a run cannot begin yet. Whether the files are there is not looked at.
pub fn start_blocking_reason(config: &ExtractConfig) -> (r: Option<&'static str>)
    ensures
        match r {
            Some(text) => blocking_text(*config) == Some(text@),
            None => blocking_text(*config) is None,
        },
{
    if trim_string(&config.model_path).as_str().is_empty() {
        Some("Choose a GGUF model file to begin.")
    } else if trim_string(&config.audio_path).as_str().is_empty() {
        Some("Choose a WAV audio file to begin.")
    } else {
        None
    }
}

pub open spec fn mismatch_text(told: ExtractFormat, chosen: ExtractFormat) -> Seq<char> {
    "Output file extension looks like "@ + format_label(told) + " but the selected format is "@
        + format_label(chosen) + ". "@ + format_label(chosen)
        + " data will be written to this file."@
}

/// The warning that the extension of the output tells another format than the one
/// that will be written.
pub open spec fn format_warning(config: ExtractConfig, output: PathView) -> Option<Seq<char>> {
    if output.text.len() == 0 {
        None
    } else {
        match format_of_path(output) {
            Some(told) => if told != config.output_format {
                Some(mismatch_text(told, config.output_format))
            } else {
                None
            },
            None => None,
        }
    }
}

/// Warns where the extension of the output tells another format; `output` is the path
/// that the form names.
pub fn output_format_mismatch(config: &ExtractConfig, output: &FilePath) -> (r: Option<String>)
    requires
        config.names_output(output@),
    ensures
        text_view(r) == format_warning(*config, output@),
{
    if output.text.as_str().is_empty() {
        return None;
    }
    match infer_extract_format(output) {
        Some(told) => if told != config.output_format {
            let chosen = output_format_name(config.output_format);
            let mut s = String::from_str("Output file extension looks like ");
            s.append(output_format_name(told));
            s.append(" but the selected format is ");
            s.append(chosen);
            s.append(". ");
            s.append(chosen);
            s.append(" data will be written to this file.");
            Some(s)
        } else {
            None
        },
        None => None,
    }
}

/// The directory that a dialogue for the output begins in.
pub open spec fn output_dir(output: PathView, audio: PathView) -> Option<Seq<char>> {
    if output.text.len() > 0 {
        output.parent
    } else if audio.text.len() > 0 {
        audio.parent
    } else {
        None
    }
}

/// Finds the directory that a dialogue for the output begins in. The paths are those that
/// the form names, without the blanks around them.
pub fn default_output_parent(output: &FilePath, audio: &FilePath) -> (r: Option<String>)
    ensures
        text_view(r) == output_dir(output@, audio@),
{
    if !output.text.as_str().is_empty() {
        return copy_text(&output.parent);
    }
    if audio.text.as_str().is_empty() {
        None
    } else {
        copy_text(&audio.parent)
    }
}

pub open spec fn format_extension(format: ExtractFormat) -> Seq<char> {
    match format {
        ExtractFormat::Midi => "mid"@,
        ExtractFormat::Txt => "txt"@,
        ExtractFormat::Csv => "csv"@,
    }
}

/// The name of the output that a dialogue offers.
pub open spec fn output_name(
    output: PathView,
    audio: PathView,
    format: ExtractFormat,
) -> Option<Seq<char>> {
    if output.text.len() > 0 {
        output.name
    } else if audio.text.len() > 0 {
        with_extension(audio, format_extension(format)).name
    } else {
        Some("output.mid"@)
    }
}

/// Finds the name of the output that a dialogue offers. The paths are those that the form
/// names, without the blanks around them.
pub fn default_output_file_name(
    output: &FilePath,
    audio: &FilePath,
    output_format: ExtractFormat,
) -> (r: Option<String>)
    ensures
        text_view(r) == output_name(output@, audio@, output_format),
{
    if !output.text.as_str().is_empty() {
        return copy_text(&output.name);
    }
    if audio.text.as_str().is_empty() {
        return Some(String::from_str("output.mid"));
    }
    let ext = match output_format {
        ExtractFormat::Midi => "mid",
        ExtractFormat::Txt => "txt",
        ExtractFormat::Csv => "csv",
    };
    audio.with_extension(ext).name
}

/// What is told at the top of the form.
#[derive(Debug)]
pub enum Notice {
    Nothing,
    /// An error, which can be put away.
    Error(String),
    Status(String),
}

/// What stands on the page of the form besides its fields.
#[derive(Debug)]
pub struct ConfigPage {
    /// The notice on a missing font is shown.
    pub font_notice: bool,
    pub notice: Notice,
    pub format_warning: Option<String>,
    pub can_start: bool,
    /// What stands beside the button that begins a run.
    pub hint: &'static str,
    pub hint_is_warning: bool,
}

/// Lays out the page of the form; `output` is the path of the output that it names.
pub fn config_page<N>(state: &AppState<N>, output: &FilePath) -> (page: ConfigPage)
    requires
        state.config.names_output(output@),
    ensures
        page.font_notice == (state.cjk_font_missing && !state.font_notice_dismissed),
        match page.notice {
            Notice::Error(text) => text_view(state.error_message) == Some(text@),
            Notice::Status(text) => state.error_message is None && text@ == state.status_text@
                && text@.len() > 0,
            Notice::Nothing => state.error_message is None && state.status_text@.len() == 0,
        },
        text_view(page.format_warning) == format_warning(state.config, output@),
        page.can_start == (!state.is_running && blocking_text(state.config) is None),
        page.hint_is_warning == blocking_text(state.config) is Some,
        page.hint@ == match blocking_text(state.config) {
            Some(reason) => reason,
            None => "Drop .gguf, .wav, .mid, .txt, or .csv files onto this window to fill paths."@,
        },
{
    let blocking = start_blocking_reason(&state.config);
    let notice = match &state.error_message {
        Some(text) => Notice::Error(String::from_str(text)),
        None => if state.status_text.as_str().is_empty() {
            Notice::Nothing
        } else {
            Notice::Status(String::from_str(&state.status_text))
        },
    };
    ConfigPage {
        font_notice: state.cjk_font_missing && !state.font_notice_dismissed,
        notice,
        format_warning: output_format_mismatch(&state.config, output),
        can_start: !state.is_running && blocking.is_none(),
        hint_is_warning: blocking.is_some(),
        hint: match blocking {
            Some(reason) => reason,
            None => "Drop .gguf, .wav, .mid, .txt, or .csv files onto this window to fill paths.",
        },
    }
}

/// What stands in the choice of adapters.
#[derive(Debug)]
pub struct DeviceSection {
    /// The choice that is shown as taken.
    pub selected: String,
    pub entries: Vec<String>,
    pub can_refresh: bool,
    pub problem: Option<String>,
}

pub open spec fn adapter_texts(adapters: Seq<GpuAdapterChoice>) -> Seq<Seq<char>> {
    adapters.map_values(|a: GpuAdapterChoice| adapter_text(a))
}

pub open spec fn adapter_problem<N>(state: AppState<N>) -> Option<Seq<char>> {
    match state.gpu_adapter_error {
        Some(error) => Some("Failed to enumerate GPU adapters: "@ + error@),
        None => if !state.gpu_adapters_loading && state.gpu_adapters.len() == 0 {
            Some("No GPU adapters were reported by wgpu."@)
        } else {
            None
        },
    }
}

/// Lays out the choice of adapters. There is none where the CPU is asked for.
pub fn device_section<N>(state: &AppState<N>) -> (r: Option<DeviceSection>)
    ensures
        r is None == (state.config.device == ExtractDevice::Cpu),
        r matches Some(section) ==> {
            &&& section.selected@ == match state.config.selected_gpu_index {
                Some(index) if index < state.gpu_adapters.len() => adapter_text(
                    state.gpu_adapters@[index as int],
                ),
                _ => "Any available GPU"@,
            }
            &&& views(section.entries@) == adapter_texts(state.gpu_adapters@)
            &&& section.can_refresh == !state.gpu_adapters_loading
            &&& text_view(section.problem) == adapter_problem(*state)
        },
{
    if state.config.device == ExtractDevice::Cpu {
        return None;
    }
    let mut selected = String::from_str("Any available GPU");
    if let Some(index) = state.config.selected_gpu_index {
        if index < state.gpu_adapters.len() {
            selected = adapter_label(&state.gpu_adapters[index]);
        }
    }
    let mut entries: Vec<String> = Vec::new();
    let mut i: usize = 0;
    while i < state.gpu_adapters.len()
        invariant
            i <= state.gpu_adapters.len(),
            views(entries@) == adapter_texts(state.gpu_adapters@).take(i as int),
        decreases state.gpu_adapters.len() - i,
    {
        let ghost before = entries@;
        entries.push(adapter_label(&state.gpu_adapters[i]));
        i += 1;
        proof {
            let texts = adapter_texts(state.gpu_adapters@);
            assert(views(entries@) =~= views(before).push(texts[i - 1]));
            assert(texts.take(i as int) =~= texts.take(i - 1).push(texts[i - 1]));
        }
    }
    assert(adapter_texts(state.gpu_adapters@).take(i as int) =~= adapter_texts(
        state.gpu_adapters@,
    ));
    let problem = match &state.gpu_adapter_error {
        Some(error) => {
            let mut s = String::from_str("Failed to enumerate GPU adapters: ");
            s.append(error);
            Some(s)
        },
        None => if !state.gpu_adapters_loading && state.gpu_adapters.len() == 0 {
            Some(String::from_str("No GPU adapters were reported by wgpu."))
        } else {
            None
        },
    };
    Some(DeviceSection { selected, entries, can_refresh: !state.gpu_adapters_loading, problem })
}

// ---------------------------------------------------------------------------
// Progress
// ---------------------------------------------------------------------------
/// A colour: one of the theme, or a fixed one.
#[derive(Debug, Clone, Copy, PartialEq, Eq, Structural)]
pub enum Paint {
    Transparent,
    Accent,
    Text,
    WeakText,
    ErrorText,
    FaintBackground,
    WindowStroke,
    Rgb(u8, u8, u8),
}

/// What stands before the label of a chunk.
#[derive(Debug, Clone, Copy)]
pub enum HeaderIndicator {
    Nothing,
    Running,
    Badge(BadgeStyle),
}

#[derive(Debug, Clone, Copy)]
pub struct BadgeStyle {
    pub text: &'static str,
    pub fill: Paint,
    pub stroke: Paint,
    pub text_color: Paint,
}

/// The badge has this text and these colours.
pub open spec fn is_badge(
    indicator: HeaderIndicator,
    text: Seq<char>,
    fill: Paint,
    stroke: Paint,
    text_color: Paint,
) -> bool {
    indicator matches HeaderIndicator::Badge(b) && b.text@ == text && b.fill == fill && b.stroke
        == stroke && b.text_color == text_color
}

/// What stands before the label of a chunk, in a dark or a light theme.
pub fn chunk_indicator(status: &ChunkStatus, dark: bool) -> (indicator: HeaderIndicator)
    ensures
        match *status {
            ChunkStatus::Pending => is_badge(
                indicator,
                "Pending"@,
                Paint::FaintBackground,
                Paint::WindowStroke,
                Paint::WeakText,
            ),
            ChunkStatus::Running => indicator is Running,
            ChunkStatus::Completed => if dark {
                is_badge(
                    indicator,
                    "Finished"@,
                    Paint::Rgb(22, 64, 42),
                    Paint::Rgb(45, 164, 78),
                    Paint::Rgb(180, 236, 196),
                )
            } else {
                is_badge(
                    indicator,
                    "Finished"@,
                    Paint::Rgb(223, 246, 221),
                    Paint::Rgb(16, 124, 16),
                    Paint::Rgb(16, 124, 16),
                )
            },
            ChunkStatus::Failed(_) => if dark {
                is_badge(
                    indicator,
                    "Failed"@,
                    Paint::Rgb(64, 26, 28),
                    Paint::Rgb(232, 86, 76),
                    Paint::Rgb(255, 220, 220),
                )
            } else {
                is_badge(
                    indicator,
                    "Failed"@,
                    Paint::Rgb(253, 231, 233),
                    Paint::Rgb(196, 43, 28),
                    Paint::Rgb(196, 43, 28),
                )
            },
        },
{
    match status {
        ChunkStatus::Pending => HeaderIndicator::Badge(
            BadgeStyle {
                text: "Pending",
                fill: Paint::FaintBackground,
                stroke: Paint::WindowStroke,
                text_color: Paint::WeakText,
            },
        ),
        ChunkStatus::Running => HeaderIndicator::Running,
        ChunkStatus::Completed => HeaderIndicator::Badge(
            if dark {
                BadgeStyle {
                    text: "Finished",
                    fill: Paint::Rgb(22, 64, 42),
                    stroke: Paint::Rgb(45, 164, 78),
                    text_color: Paint::Rgb(180, 236, 196),
                }
            } else {
                BadgeStyle {
                    text: "Finished",
                    fill: Paint::Rgb(223, 246, 221),
                    stroke: Paint::Rgb(16, 124, 16),
                    text_color: Paint::Rgb(16, 124, 16),
                }
            },
        ),
        ChunkStatus::Failed(_) => HeaderIndicator::Badge(
            if dark {
                BadgeStyle {
                    text: "Failed",
                    fill: Paint::Rgb(64, 26, 28),
                    stroke: Paint::Rgb(232, 86, 76),
                    text_color: Paint::Rgb(255, 220, 220),
                }
            } else {
                BadgeStyle {
                    text: "Failed",
                    fill: Paint::Rgb(253, 231, 233),
                    stroke: Paint::Rgb(196, 43, 28),
                    text_color: Paint::Rgb(196, 43, 28),
                }
            },
        ),
    }
}

/// A part of a whole.
#[derive(Debug, Clone, Copy, PartialEq, Eq, Structural)]
pub struct Ratio {
    pub part: usize,
    pub whole: usize,
}

/// A part of a whole that is not nothing, and no more than all of it.
pub open spec fn proper(r: Ratio) -> bool {
    r.whole > 0 && r.part <= r.whole
}

/// A part of a whole: none of a whole that is nothing, and at most all of it.
pub open spec fn ratio(part: int, whole: int) -> (int, int) {
    if whole == 0 {
        (0, 1)
    } else if part > whole {
        (whole, whole)
    } else {
        (part, whole)
    }
}

/// How far a chunk is: not at all before it begins, all the way when it is done, and
/// by its steps between.
pub open spec fn chunk_share(chunk: ChunkView) -> (int, int) {
    match chunk.status {
        StatusView::Pending => (0, 1),
        StatusView::Completed => (1, 1),
        _ => ratio(chunk.d3pm_current, chunk.d3pm_total),
    }
}

pub open spec fn ratio_view(r: Ratio) -> (int, int) {
    (r.part as int, r.whole as int)
}

fn make_ratio(part: usize, whole: usize) -> (r: Ratio)
    ensures
        ratio_view(r) == ratio(part as int, whole as int),
        proper(r),
{
    if whole == 0 {
        Ratio { part: 0, whole: 1 }
    } else if part > whole {
        Ratio { part: whole, whole }
    } else {
        Ratio { part, whole }
    }
}

/// How far a chunk is.
pub fn chunk_fraction(chunk: &ChunkProgress) -> (r: Ratio)
    ensures
        ratio_view(r) == chunk_share(chunk@),
        proper(r),
{
    match &chunk.status {
        ChunkStatus::Pending => Ratio { part: 0, whole: 1 },
        ChunkStatus::Completed => Ratio { part: 1, whole: 1 },
        _ => make_ratio(chunk.d3pm_current, chunk.d3pm_total),
    }
}

/// The shares whose mean says how far a run is: those of its chunks, or, before any
/// is known, the one that the overall progress tells.
pub open spec fn overall_shares(chunks: Seq<ChunkView>, progress: Option<(int, int)>) -> Seq<(int, int)> {
    if chunks.len() > 0 {
        chunks.map_values(|c: ChunkView| chunk_share(c))
    } else {
        match progress {
            Some((done, total)) => seq![ratio(done, total)],
            None => seq![(0int, 1int)],
        }
    }
}

pub open spec fn ratio_views(r: Seq<Ratio>) -> Seq<(int, int)> {
    r.map_values(|x: Ratio| ratio_view(x))
}

/// The shares whose mean says how far a run is.
pub fn overall_fraction<N>(state: &AppState<N>) -> (r: Vec<Ratio>)
    ensures
        ratio_views(r@) == overall_shares(
            chunk_views(state.chunk_progress@),
            progress_view(state.overall_progress),
        ),
        r.len() > 0,
        forall|i: int| 0 <= i < r.len() ==> proper(#[trigger] r@[i]),
{
    let mut r: Vec<Ratio> = Vec::new();
    if state.chunk_progress.len() == 0 {
        r.push(
            match state.overall_progress {
                Some((done, total)) => make_ratio(done, total),
                None => Ratio { part: 0, whole: 1 },
            },
        );
        assert(ratio_views(r@) =~= overall_shares(
            chunk_views(state.chunk_progress@),
            progress_view(state.overall_progress),
        ));
        return r;
    }
    let ghost views = chunk_views(state.chunk_progress@);
    let mut i: usize = 0;
    while i < state.chunk_progress.len()
        invariant
            i <= state.chunk_progress.len(),
            views == chunk_views(state.chunk_progress@),
            r.len() == i,
            forall|k: int|
                0 <= k < i ==> proper(#[trigger] r@[k]) && ratio_view(r@[k]) == chunk_share(views[k]),
        decreases state.chunk_progress.len() - i,
    {
        assert(views[i as int] == state.chunk_progress@[i as int]@);
        r.push(chunk_fraction(&state.chunk_progress[i]));
        i += 1;
    }
    assert(ratio_views(r@) =~= overall_shares(views, progress_view(state.overall_progress)));
    r
}

pub open spec fn overall_text(progress: Option<(int, int)>, percent: int) -> Seq<char> {
    match progress {
        Some((done, total)) => decimal(percent as nat) + "% - "@ + decimal(done as nat) + "/"@
            + decimal(total as nat) + " chunks complete"@,
        None => "Starting"@,
    }
}

/// What is said of the overall progress; `percent` is how far the run is.
pub fn overall_label<N>(state: &AppState<N>, percent: usize) -> (s: String)
    ensures
        s@ == overall_text(progress_view(state.overall_progress), percent as int),
{
    match state.overall_progress {
        Some((done, total)) => {
            let mut s = decimal_string(percent as u64);
            s.append("% - ");
            push_decimal(&mut s, done as u64);
            s.append("/");
            push_decimal(&mut s, total as u64);
            s.append(" chunks complete");
            s
        },
        None => String::from_str("Starting"),
    }
}

pub open spec fn chunk_detail_text(chunk: ChunkView, percent: int) -> Seq<char> {
    match chunk.status {
        StatusView::Pending => "Pending"@,
        StatusView::Running => "D3PM "@ + decimal(chunk.d3pm_current as nat) + "/"@ + decimal(
            chunk.d3pm_total as nat,
        ) + " - "@ + decimal(percent as nat) + "%"@,
        StatusView::Completed => "Complete"@,
        StatusView::Failed(message) => message,
    }
}

pub open spec fn chunk_paint(status: StatusView) -> Paint {
    match status {
        StatusView::Pending => Paint::Transparent,
        StatusView::Running => Paint::Accent,
        StatusView::Completed => Paint::Rgb(16, 124, 16),
        StatusView::Failed(_) => Paint::ErrorText,
    }
}

/// What is said of a chunk, and the colour of its bar; `percent` is how far it is.
pub fn chunk_detail(chunk: &ChunkProgress, percent: usize) -> (r: (String, Paint))
    ensures
        r.0@ == chunk_detail_text(chunk@, percent as int),
        r.1 == chunk_paint(chunk@.status),
{
    match &chunk.status {
        ChunkStatus::Pending => (String::from_str("Pending"), Paint::Transparent),
        ChunkStatus::Running => {
            let mut s = String::from_str("D3PM ");
            push_decimal(&mut s, chunk.d3pm_current as u64);
            s.append("/");
            push_decimal(&mut s, chunk.d3pm_total as u64);
            s.append(" - ");
            push_decimal(&mut s, percent as u64);
            s.append("%");
            (s, Paint::Accent)
        },
        ChunkStatus::Completed => (String::from_str("Complete"), Paint::Rgb(16, 124, 16)),
        ChunkStatus::Failed(message) => (String::from_str(message), Paint::ErrorText),
    }
}

/// The heading of the page of a run.
pub fn progress_title<N>(state: &AppState<N>) -> (s: &'static str)
    ensures
        s@ == if state.cancel_requested {
            "Cancelling extraction"@
        } else {
            "Extraction in progress"@
        },
{
    if state.cancel_requested {
        "Cancelling extraction"
    } else {
        "Extraction in progress"
    }
}

/// Whether a run can be asked to stop.
pub fn can_cancel<N>(state: &AppState<N>) -> (b: bool)
    ensures
        b == (state.is_running && !state.cancel_requested),
{
    state.is_running && !state.cancel_requested
}

/// A row of the table of stages.
#[derive(Debug)]
pub struct TimingRow {
    pub label: &'static str,
    pub elapsed: String,
    pub state: &'static str,
}

/// The row tells this of a stage.
pub open spec fn is_timing_row(
    row: TimingRow,
    timings: Map<Seq<char>, StageTiming>,
    stage: Seq<char>,
    label: Seq<char>,
) -> bool {
    &&& row.label@ == label
    &&& if timings.contains_key(stage) {
        row.elapsed@ == duration_text(timings[stage].elapsed) && row.state@
            == if timings[stage].completed {
            "done"@
        } else {
            "running"@
        }
    } else {
        row.elapsed@ == "pending"@ && row.state@ == ""@
    }
}

fn timing_row(entries: &Vec<StageEntry>, stage: &'static str, label: &'static str) -> (row:
    TimingRow)
    requires
        stages_distinct(entries@),
    ensures
        is_timing_row(row, timing_map(entries@), stage@, label@),
{
    match find_timing(entries, stage) {
        Some(t) => TimingRow {
            label,
            elapsed: format_duration(t.elapsed),
            state: if t.completed {
                "done"
            } else {
                "running"
            },
        },
        None => TimingRow { label, elapsed: String::from_str("pending"), state: "" },
    }
}

/// Lays out the table of stages, in the order in which they run.
pub fn timing_rows<N>(state: &AppState<N>) -> (rows: Vec<TimingRow>)
    requires
        state.well_formed(),
    ensures
        ({
            let m = timing_map(state.stage_timings@);
            &&& rows.len() == 7
            &&& is_timing_row(rows@[0], m, "model_load"@, "Model load"@)
            &&& is_timing_row(rows@[1], m, "audio_prepare"@, "Audio prep"@)
            &&& is_timing_row(rows@[2], m, "silence_slice"@, "Silence slice"@)
            &&& is_timing_row(rows@[3], m, "long_chunk_split"@, "Long chunk split"@)
            &&& is_timing_row(rows@[4], m, "mel_setup"@, "Mel setup"@)
            &&& is_timing_row(rows@[5], m, "extract_infer"@, "Inference"@)
            &&& is_timing_row(rows@[6], m, "output_write"@, "Output write"@)
        }),
{
    let entries: &Vec<StageEntry> = &state.stage_timings;
    let mut rows: Vec<TimingRow> = Vec::new();
    rows.push(timing_row(entries, "model_load", "Model load"));
    rows.push(timing_row(entries, "audio_prepare", "Audio prep"));
    rows.push(timing_row(entries, "silence_slice", "Silence slice"));
    rows.push(timing_row(entries, "long_chunk_split", "Long chunk split"));
    rows.push(timing_row(entries, "mel_setup", "Mel setup"));
    rows.push(timing_row(entries, "extract_infer", "Inference"));
    rows.push(timing_row(entries, "output_write", "Output write"));
    rows
}

pub open spec fn log_text(entry: LogView) -> Seq<char> {
    "[+"@ + duration_text(entry.elapsed) + "] "@ + entry.text
}

/// The text of a line of the log.
pub fn log_line(entry: &GuiLogEntry) -> (s: String)
    ensures
        s@ == log_text(entry@),
{
    let mut s = String::from_str("[+");
    s.append(&format_duration(entry.elapsed));
    s.append("] ");
    s.append(&entry.text);
    s
}

pub open spec fn log_texts(log: Seq<LogView>) -> Seq<Seq<char>> {
    log.map_values(|e: LogView| log_text(e))
}

/// The whole log, for the clipboard.
pub fn log_for_clipboard<N>(state: &AppState<N>) -> (s: String)
    ensures
        s@ == join(log_texts(log_views(state.event_log@)), "\n"@),
{
    let ghost texts = log_texts(log_views(state.event_log@));
    let mut lines: Vec<String> = Vec::new();
    let mut i: usize = 0;
    while i < state.event_log.len()
        invariant
            i <= state.event_log.len(),
            texts == log_texts(log_views(state.event_log@)),
            views(lines@) == texts.take(i as int),
        decreases state.event_log.len() - i,
    {
        let ghost before = lines@;
        lines.push(log_line(&state.event_log[i]));
        i += 1;
        proof {
            assert(views(lines@) =~= views(before).push(texts[i - 1]));
            assert(texts.take(i as int) =~= texts.take(i - 1).push(texts[i - 1]));
        }
    }
    assert(texts.take(i as int) =~= texts);
    join_strings(&lines, "\n")
}

/// The colour of a line of the log.
pub fn log_color(level: GuiLogLevel) -> (p: Paint)
    ensures
        p == match level {
            GuiLogLevel::Trace | GuiLogLevel::Debug => Paint::WeakText,
            GuiLogLevel::Info => Paint::Text,
            GuiLogLevel::Warn => Paint::Rgb(196, 143, 0),
            GuiLogLevel::Error => Paint::ErrorText,
        },
{
    match level {
        GuiLogLevel::Trace | GuiLogLevel::Debug => Paint::WeakText,
        GuiLogLevel::Info => Paint::Text,
        GuiLogLevel::Warn => Paint::Rgb(196, 143, 0),
        GuiLogLevel::Error => Paint::ErrorText,
    }
}

/// A share is never less than nothing nor more than all: nothing of a chunk that waits, all
/// of one that is completed, and otherwise the steps that were made among all of them.
pub proof fn law_shares_are_of_the_whole(chunk: ChunkView)
    requires
        chunk.d3pm_current >= 0,
        chunk.d3pm_total >= 0,
    ensures
        ({
            let (part, whole) = chunk_share(chunk);
            &&& whole > 0
            &&& 0 <= part <= whole
            &&& chunk.status is Pending ==> part == 0
            &&& chunk.status is Completed ==> part == whole
            &&& (chunk.status is Running || chunk.status is Failed) && 0 < chunk.d3pm_total
                ==> whole == chunk.d3pm_total && part == if chunk.d3pm_current <= chunk.d3pm_total {
                chunk.d3pm_current
            } else {
                chunk.d3pm_total
            }
            &&& (chunk.status is Running || chunk.status is Failed) && chunk.d3pm_total == 0
                ==> part == 0
        }),
{
}

/// The overall progress is made of the shares of all chunks; before they are known, of the
/// count of completed ones.
pub proof fn law_overall_progress_is_that_of_all_chunks(
    chunks: Seq<ChunkView>,
    done: int,
    total: int,
)
    requires
        0 <= done <= total,
    ensures
        chunks.len() > 0 ==> {
            &&& overall_shares(chunks, Some((done, total))).len() == chunks.len()
            &&& forall|i: int|
                0 <= i < chunks.len() ==> #[trigger] overall_shares(chunks, Some((done, total)))[i]
                    == chunk_share(chunks[i])
        },
        total > 0 ==> overall_shares(Seq::empty(), Some((done, total))) == seq![(done, total)],
        total == 0 ==> overall_shares(Seq::empty(), Some((done, total))) == seq![(0int, 1int)],
        overall_shares(Seq::empty(), None) == seq![(0int, 1int)],
{
}

/// A warning is given exactly where the output has an extension of another format than the
/// one that is selected.
pub proof fn law_warning_where_formats_differ(config: ExtractConfig, output: PathView)
    ensures
        format_warning(config, output) is Some <==> output.text.len() > 0 && format_of_path(
            output,
        ) is Some && format_of_path(output) != Some(config.output_format),
{
}

/// What is proposed for an output: its own folder and name where it has a path; else those
/// of the waveform, with the extension of the format, which names that format again.
pub proof fn law_output_is_proposed_beside_the_audio(
    output: PathView,
    audio: PathView,
    format: ExtractFormat,
)
    ensures
        output.text.len() > 0 ==> output_dir(output, audio) == output.parent && output_name(
            output,
            audio,
            format,
        ) == output.name,
        output.text.len() == 0 && audio.text.len() > 0 ==> output_dir(output, audio)
            == audio.parent,
        output.text.len() == 0 && audio.text.len() > 0 && audio.name is Some && audio.stem is Some
            ==> output_name(output, audio, format) == Some(
            audio.stem->0 + "."@ + format_extension(format),
        ),
        output.text.len() == 0 && audio.text.len() == 0 ==> output_dir(output, audio) is None
            && output_name(output, audio, format) == Some("output.mid"@),
        format_of_path(PathView { extension: Some(format_extension(format)), ..output }) == Some(
            format,
        ),
{
    reveal_strlit("mid");
    reveal_strlit("txt");
    reveal_strlit("csv");
    reveal_strlit("midi");
    assert(ascii_lowercase("mid"@) =~= "mid"@);
    assert(ascii_lowercase("txt"@) =~= "txt"@);
    assert(ascii_lowercase("csv"@) =~= "csv"@);
    assert("mid"@[0] == 'm' && "midi"@[0] == 'm' && "txt"@[0] == 't' && "csv"@[0] == 'c');
}

} // verus!
