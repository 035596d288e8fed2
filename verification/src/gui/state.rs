//! The state of a window: its page, its form, and what it shows of a run.
use vstd::prelude::*;
use vstd::string::*;

use crate::cli::{
    chunk_index, count_before_chunk, law_chunk_counts_are_read_back,
    parse_chunk_count_from_message, parse_chunk_index,
};
use crate::error::Error;
use crate::float_order::{at_most, in_unit_interval, ONE};
use crate::gui::events::{
    chunk_position, chunk_title, event_level, event_line, format_chunk_status, format_event,
    friendly_status, law_chunk_labels_are_read_back, parse_chunk_position, status_shown,
    GuiLogLevel,
};
use crate::midi_writer::MidiWriteOptions;
use crate::notify::{ChunkContext, CoreEvent, Elapsed, EventView, NotificationLevel};
use crate::output::TextWriteOptions;
use crate::paths::{
    text_view, with_extension, FilePath, PathView,
};
use crate::service::{
    default_params, format_of_path, infer_extract_format, ChunkParallelism, ExtractDevice,
    ExtractFormat, ExtractOutputRequest, ExtractRequest, GpuSelector, InferParams,
    DEFAULT_MAX_CHUNK_SECONDS,
};
use crate::service_chunks::chunk_label_text;
use crate::service_session::ExtractResult;
use crate::text::{
    ascii_lowercase, decimal, is_digit, lemma_read_digits, lowercase, push_decimal, same_text,
    starts_with, trim, trim_string, without_plus, words,
};

verus! {

#[derive(Debug, Clone, Copy, PartialEq, Eq, Structural)]
pub enum AppPage {
    Config,
    Progress,
    Results,
}

// ---------------------------------------------------------------------------
// The form
// ---------------------------------------------------------------------------
/// What the user has filled in. Fractions are bit patterns of single-precision
/// numbers.
#[derive(Debug)]
pub struct ExtractConfig {
    pub model_path: String,
    pub audio_path: String,
    pub output_path: String,
    pub output_format: ExtractFormat,
    pub device: ExtractDevice,
    pub gpu_selector: GpuSelector,
    pub selected_gpu_index: Option<usize>,
    pub d3pm_nsteps: i32,
    pub seed: u64,
    pub chunk_parallelism: ChunkParallelism,
    pub max_chunk_seconds: usize,
    pub language: i32,
    pub boundary_threshold: u32,
    pub note_threshold: u32,
    pub boundary_radius: i32,
}

impl Default for ExtractConfig {
    fn default() -> (c: Self)
        ensures
            c.is_default(),
    {
        let params = InferParams::default();
        ExtractConfig {
            model_path: String::new(),
            audio_path: String::new(),
            output_path: String::new(),
            output_format: ExtractFormat::Midi,
            device: ExtractDevice::Auto,
            gpu_selector: GpuSelector::default(),
            selected_gpu_index: None,
            d3pm_nsteps: params.d3pm_nsteps,
            seed: params.seed,
            chunk_parallelism: ChunkParallelism::Auto,
            max_chunk_seconds: DEFAULT_MAX_CHUNK_SECONDS,
            language: params.language,
            boundary_threshold: params.boundary_threshold,
            note_threshold: params.note_threshold,
            boundary_radius: params.boundary_radius,
        }
    }
}

/// `a` asks for the adapter that `b` asks for.
pub open spec fn same_adapter(a: GpuSelector, b: GpuSelector) -> bool {
    &&& text_view(a.name_substring) == text_view(b.name_substring)
    &&& a.vendor_id == b.vendor_id
    &&& a.device_id == b.device_id
}

fn copy_selector(s: &GpuSelector) -> (r: GpuSelector)
    ensures
        same_adapter(r, *s),
{
    GpuSelector {
        name_substring: match &s.name_substring {
            Some(name) => Some(String::from_str(name)),
            None => None,
        },
        vendor_id: s.vendor_id,
        device_id: s.device_id,
    }
}

impl ExtractConfig {
    /// Nothing has been filled in.
    pub open spec fn is_default(&self) -> bool {
        &&& self.model_path@.len() == 0
        &&& self.audio_path@.len() == 0
        &&& self.output_path@.len() == 0
        &&& self.output_format == ExtractFormat::Midi
        &&& self.device == ExtractDevice::Auto
        &&& !self.gpu_selector.any()
        &&& self.selected_gpu_index is None
        &&& self.chunk_parallelism == ChunkParallelism::Auto
        &&& self.max_chunk_seconds == DEFAULT_MAX_CHUNK_SECONDS
        &&& self.params() == default_params()
    }

    pub open spec fn params(&self) -> InferParams {
        InferParams {
            language: self.language,
            d3pm_t0: default_params().d3pm_t0,
            d3pm_nsteps: self.d3pm_nsteps,
            boundary_threshold: self.boundary_threshold,
            boundary_radius: self.boundary_radius,
            note_threshold: self.note_threshold,
            seed: self.seed,
        }
    }

    /// `r` asks for what the form says. On the CPU no adapter is asked for.
    pub open spec fn is_request(&self, path: PathView, r: ExtractRequest) -> bool {
        &&& r.model_path@ == trim(self.model_path@)
        &&& r.input_path@ == trim(self.audio_path@)
        &&& self.is_output(path, r.output)
        &&& r.device == self.device
        &&& if self.device == ExtractDevice::Cpu {
            !r.gpu.any()
        } else {
            same_adapter(r.gpu, self.gpu_selector)
        }
        &&& r.infer_params == self.params()
        &&& r.chunk_parallelism == self.chunk_parallelism
        &&& r.max_chunk_seconds == self.max_chunk_seconds
    }

    /// The form names this output: without the blanks around it, it is the path.
    pub open spec fn names_output(&self, path: PathView) -> bool {
        path.text == trim(self.output_path@)
    }

    /// `output` asks for a file where the form names one, in the format it says.
    pub open spec fn is_output(
        &self,
        path: PathView,
        output: Option<ExtractOutputRequest>,
    ) -> bool {
        match output {
            Some(o) => {
                &&& trim(self.output_path@).len() > 0
                &&& o.path@ == path
                &&& o.format == Some(self.output_format)
                &&& o.midi_options == (MidiWriteOptions {
                    tempo_bpm: 120,
                    velocity: 96,
                    ticks_per_qn: 480,
                })
                &&& o.text_options == (TextWriteOptions {
                    round_pitch: false,
                    use_pitch_names: false,
                })
            },
            None => trim(self.output_path@).len() == 0,
        }
    }

    /// The request that the form stands for; `path` is the output that it names.
    pub fn to_request(&self, path: &FilePath) -> (r: ExtractRequest)
        requires
            self.names_output(path@),
        ensures
            self.is_request(path@, r),
    {
        ExtractRequest {
            model_path: trim_string(&self.model_path),
            input_path: trim_string(&self.audio_path),
            output: self.output_request(path),
            device: self.device,
            gpu: if self.device == ExtractDevice::Cpu {
                GpuSelector::default()
            } else {
                copy_selector(&self.gpu_selector)
            },
            infer_params: InferParams {
                language: self.language,
                d3pm_t0: InferParams::default().d3pm_t0,
                d3pm_nsteps: self.d3pm_nsteps,
                boundary_threshold: self.boundary_threshold,
                boundary_radius: self.boundary_radius,
                note_threshold: self.note_threshold,
                seed: self.seed,
            },
            chunk_parallelism: self.chunk_parallelism,
            max_chunk_seconds: self.max_chunk_seconds,
        }
    }

    /// The file that the form asks for; `path` is the output that it names.
    pub fn output_request(&self, path: &FilePath) -> (output: Option<ExtractOutputRequest>)
        requires
            self.names_output(path@),
        ensures
            self.is_output(path@, output),
    {
        if path.text.as_str().is_empty() {
            return None;
        }
        Some(
            ExtractOutputRequest {
                path: path.duplicate(),
                format: Some(self.output_format),
                midi_options: MidiWriteOptions::default(),
                text_options: TextWriteOptions::default(),
            },
        )
    }

    /// What is wrong with the form, given whether the files are there.
    pub open spec fn complaint(&self, model_exists: bool, audio_exists: bool) -> Option<Seq<char>> {
        if trim(self.model_path@).len() == 0 {
            Some("Choose a GGUF model file."@)
        } else if !model_exists {
            Some("Model file does not exist: "@ + trim(self.model_path@))
        } else if trim(self.audio_path@).len() == 0 {
            Some("Choose a WAV audio file."@)
        } else if !audio_exists {
            Some("Audio file does not exist: "@ + trim(self.audio_path@))
        } else if self.d3pm_nsteps <= 0 {
            Some("D3PM steps must be greater than zero."@)
        } else if self.max_chunk_seconds == 0 {
            Some("Max chunk seconds must be greater than zero."@)
        } else if !(at_most(0, self.boundary_threshold) && at_most(self.boundary_threshold, ONE)) {
            Some("Boundary threshold must be between 0.0 and 1.0."@)
        } else if !(at_most(0, self.note_threshold) && at_most(self.note_threshold, ONE)) {
            Some("Note threshold must be between 0.0 and 1.0."@)
        } else if self.boundary_radius < 0 {
            Some("Boundary radius must be zero or greater."@)
        } else {
            None
        }
    }

    /// Checks the form; the arguments tell whether the files it names are there.
    pub fn validate(&self, model_exists: bool, audio_exists: bool) -> (r: Result<(), String>)
        ensures
            match r {
                Ok(_) => self.complaint(model_exists, audio_exists) is None,
                Err(text) => self.complaint(model_exists, audio_exists) == Some(text@),
            },
    {
        let model = trim_string(&self.model_path);
        if model.as_str().is_empty() {
            return Err(String::from_str("Choose a GGUF model file."));
        }
        if !model_exists {
            let mut text = String::from_str("Model file does not exist: ");
            text.append(&model);
            return Err(text);
        }
        let audio = trim_string(&self.audio_path);
        if audio.as_str().is_empty() {
            return Err(String::from_str("Choose a WAV audio file."));
        }
        if !audio_exists {
            let mut text = String::from_str("Audio file does not exist: ");
            text.append(&audio);
            return Err(text);
        }
        if self.d3pm_nsteps <= 0 {
            return Err(String::from_str("D3PM steps must be greater than zero."));
        }
        if self.max_chunk_seconds == 0 {
            return Err(String::from_str("Max chunk seconds must be greater than zero."));
        }
        if !in_unit_interval(self.boundary_threshold) {
            return Err(String::from_str("Boundary threshold must be between 0.0 and 1.0."));
        }
        if !in_unit_interval(self.note_threshold) {
            return Err(String::from_str("Note threshold must be between 0.0 and 1.0."));
        }
        if self.boundary_radius < 0 {
            return Err(String::from_str("Boundary radius must be zero or greater."));
        }
        Ok(())
    }
}

// ---------------------------------------------------------------------------
// What is shown of a run
// ---------------------------------------------------------------------------
/// An adapter that the user can choose.
#[derive(Debug)]
pub struct GpuAdapterChoice {
    pub name: String,
    pub backend: String,
    pub device_type: String,
    pub vendor_id: u32,
    pub device_id: u32,
}

#[derive(Debug)]
pub enum ChunkStatus {
    Pending,
    Running,
    Completed,
    Failed(String),
}

/// How far a chunk is.
#[derive(Debug)]
pub struct ChunkProgress {
    pub label: String,
    pub d3pm_current: usize,
    pub d3pm_total: usize,
    pub status: ChunkStatus,
}

#[derive(Debug, Clone, Copy, PartialEq, Eq, Structural)]
pub struct StageTiming {
    pub elapsed: Elapsed,
    pub completed: bool,
}

/// How long a stage took.
#[derive(Debug)]
pub struct StageEntry {
    pub stage: String,
    pub timing: StageTiming,
}

/// A line of the log and the time since the run began.
#[derive(Debug)]
pub struct GuiLogEntry {
    pub elapsed: Elapsed,
    pub level: GuiLogLevel,
    pub text: String,
}

pub ghost enum StatusView {
    Pending,
    Running,
    Completed,
    Failed(Seq<char>),
}

pub ghost struct ChunkView {
    pub label: Seq<char>,
    pub d3pm_current: int,
    pub d3pm_total: int,
    pub status: StatusView,
}

pub ghost struct LogView {
    pub elapsed: Elapsed,
    pub level: GuiLogLevel,
    pub text: Seq<char>,
}

impl View for ChunkStatus {
    type V = StatusView;

    open spec fn view(&self) -> StatusView {
        match *self {
            ChunkStatus::Pending => StatusView::Pending,
            ChunkStatus::Running => StatusView::Running,
            ChunkStatus::Completed => StatusView::Completed,
            ChunkStatus::Failed(text) => StatusView::Failed(text@),
        }
    }
}

impl View for ChunkProgress {
    type V = ChunkView;

    open spec fn view(&self) -> ChunkView {
        ChunkView {
            label: self.label@,
            d3pm_current: self.d3pm_current as int,
            d3pm_total: self.d3pm_total as int,
            status: self.status@,
        }
    }
}

impl View for GuiLogEntry {
    type V = LogView;

    open spec fn view(&self) -> LogView {
        LogView { elapsed: self.elapsed, level: self.level, text: self.text@ }
    }
}

pub open spec fn chunk_views(chunks: Seq<ChunkProgress>) -> Seq<ChunkView> {
    chunks.map_values(|c: ChunkProgress| c@)
}

pub open spec fn log_views(log: Seq<GuiLogEntry>) -> Seq<LogView> {
    log.map_values(|e: GuiLogEntry| e@)
}

/// The timings by the names of their stages.
pub open spec fn timing_map(entries: Seq<StageEntry>) -> Map<Seq<char>, StageTiming>
    decreases entries.len(),
{
    if entries.len() == 0 {
        Map::empty()
    } else {
        timing_map(entries.drop_last()).insert(entries.last().stage@, entries.last().timing)
    }
}

/// No stage has two timings.
pub open spec fn stages_distinct(entries: Seq<StageEntry>) -> bool {
    forall|i: int, j: int|
        0 <= i < j < entries.len() ==> (#[trigger] entries[i]).stage@ != (
        #[trigger] entries[j]).stage@
}

proof fn lemma_timing_at(entries: Seq<StageEntry>, i: int)
    requires
        stages_distinct(entries),
        0 <= i < entries.len(),
    ensures
        timing_map(entries).contains_key(entries[i].stage@),
        timing_map(entries)[entries[i].stage@] == entries[i].timing,
    decreases entries.len(),
{
    if i < entries.len() - 1 {
        lemma_timing_at(entries.drop_last(), i);
    }
}

proof fn lemma_timing_absent(entries: Seq<StageEntry>, stage: Seq<char>)
    requires
        forall|j: int| 0 <= j < entries.len() ==> (#[trigger] entries[j]).stage@ != stage,
    ensures
        !timing_map(entries).contains_key(stage),
    decreases entries.len(),
{
    if entries.len() > 0 {
        lemma_timing_absent(entries.drop_last(), stage);
    }
}

proof fn lemma_timing_replaced(before: Seq<StageEntry>, after: Seq<StageEntry>, i: int)
    requires
        stages_distinct(before),
        0 <= i < before.len() == after.len(),
        after[i].stage@ == before[i].stage@,
        forall|j: int| 0 <= j < before.len() && j != i ==> #[trigger] after[j] == before[j],
    ensures
        stages_distinct(after),
        timing_map(after) == timing_map(before).insert(before[i].stage@, after[i].timing),
    decreases before.len(),
{
    let b = before.drop_last();
    let a = after.drop_last();
    if i < before.len() - 1 {
        lemma_timing_replaced(b, a, i);
        assert(before.last().stage@ != before[i].stage@);
        assert(after.last() == before.last());
        assert(timing_map(after) =~= timing_map(before).insert(before[i].stage@, after[i].timing));
    } else {
        assert(a =~= b);
        assert(timing_map(after) =~= timing_map(before).insert(before[i].stage@, after[i].timing));
    }
}

/// Sets the timing of a stage.
fn set_timing(entries: &mut Vec<StageEntry>, stage: &str, timing: StageTiming)
    requires
        stages_distinct(old(entries)@),
    ensures
        stages_distinct(final(entries)@),
        timing_map(final(entries)@) == timing_map(old(entries)@).insert(stage@, timing),
{
    let mut i: usize = 0;
    while i < entries.len()
        invariant
            i <= entries.len(),
            entries@ == old(entries)@,
            stages_distinct(entries@),
            forall|j: int| 0 <= j < i ==> (#[trigger] entries@[j]).stage@ != stage@,
        decreases entries.len() - i,
    {
        if same_text(&entries[i].stage, stage) {
            let entry = StageEntry { stage: String::from_str(stage), timing };
            entries.set(i, entry);
            proof {
                lemma_timing_replaced(old(entries)@, entries@, i as int);
            }
            return ;
        }
        i += 1;
    }
    entries.push(StageEntry { stage: String::from_str(stage), timing });
    assert(entries@.drop_last() =~= old(entries)@);
}

/// Finds the timing of a stage.
pub fn find_timing(entries: &Vec<StageEntry>, stage: &str) -> (r: Option<StageTiming>)
    requires
        stages_distinct(entries@),
    ensures
        match r {
            Some(t) => timing_map(entries@).contains_key(stage@) && timing_map(entries@)[stage@] == t,
            None => !timing_map(entries@).contains_key(stage@),
        },
{
    let mut i: usize = 0;
    while i < entries.len()
        invariant
            i <= entries.len(),
            stages_distinct(entries@),
            forall|j: int| 0 <= j < i ==> (#[trigger] entries@[j]).stage@ != stage@,
        decreases entries.len() - i,
    {
        if same_text(&entries[i].stage, stage) {
            proof {
                lemma_timing_at(entries@, i as int);
            }
            return Some(entries[i].timing);
        }
        i += 1;
    }
    proof {
        lemma_timing_absent(entries@, stage@);
    }
    None
}

/// What is shown of a run.
#[verifier::ext_equal]
pub ghost struct RunView {
    pub overall_status: Seq<char>,
    pub overall_progress: Option<(int, int)>,
    pub chunks: Seq<ChunkView>,
    pub timings: Map<Seq<char>, StageTiming>,
    pub log: Seq<LogView>,
}

/// A chunk that has not begun.
pub open spec fn fresh_chunk(i: int, total: int, steps: int) -> ChunkView {
    ChunkView {
        label: "chunk "@ + decimal((i + 1) as nat) + "/"@ + decimal(total as nat),
        d3pm_current: 0,
        d3pm_total: steps,
        status: StatusView::Pending,
    }
}

pub open spec fn fresh_chunks(from: int, to: int, total: int, steps: int) -> Seq<ChunkView> {
    Seq::new((to - from) as nat, |k: int| fresh_chunk(from + k, total, steps))
}

/// The steps of a chunk: at least one.
pub open spec fn steps_of(nsteps: i32) -> int {
    if nsteps < 1 {
        1
    } else {
        nsteps as int
    }
}

pub open spec fn count_completed(chunks: Seq<ChunkView>) -> int
    decreases chunks.len(),
{
    if chunks.len() == 0 {
        0
    } else {
        count_completed(chunks.drop_last()) + if chunks.last().status is Completed {
            1int
        } else {
            0
        }
    }
}

impl RunView {
    /// The number of chunks is known.
    pub open spec fn with_chunks(self, total: int, steps: int) -> RunView {
        if self.chunks.len() == total && self.overall_progress is Some {
            self
        } else {
            RunView {
                chunks: fresh_chunks(0, total, total, steps),
                overall_progress: Some((0, total)),
                ..self
            }
        }
    }

    /// The completed chunks are counted.
    pub open spec fn counted(self) -> RunView {
        if self.chunks.len() == 0 {
            self
        } else {
            RunView {
                overall_progress: Some((count_completed(self.chunks), self.chunks.len() as int)),
                ..self
            }
        }
    }

    /// There is a chunk of this index.
    pub open spec fn with_chunk(self, index: int, steps: int) -> RunView {
        if index < self.chunks.len() {
            self
        } else {
            RunView {
                chunks: self.chunks + fresh_chunks(
                    self.chunks.len() as int,
                    index + 1,
                    index + 1,
                    steps,
                ),
                ..self
            }.counted()
        }
    }

    /// A line is added to the log, which keeps the last lines.
    pub open spec fn logged(self, event: EventView, elapsed: Elapsed, most: int) -> RunView {
        let log = self.log.push(
            LogView { elapsed, level: event_level(event), text: event_line(event) },
        );
        RunView {
            log: if log.len() > most {
                log.skip(log.len() - most)
            } else {
                log
            },
            ..self
        }
    }

    /// A status is told.
    pub open spec fn after_status(self, stage: Seq<char>, message: Seq<char>, steps: int) -> RunView {
        let v = RunView { overall_status: status_shown(stage, message), ..self };
        if stage == "extract_infer"@ {
            match count_before_chunk(words(message), 0) {
                Some(total) => v.with_chunks(total, steps),
                None => v,
            }
        } else if stage == "chunk_infer"@ {
            let (index, total) = match chunk_position(message) {
                Some(p) => p,
                None => (v.chunks.len() as int, 0),
            };
            let w = if total > 0 {
                v.with_chunks(total, steps)
            } else {
                v.with_chunk(index, steps)
            };
            if index < w.chunks.len() {
                RunView {
                    chunks: w.chunks.update(
                        index,
                        ChunkView { label: chunk_title(message), ..w.chunks[index] },
                    ),
                    ..w
                }
            } else {
                w
            }
        } else {
            v
        }
    }

    /// A chunk made a step.
    pub open spec fn after_step(self, index: int, current: int, total: int, steps: int) -> RunView {
        let v = self.with_chunk(index, steps);
        RunView {
            chunks: v.chunks.update(
                index,
                ChunkView {
                    label: v.chunks[index].label,
                    d3pm_current: current,
                    d3pm_total: total,
                    status: StatusView::Running,
                },
            ),
            overall_status: v.chunks[index].label + ": D3PM step "@ + decimal(current as nat) + "/"@
                + decimal(total as nat),
            ..v
        }.counted()
    }

    /// A stage ended.
    pub open spec fn after_timing(self, stage: Seq<char>, elapsed: Elapsed) -> RunView {
        RunView {
            timings: self.timings.insert(stage, StageTiming { elapsed, completed: true }),
            ..self
        }
    }

    /// A chunk is done: all its steps were made.
    pub open spec fn after_chunk(self, index: int, steps: int) -> RunView {
        let v = self.with_chunk(index, steps);
        let chunk = v.chunks[index];
        RunView {
            chunks: v.chunks.update(
                index,
                ChunkView {
                    d3pm_current: if chunk.d3pm_total > 0 {
                        chunk.d3pm_total
                    } else {
                        chunk.d3pm_current
                    },
                    status: StatusView::Completed,
                    ..chunk
                },
            ),
            ..v
        }.counted()
    }

    /// What is shown after an event.
    pub open spec fn after(self, event: EventView, elapsed: Elapsed, steps: int, most: int) -> RunView {
        let v = self.logged(event, elapsed, most);
        match event {
            EventView::Status { stage, message, .. } => v.after_status(stage, message, steps),
            EventView::Progress { stage, current, total, detail, .. } => if stage == "d3pm_step"@ {
                v.after_step(chunk_of(detail), current, total, steps)
            } else {
                v
            },
            EventView::Timing { stage, elapsed: took, detail, .. } => {
                let w = v.after_timing(stage, took);
                if stage == "chunk_infer"@ {
                    w.after_chunk(chunk_of(detail), steps)
                } else {
                    w
                }
            },
            EventView::ModelLoaded { elapsed: took, .. } => RunView {
                overall_status: "Model loaded"@,
                ..v.after_timing("model_load"@, took)
            },
            EventView::Message { level, message } => if level == NotificationLevel::Error {
                RunView { overall_status: message, ..v }
            } else {
                v
            },
            EventView::ChunkPlan { .. } => v,
        }
    }
}

/// The chunk that a detail names; the first where it names none.
pub open spec fn chunk_of(detail: Option<Seq<char>>) -> int {
    match detail {
        Some(text) => match chunk_index(text) {
            Some(index) => index,
            None => 0,
        },
        None => 0,
    }
}

fn find_chunk(detail: &Option<String>) -> (index: usize)
    ensures
        index == chunk_of(text_view(*detail)),
        index < usize::MAX,
{
    match detail {
        Some(text) => match parse_chunk_index(text) {
            Some(index) => index,
            None => 0,
        },
        None => 0,
    }
}

// ---------------------------------------------------------------------------
// The window
// ---------------------------------------------------------------------------
/// The log keeps so many lines.
pub const MAX_LOG_ENTRIES: usize = 500;

/// The state of the window.
#[derive(Debug)]
pub struct AppState<N> {
    pub current_page: AppPage,
    pub config: ExtractConfig,
    /// A run is at work in the background.
    pub extraction: bool,
    pub result: Option<ExtractResult<N>>,
    pub status_text: String,
    pub overall_status: String,
    pub is_running: bool,
    pub cancel_requested: bool,
    pub error_message: Option<String>,
    pub overall_progress: Option<(usize, usize)>,
    pub chunk_progress: Vec<ChunkProgress>,
    pub stage_timings: Vec<StageEntry>,
    pub event_log: Vec<GuiLogEntry>,
    pub max_log_entries: usize,
    pub gpu_adapters: Vec<GpuAdapterChoice>,
    pub gpu_adapters_loading: bool,
    pub gpu_adapter_error: Option<String>,
    pub cjk_font_missing: bool,
    pub font_notice_dismissed: bool,
}

pub open spec fn progress_view(p: Option<(usize, usize)>) -> Option<(int, int)> {
    match p {
        Some((done, total)) => Some((done as int, total as int)),
        None => None,
    }
}

/// What is shown before anything has happened.
pub open spec fn empty_run(overall_status: Seq<char>) -> RunView {
    RunView {
        overall_status,
        overall_progress: None,
        chunks: Seq::empty(),
        timings: Map::empty(),
        log: Seq::empty(),
    }
}

impl<N> AppState<N> {
    /// What is shown of the run.
    pub open spec fn run(&self) -> RunView {
        RunView {
            overall_status: self.overall_status@,
            overall_progress: progress_view(self.overall_progress),
            chunks: chunk_views(self.chunk_progress@),
            timings: timing_map(self.stage_timings@),
            log: log_views(self.event_log@),
        }
    }

    pub open spec fn well_formed(&self) -> bool {
        stages_distinct(self.stage_timings@)
    }

    /// Nothing but what is shown of the run differs.
    pub open spec fn same_but_run(&self, o: AppState<N>) -> bool {
        &&& self.current_page == o.current_page
        &&& self.same_inside(o)
        &&& self.result == o.result
        &&& self.status_text@ == o.status_text@
        &&& self.extraction == o.extraction
        &&& self.is_running == o.is_running
        &&& self.cancel_requested == o.cancel_requested
        &&& text_view(self.error_message) == text_view(o.error_message)
    }

    /// The form, the adapters and the settings are the same.
    pub open spec fn same_inside(&self, o: AppState<N>) -> bool {
        &&& self.config == o.config
        &&& self.same_settings(o)
    }

    /// The adapters and the settings are the same.
    pub open spec fn same_settings(&self, o: AppState<N>) -> bool {
        &&& self.max_log_entries == o.max_log_entries
        &&& self.gpu_adapters == o.gpu_adapters
        &&& self.gpu_adapters_loading == o.gpu_adapters_loading
        &&& self.gpu_adapter_error == o.gpu_adapter_error
        &&& self.cjk_font_missing == o.cjk_font_missing
        &&& self.font_notice_dismissed == o.font_notice_dismissed
    }

    pub open spec fn steps(&self) -> int {
        steps_of(self.config.d3pm_nsteps)
    }

    /// The state of a new window.
    pub fn new() -> (state: Self)
        ensures
            state.well_formed(),
            state.run() == empty_run("Ready"@),
            state.current_page == AppPage::Config,
            state.config.is_default(),
            !state.extraction && !state.is_running && !state.cancel_requested,
            state.result is None && state.error_message is None,
            state.status_text@.len() == 0,
            state.max_log_entries == MAX_LOG_ENTRIES,
            state.gpu_adapters.len() == 0,
            !state.gpu_adapters_loading && state.gpu_adapter_error is None,
            !state.cjk_font_missing && !state.font_notice_dismissed,
    {
        let state = AppState {
            current_page: AppPage::Config,
            config: ExtractConfig::default(),
            extraction: false,
            result: None,
            status_text: String::new(),
            overall_status: String::from_str("Ready"),
            is_running: false,
            cancel_requested: false,
            error_message: None,
            overall_progress: None,
            chunk_progress: Vec::new(),
            stage_timings: Vec::new(),
            event_log: Vec::new(),
            max_log_entries: MAX_LOG_ENTRIES,
            gpu_adapters: Vec::new(),
            gpu_adapters_loading: false,
            gpu_adapter_error: None,
            cjk_font_missing: false,
            font_notice_dismissed: false,
        };
        assert(state.run() =~= empty_run("Ready"@));
        state
    }

    // -----------------------------------------------------------------------
    // Events of the run
    // -----------------------------------------------------------------------
    fn count_steps(&self) -> (n: usize)
        ensures
            n == self.steps(),
    {
        if self.config.d3pm_nsteps < 1 {
            1
        } else {
            self.config.d3pm_nsteps as usize
        }
    }

    /// Adds fresh chunks until there are `to` of them.
    fn add_chunks(&mut self, to: usize, total: usize)
        requires
            old(self).well_formed(),
            old(self).chunk_progress.len() <= to,
            to <= total,
        ensures
            final(self).well_formed(),
            final(self).same_but_run(*old(self)),
            final(self).run() == (RunView {
                chunks: old(self).run().chunks + fresh_chunks(
                    old(self).chunk_progress.len() as int,
                    to as int,
                    total as int,
                    old(self).steps(),
                ),
                ..old(self).run()
            }),
    {
        let steps: usize = self.count_steps();
        let ghost before = *self;
        let ghost from = self.chunk_progress.len() as int;
        proof {
            assert(self.run().chunks =~= before.run().chunks + fresh_chunks(
                from,
                from,
                total as int,
                before.steps(),
            ));
            assert(self.run() =~= RunView {
                chunks: before.run().chunks + fresh_chunks(
                    from,
                    from,
                    total as int,
                    before.steps(),
                ),
                ..before.run()
            });
        }
        while self.chunk_progress.len() < to
            invariant
                from <= self.chunk_progress.len() <= to <= total,
                self.well_formed(),
                self.same_but_run(before),
                steps == before.steps(),
                self.run() == (RunView {
                    chunks: before.run().chunks + fresh_chunks(
                        from,
                        self.chunk_progress.len() as int,
                        total as int,
                        before.steps(),
                    ),
                    ..before.run()
                }),
                before.run().chunks.len() == from,
            decreases to - self.chunk_progress.len(),
        {
            let ghost had = self.run();
            let ghost n = self.chunk_progress.len() as int;
            let mut label = String::from_str("chunk ");
            push_decimal(&mut label, (self.chunk_progress.len() + 1) as u64);
            label.append("/");
            push_decimal(&mut label, total as u64);
            self.chunk_progress.push(
                ChunkProgress {
                    label,
                    d3pm_current: 0,
                    d3pm_total: steps,
                    status: ChunkStatus::Pending,
                },
            );
            proof {
                assert(self.run().chunks =~= had.chunks.push(
                    fresh_chunk(n, total as int, before.steps()),
                ));
                assert(fresh_chunks(from, n + 1, total as int, before.steps()) =~= fresh_chunks(
                    from,
                    n,
                    total as int,
                    before.steps(),
                ).push(fresh_chunk(n, total as int, before.steps())));
                assert(self.run().chunks =~= before.run().chunks + fresh_chunks(
                    from,
                    n + 1,
                    total as int,
                    before.steps(),
                ));
            }
        }
    }

    /// Sets the number of chunks.
    pub fn init_chunks(&mut self, total: usize)
        requires
            old(self).well_formed(),
        ensures
            final(self).well_formed(),
            final(self).same_but_run(*old(self)),
            final(self).run() == old(self).run().with_chunks(total as int, old(self).steps()),
    {
        if self.chunk_progress.len() == total && self.overall_progress.is_some() {
            return ;
        }
        let ghost before = self.run();
        let ghost steps = self.steps();
        self.chunk_progress = Vec::new();
        self.add_chunks(total, total);
        self.overall_progress = Some((0, total));
        proof {
            assert(self.run().chunks =~= fresh_chunks(0, total as int, total as int, steps));
            assert(self.run() =~= before.with_chunks(total as int, steps));
        }
    }

    /// Counts the chunks that are done.
    pub fn update_overall_completed(&mut self)
        requires
            old(self).well_formed(),
        ensures
            final(self).well_formed(),
            final(self).same_but_run(*old(self)),
            final(self).run() == old(self).run().counted(),
            final(self).chunk_progress == old(self).chunk_progress,
    {
        if self.chunk_progress.len() == 0 {
            return ;
        }
        let ghost views = self.run().chunks;
        let mut completed: usize = 0;
        let mut i: usize = 0;
        while i < self.chunk_progress.len()
            invariant
                i <= self.chunk_progress.len(),
                *self == *old(self),
                views == chunk_views(self.chunk_progress@),
                completed == count_completed(views.take(i as int)),
                completed <= i,
            decreases self.chunk_progress.len() - i,
        {
            assert(views.take(i as int + 1).drop_last() =~= views.take(i as int));
            assert(views[i as int] == self.chunk_progress@[i as int]@);
            if let ChunkStatus::Completed = self.chunk_progress[i].status {
                completed += 1;
            }
            i += 1;
        }
        assert(views.take(i as int) =~= views);
        self.overall_progress = Some((completed, self.chunk_progress.len()));
        assert(self.run() =~= old(self).run().counted());
    }

    /// Makes sure that there is a chunk of this index.
    pub fn ensure_chunk(&mut self, index: usize)
        requires
            old(self).well_formed(),
            index < usize::MAX,
        ensures
            final(self).well_formed(),
            final(self).same_but_run(*old(self)),
            final(self).run() == old(self).run().with_chunk(index as int, old(self).steps()),
            final(self).chunk_progress.len() > index,
    {
        if index < self.chunk_progress.len() {
            return ;
        }
        self.add_chunks(index + 1, index + 1);
        self.update_overall_completed();
    }

    /// Adds a line to the log, which keeps the last lines.
    pub fn append_log(&mut self, event: &CoreEvent, elapsed: Elapsed)
        requires
            old(self).well_formed(),
        ensures
            final(self).well_formed(),
            final(self).same_but_run(*old(self)),
            final(self).chunk_progress == old(self).chunk_progress,
            final(self).run() == old(self).run().logged(
                event@,
                elapsed,
                old(self).max_log_entries as int,
            ),
    {
        let ghost before = self.run();
        let text = format_event(event);
        let level = GuiLogLevel::from_event(event);
        self.event_log.push(GuiLogEntry { elapsed, level, text });
        let ghost log = self.event_log@;
        let ghost had = *self;
        let ghost mut dropped: int = 0;
        assert(log.skip(0) =~= log);
        while self.event_log.len() > self.max_log_entries
            invariant
                0 <= dropped,
                dropped == 0 || log.len() - dropped >= self.max_log_entries,
                dropped <= log.len(),
                self.event_log@ == log.skip(dropped),
                self.well_formed(),
                self.same_but_run(had),
                self.run() == (RunView { log: log_views(log.skip(dropped)), ..had.run() }),
                self.chunk_progress == had.chunk_progress,
                self.max_log_entries == had.max_log_entries,
            decreases self.event_log.len(),
        {
            let ghost prior = self.event_log@;
            let _ = self.event_log.remove(0);
            proof {
                dropped = dropped + 1;
                assert(self.event_log@ =~= log.skip(dropped));
            }
        }
        proof {
            let most = self.max_log_entries as int;
            assert(log_views(log) =~= before.log.push(
                LogView { elapsed, level: event_level(event@), text: event_line(event@) },
            ));
            if log.len() > most {
                assert(dropped == log.len() - most);
            } else {
                assert(dropped == 0);
            }
            assert(log_views(log.skip(dropped)) =~= log_views(log).skip(dropped));
            assert(log_views(log).skip(0) =~= log_views(log));
            assert(self.run() =~= before.logged(event@, elapsed, most));
        }
    }

    fn show_status(&mut self, stage: &'static str, message: &String)
        requires
            old(self).well_formed(),
            old(self).chunk_progress.len() < usize::MAX,
        ensures
            final(self).well_formed(),
            final(self).same_but_run(*old(self)),
            final(self).run() == old(self).run().after_status(stage@, message@, old(self).steps()),
    {
        let ghost first = self.run();
        let ghost steps = self.steps();
        self.overall_status = friendly_status(stage, message);
        let ghost v = RunView { overall_status: status_shown(stage@, message@), ..first };
        assert(self.run() =~= v);
        if same_text(stage, "extract_infer") {
            if let Some(total) = parse_chunk_count_from_message(message) {
                self.init_chunks(total);
            }
        } else if same_text(stage, "chunk_infer") {
            let (index, total): (usize, usize) = match parse_chunk_position(message) {
                Some(p) => p,
                None => (self.chunk_progress.len(), 0),
            };
            if total > 0 {
                self.init_chunks(total);
            } else {
                self.ensure_chunk(index);
            }
            let ghost w = self.run();
            if index < self.chunk_progress.len() {
                self.chunk_progress[index].label = format_chunk_status(message);
                assert(self.run().chunks =~= w.chunks.update(
                    index as int,
                    ChunkView { label: chunk_title(message@), ..w.chunks[index as int] },
                ));
            }
            assert(self.run() =~= first.after_status(stage@, message@, steps));
        }
    }

    fn show_step(&mut self, index: usize, current: usize, total: usize)
        requires
            old(self).well_formed(),
            index < usize::MAX,
        ensures
            final(self).well_formed(),
            final(self).same_but_run(*old(self)),
            final(self).run() == old(self).run().after_step(
                index as int,
                current as int,
                total as int,
                old(self).steps(),
            ),
    {
        self.ensure_chunk(index);
        let ghost v = self.run();
        assert(v.chunks[index as int] == self.chunk_progress@[index as int]@);
        self.chunk_progress[index].d3pm_current = current;
        self.chunk_progress[index].d3pm_total = total;
        self.chunk_progress[index].status = ChunkStatus::Running;
        let mut text = String::from_str(self.chunk_progress[index].label.as_str());
        text.append(": D3PM step ");
        push_decimal(&mut text, current as u64);
        text.append("/");
        push_decimal(&mut text, total as u64);
        self.overall_status = text;
        assert(self.run().chunks =~= v.chunks.update(
            index as int,
            ChunkView {
                label: v.chunks[index as int].label,
                d3pm_current: current as int,
                d3pm_total: total as int,
                status: StatusView::Running,
            },
        ));
        self.update_overall_completed();
    }

    fn show_timing(&mut self, stage: &'static str, elapsed: Elapsed)
        requires
            old(self).well_formed(),
        ensures
            final(self).well_formed(),
            final(self).same_but_run(*old(self)),
            final(self).chunk_progress == old(self).chunk_progress,
            final(self).run() == old(self).run().after_timing(stage@, elapsed),
    {
        set_timing(&mut self.stage_timings, stage, StageTiming { elapsed, completed: true });
    }

    fn show_chunk_done(&mut self, index: usize)
        requires
            old(self).well_formed(),
            index < usize::MAX,
        ensures
            final(self).well_formed(),
            final(self).same_but_run(*old(self)),
            final(self).run() == old(self).run().after_chunk(index as int, old(self).steps()),
    {
        self.ensure_chunk(index);
        let ghost v = self.run();
        assert(v.chunks[index as int] == self.chunk_progress@[index as int]@);
        let total: usize = self.chunk_progress[index].d3pm_total;
        if total > 0 {
            self.chunk_progress[index].d3pm_current = total;
        }
        self.chunk_progress[index].status = ChunkStatus::Completed;
        proof {
            let chunk = v.chunks[index as int];
            assert(self.run().chunks =~= v.chunks.update(
                index as int,
                ChunkView {
                    d3pm_current: if chunk.d3pm_total > 0 {
                        chunk.d3pm_total
                    } else {
                        chunk.d3pm_current
                    },
                    status: StatusView::Completed,
                    ..chunk
                },
            ));
        }
        self.update_overall_completed();
    }

    /// Takes in an event that came `elapsed` after the run began.
    pub fn handle_event(&mut self, event: &CoreEvent, elapsed: Elapsed)
        requires
            old(self).well_formed(),
            old(self).chunk_progress.len() < usize::MAX,
        ensures
            final(self).well_formed(),
            final(self).same_but_run(*old(self)),
            final(self).run() == old(self).run().after(
                event@,
                elapsed,
                old(self).steps(),
                old(self).max_log_entries as int,
            ),
    {
        self.append_log(event, elapsed);
        match event {
            CoreEvent::Status { stage, message, .. } => {
                self.show_status(stage, message);
            },
            CoreEvent::Progress { stage, current, total, detail, .. } => {
                if same_text(stage, "d3pm_step") {
                    let index: usize = find_chunk(detail);
                    self.show_step(index, *current, *total);
                }
            },
            CoreEvent::Timing { stage, elapsed: took, detail, .. } => {
                self.show_timing(stage, *took);
                if same_text(stage, "chunk_infer") {
                    let index: usize = find_chunk(detail);
                    self.show_chunk_done(index);
                }
            },
            CoreEvent::ModelLoaded { elapsed: took, .. } => {
                self.show_timing("model_load", *took);
                self.overall_status = String::from_str("Model loaded");
            },
            CoreEvent::Message { level, message } => {
                if *level == NotificationLevel::Error {
                    self.overall_status = String::from_str(message);
                }
            },
            CoreEvent::ChunkPlan { .. } => {},
        }
    }

    // -----------------------------------------------------------------------
    // Beginning and end of a run
    // -----------------------------------------------------------------------
    /// Forgets a run.
    pub fn clear_run_state(&mut self)
        requires
            old(self).well_formed(),
        ensures
            final(self).well_formed(),
            final(self).run() == empty_run(old(self).overall_status@),
            !final(self).extraction && final(self).result is None,
            final(self).same_inside(*old(self)),
            final(self).current_page == old(self).current_page,
            final(self).status_text == old(self).status_text,
            final(self).is_running == old(self).is_running,
            final(self).cancel_requested == old(self).cancel_requested,
            final(self).error_message == old(self).error_message,
    {
        self.extraction = false;
        self.result = None;
        self.overall_progress = None;
        self.chunk_progress = Vec::new();
        self.stage_timings = Vec::new();
        self.event_log = Vec::new();
        assert(self.run() =~= empty_run(self.overall_status@));
    }

    /// Begins a run, if none is on and the form is in order; the arguments tell
    /// whether the files it names are there. Says whether the work is to begin.
    pub fn start_extraction(&mut self, model_exists: bool, audio_exists: bool) -> (started: bool)
        requires
            old(self).well_formed(),
        ensures
            final(self).well_formed(),
            final(self).same_inside(*old(self)),
            started == (!old(self).is_running && old(self).config.complaint(
                model_exists,
                audio_exists,
            ) is None),
            started ==> {
                &&& final(self).run() == empty_run("Starting extraction..."@)
                &&& final(self).current_page == AppPage::Progress
                &&& final(self).extraction && final(self).is_running
                &&& !final(self).cancel_requested
                &&& final(self).result is None
                &&& final(self).status_text@.len() == 0
                &&& final(self).error_message == old(self).error_message
            },
            !started ==> {
                &&& final(self).run() == old(self).run()
                &&& final(self).current_page == old(self).current_page
                &&& final(self).extraction == old(self).extraction
                &&& final(self).is_running == old(self).is_running
                &&& final(self).cancel_requested == old(self).cancel_requested
                &&& final(self).result == old(self).result
                &&& final(self).status_text == old(self).status_text
                &&& if old(self).is_running {
                    final(self).error_message == old(self).error_message
                } else {
                    text_view(final(self).error_message) == old(self).config.complaint(
                        model_exists,
                        audio_exists,
                    )
                }
            },
    {
        if self.is_running {
            return false;
        }
        if let Err(message) = self.config.validate(model_exists, audio_exists) {
            self.error_message = Some(message);
            return false;
        }
        self.clear_run_state();
        self.current_page = AppPage::Progress;
        self.is_running = true;
        self.cancel_requested = false;
        self.overall_status = String::from_str("Starting extraction...");
        self.status_text = String::new();
        self.extraction = true;
        true
    }

    /// Asks the run to stop, if one is on. Says whether the work is to be told.
    pub fn cancel_extraction(&mut self) -> (told: bool)
        requires
            old(self).well_formed(),
        ensures
            final(self).well_formed(),
            told == old(self).extraction,
            !told ==> *final(self) == *old(self),
            told ==> {
                &&& final(self).run() == (RunView {
                    overall_status: "Cancelling..."@,
                    ..old(self).run()
                })
                &&& final(self).status_text@
                    == "Cancellation requested. Waiting for the active chunk to finish."@
                &&& final(self).cancel_requested
                &&& final(self).same_inside(*old(self))
                &&& final(self).current_page == old(self).current_page
                &&& final(self).extraction == old(self).extraction
                &&& final(self).is_running == old(self).is_running
                &&& final(self).result == old(self).result
                &&& final(self).error_message == old(self).error_message
            },
    {
        if !self.extraction {
            return false;
        }
        self.cancel_requested = true;
        self.status_text = String::from_str(
            "Cancellation requested. Waiting for the active chunk to finish.",
        );
        self.overall_status = String::from_str("Cancelling...");
        true
    }

    /// Takes in how the run ended; `cancelled` tells whether it was asked to stop.
    pub fn check_completion(&mut self, outcome: RunOutcome<N>, cancelled: bool)
        requires
            old(self).well_formed(),
            old(self).extraction,
        ensures
            final(self).well_formed(),
            final(self).same_inside(*old(self)),
            !final(self).extraction && !final(self).is_running && !final(self).cancel_requested,
            match outcome {
                RunOutcome::Finished(result) => {
                    &&& final(self).run() == (RunView {
                        overall_status: "Extraction complete"@,
                        ..old(self).run()
                    })
                    &&& final(self).current_page == AppPage::Results
                    &&& final(self).result == Some(result)
                    &&& final(self).status_text@.len() == 0
                    &&& final(self).error_message == old(self).error_message
                },
                RunOutcome::Failed(error) => {
                    &&& final(self).run() == old(self).run()
                    &&& final(self).current_page == AppPage::Config
                    &&& final(self).result == old(self).result
                    &&& if cancelled {
                        final(self).status_text@ == "Extraction cancelled."@
                            && final(self).error_message is None
                    } else {
                        final(self).status_text@.len() == 0 && text_view(
                            final(self).error_message,
                        ) == Some(error@)
                    }
                },
                RunOutcome::Panicked => {
                    &&& final(self).run() == old(self).run()
                    &&& final(self).current_page == AppPage::Config
                    &&& final(self).result == old(self).result
                    &&& final(self).status_text@.len() == 0
                    &&& text_view(final(self).error_message) == Some("Extraction thread panicked"@)
                },
            },
    {
        self.extraction = false;
        self.is_running = false;
        self.cancel_requested = false;
        match outcome {
            RunOutcome::Finished(result) => {
                self.overall_status = String::from_str("Extraction complete");
                self.status_text = String::new();
                self.result = Some(result);
                self.current_page = AppPage::Results;
            },
            RunOutcome::Failed(error) => {
                if cancelled {
                    self.status_text = String::from_str("Extraction cancelled.");
                    self.error_message = None;
                } else {
                    self.status_text = String::new();
                    self.error_message = Some(error.text);
                }
                self.current_page = AppPage::Config;
            },
            RunOutcome::Panicked => {
                self.status_text = String::new();
                self.error_message = Some(String::from_str("Extraction thread panicked"));
                self.current_page = AppPage::Config;
            },
        }
    }

    /// Goes back to the form, unless a run is on.
    pub fn reset_to_config(&mut self)
        requires
            old(self).well_formed(),
        ensures
            final(self).well_formed(),
            old(self).is_running ==> *final(self) == *old(self),
            !old(self).is_running ==> {
                &&& final(self).run() == empty_run("Ready"@)
                &&& final(self).same_inside(*old(self))
                &&& final(self).current_page == AppPage::Config
                &&& !final(self).extraction && !final(self).is_running
                &&& final(self).result is None
                &&& final(self).error_message is None
                &&& final(self).status_text@.len() == 0
                &&& final(self).cancel_requested == old(self).cancel_requested
            },
    {
        if self.is_running {
            return ;
        }
        self.clear_run_state();
        self.error_message = None;
        self.status_text = String::new();
        self.overall_status = String::from_str("Ready");
        self.current_page = AppPage::Config;
    }

    /// Puts the error away.
    pub fn clear_error(&mut self)
        ensures
            final(self).error_message is None && final(self).status_text@.len() == 0,
            final(self).run() == old(self).run(),
            final(self).same_inside(*old(self)),
            final(self).well_formed() == old(self).well_formed(),
            final(self).current_page == old(self).current_page,
            final(self).extraction == old(self).extraction,
            final(self).is_running == old(self).is_running,
            final(self).cancel_requested == old(self).cancel_requested,
            final(self).result == old(self).result,
    {
        self.error_message = None;
        self.status_text = String::new();
    }

    // -----------------------------------------------------------------------
    // The form
    // -----------------------------------------------------------------------
    /// Nothing but the form differs.
    pub open spec fn same_but_form(&self, o: AppState<N>) -> bool {
        &&& self.same_settings(o)
        &&& self.run() == o.run()
        &&& self.well_formed() == o.well_formed()
        &&& self.current_page == o.current_page
        &&& self.result == o.result
        &&& self.status_text == o.status_text
        &&& self.extraction == o.extraction
        &&& self.is_running == o.is_running
        &&& self.cancel_requested == o.cancel_requested
        &&& self.error_message == o.error_message
    }

    /// Takes a path to audio. Where no output is named yet, it stands beside the
    /// audio, as MIDI.
    pub fn set_audio_path(&mut self, path: &FilePath)
        ensures
            final(self).same_but_form(*old(self)),
            final(self).config.same_but_files(old(self).config),
            final(self).config.model_path == old(self).config.model_path,
            final(self).config.audio_path@ == path.text@,
            if trim(old(self).config.output_path@).len() == 0 {
                final(self).config.output_path@ == with_extension(path@, "mid"@).text
                    && final(self).config.output_format == ExtractFormat::Midi
            } else {
                final(self).config.output_path == old(self).config.output_path
                    && final(self).config.output_format == old(self).config.output_format
            },
    {
        self.config.audio_path = String::from_str(&path.text);
        if trim_string(&self.config.output_path).as_str().is_empty() {
            self.config.output_path = path.with_extension("mid").text;
            self.config.output_format = ExtractFormat::Midi;
        }
    }

    /// Takes a path to an output, and the format that it tells.
    pub fn set_output_path(&mut self, path: &FilePath)
        ensures
            final(self).same_but_form(*old(self)),
            final(self).config.same_but_files(old(self).config),
            final(self).config.model_path == old(self).config.model_path,
            final(self).config.audio_path == old(self).config.audio_path,
            final(self).config.output_path@ == path.text@,
            final(self).config.output_format == match format_of_path(path@) {
                Some(format) => format,
                None => old(self).config.output_format,
            },
    {
        self.config.output_path = String::from_str(&path.text);
        if let Some(format) = infer_extract_format(path) {
            self.config.output_format = format;
        }
    }

    /// The output path was typed, and now names `path`: the format follows it where it
    /// tells one.
    pub fn output_path_edited(&mut self, path: &FilePath)
        requires
            old(self).config.names_output(path@),
        ensures
            final(self).same_but_form(*old(self)),
            final(self).config.same_but_files(old(self).config),
            final(self).config.model_path == old(self).config.model_path,
            final(self).config.audio_path == old(self).config.audio_path,
            final(self).config.output_path == old(self).config.output_path,
            final(self).config.output_format == match format_of_path(path@) {
                Some(format) => format,
                None => old(self).config.output_format,
            },
    {
        if let Some(format) = infer_extract_format(path) {
            self.config.output_format = format;
        }
    }

    /// Takes a file that was dropped on the window: its extension tells what for.
    pub fn apply_dropped_path(&mut self, path: &FilePath)
        ensures
            final(self).same_but_form(*old(self)),
            final(self).config.same_but_files(old(self).config),
            match dropped_kind(path@) {
                DroppedKind::Model => {
                    &&& final(self).config.model_path@ == path.text@
                    &&& final(self).config.audio_path == old(self).config.audio_path
                    &&& final(self).config.output_path == old(self).config.output_path
                    &&& final(self).config.output_format == old(self).config.output_format
                },
                DroppedKind::Audio => {
                    &&& final(self).config.model_path == old(self).config.model_path
                    &&& final(self).config.audio_path@ == path.text@
                    &&& if trim(old(self).config.output_path@).len() == 0 {
                        final(self).config.output_path@ == with_extension(path@, "mid"@).text
                            && final(self).config.output_format == ExtractFormat::Midi
                    } else {
                        final(self).config.output_path == old(self).config.output_path
                            && final(self).config.output_format == old(self).config.output_format
                    }
                },
                DroppedKind::Output => {
                    &&& final(self).config.model_path == old(self).config.model_path
                    &&& final(self).config.audio_path == old(self).config.audio_path
                    &&& final(self).config.output_path@ == path.text@
                    &&& format_of_path(path@) == Some(final(self).config.output_format)
                },
                DroppedKind::Unknown => *final(self) == *old(self),
            },
    {
        let kind = match &path.extension {
            Some(ext) => kind_of_extension(&lowercase(ext)),
            None => DroppedKind::Unknown,
        };
        match kind {
            DroppedKind::Model => {
                self.config.model_path = String::from_str(&path.text);
            },
            DroppedKind::Audio => self.set_audio_path(path),
            DroppedKind::Output => self.set_output_path(path),
            DroppedKind::Unknown => {},
        }
    }

    // -----------------------------------------------------------------------
    // Adapters
    // -----------------------------------------------------------------------
    /// Nothing but the adapters and the choice among them differs.
    pub open spec fn same_but_adapters(&self, o: AppState<N>) -> bool {
        &&& self.run() == o.run()
        &&& self.well_formed() == o.well_formed()
        &&& self.config.same_but_adapter(o.config)
        &&& self.current_page == o.current_page
        &&& self.result == o.result
        &&& self.status_text == o.status_text
        &&& self.extraction == o.extraction
        &&& self.is_running == o.is_running
        &&& self.cancel_requested == o.cancel_requested
        &&& self.error_message == o.error_message
        &&& self.max_log_entries == o.max_log_entries
        &&& self.cjk_font_missing == o.cjk_font_missing
        &&& self.font_notice_dismissed == o.font_notice_dismissed
    }

    /// Lists the adapters anew, unless that is being done. Says whether to begin.
    pub fn refresh_gpu_adapters(&mut self) -> (begin: bool)
        ensures
            begin == !old(self).gpu_adapters_loading,
            final(self).gpu_adapters_loading,
            final(self).same_but_adapters(*old(self)),
            final(self).config == old(self).config,
            final(self).gpu_adapters == old(self).gpu_adapters,
            final(self).gpu_adapter_error == old(self).gpu_adapter_error,
    {
        if self.gpu_adapters_loading {
            return false;
        }
        self.gpu_adapters_loading = true;
        true
    }

    /// Lists the adapters once. Says whether to begin.
    pub fn ensure_gpu_adapter_refresh_started(&mut self) -> (begin: bool)
        ensures
            begin == (!old(self).gpu_adapters_loading && old(self).gpu_adapters.len() == 0),
            final(self).gpu_adapters_loading == (old(self).gpu_adapters_loading || begin),
            final(self).same_but_adapters(*old(self)),
            final(self).config == old(self).config,
            final(self).gpu_adapters == old(self).gpu_adapters,
            final(self).gpu_adapter_error == old(self).gpu_adapter_error,
    {
        if self.gpu_adapters_loading || self.gpu_adapters.len() > 0 {
            return false;
        }
        self.refresh_gpu_adapters()
    }

    /// Takes in what came of listing the adapters. A choice that is no longer there
    /// is dropped.
    pub fn poll_gpu_adapter_refresh(&mut self, reply: AdapterReply)
        ensures
            final(self).same_but_adapters(*old(self)),
            final(self).gpu_adapter_error == old(self).gpu_adapter_error,
            match reply {
                AdapterReply::Adapters(adapters) => {
                    &&& !final(self).gpu_adapters_loading
                    &&& final(self).gpu_adapters == adapters
                    &&& match old(self).config.selected_gpu_index {
                        Some(index) if index >= adapters.len() => {
                            final(self).config.selected_gpu_index is None
                                && !final(self).config.gpu_selector.any()
                        },
                        _ => final(self).config == old(self).config,
                    }
                },
                AdapterReply::Pending => *final(self) == *old(self),
                AdapterReply::Lost => {
                    &&& !final(self).gpu_adapters_loading
                    &&& final(self).gpu_adapters == old(self).gpu_adapters
                    &&& final(self).config == old(self).config
                },
            },
    {
        match reply {
            AdapterReply::Adapters(adapters) => {
                self.gpu_adapters = adapters;
                self.gpu_adapters_loading = false;
                if let Some(index) = self.config.selected_gpu_index {
                    if index >= self.gpu_adapters.len() {
                        self.choose_any_adapter();
                    }
                }
            },
            AdapterReply::Pending => {},
            AdapterReply::Lost => {
                self.gpu_adapters_loading = false;
            },
        }
    }

    /// Takes any adapter.
    pub fn choose_any_adapter(&mut self)
        ensures
            final(self).same_but_adapters(*old(self)),
            final(self).same_settings(*old(self)),
            final(self).config.selected_gpu_index is None,
            !final(self).config.gpu_selector.any(),
    {
        self.config.selected_gpu_index = None;
        self.config.gpu_selector = GpuSelector::default();
    }

    /// Takes one of the listed adapters.
    pub fn choose_adapter(&mut self, index: usize)
        requires
            index < old(self).gpu_adapters.len(),
        ensures
            final(self).same_but_adapters(*old(self)),
            final(self).same_settings(*old(self)),
            final(self).config.selected_gpu_index == Some(index),
            text_view(final(self).config.gpu_selector.name_substring) == Some(
                old(self).gpu_adapters@[index as int].name@,
            ),
            final(self).config.gpu_selector.vendor_id == Some(
                old(self).gpu_adapters@[index as int].vendor_id,
            ),
            final(self).config.gpu_selector.device_id == Some(
                old(self).gpu_adapters@[index as int].device_id,
            ),
    {
        let adapter: &GpuAdapterChoice = &self.gpu_adapters[index];
        let selector = GpuSelector {
            name_substring: Some(String::from_str(&adapter.name)),
            vendor_id: Some(adapter.vendor_id),
            device_id: Some(adapter.device_id),
        };
        self.config.selected_gpu_index = Some(index);
        self.config.gpu_selector = selector;
    }
}

/// How the work of a run ended.
#[derive(Debug)]
pub enum RunOutcome<N> {
    Finished(ExtractResult<N>),
    Failed(Error),
    Panicked,
}

/// What came of listing the adapters.
#[derive(Debug)]
pub enum AdapterReply {
    Adapters(Vec<GpuAdapterChoice>),
    /// Nothing yet.
    Pending,
    /// Nothing will come.
    Lost,
}

/// What a dropped file is taken for.
#[derive(Debug, Clone, Copy, PartialEq, Eq, Structural)]
pub enum DroppedKind {
    Model,
    Audio,
    Output,
    Unknown,
}

pub open spec fn kind_by_extension(ext: Seq<char>) -> DroppedKind {
    if ext == "gguf"@ {
        DroppedKind::Model
    } else if ext == "wav"@ {
        DroppedKind::Audio
    } else if ext == "mid"@ || ext == "midi"@ || ext == "txt"@ || ext == "csv"@ {
        DroppedKind::Output
    } else {
        DroppedKind::Unknown
    }
}

/// What a file of this path is taken for.
pub open spec fn dropped_kind(path: PathView) -> DroppedKind {
    match path.extension {
        Some(ext) => kind_by_extension(ascii_lowercase(ext)),
        None => DroppedKind::Unknown,
    }
}

fn kind_of_extension(ext: &str) -> (kind: DroppedKind)
    ensures
        kind == kind_by_extension(ext@),
{
    if same_text(ext, "gguf") {
        DroppedKind::Model
    } else if same_text(ext, "wav") {
        DroppedKind::Audio
    } else if same_text(ext, "mid") || same_text(ext, "midi") || same_text(ext, "txt") || same_text(
        ext,
        "csv",
    ) {
        DroppedKind::Output
    } else {
        DroppedKind::Unknown
    }
}

impl ExtractConfig {
    /// Nothing but the files and the format differs.
    pub open spec fn same_but_files(&self, o: ExtractConfig) -> bool {
        &&& self.device == o.device
        &&& self.gpu_selector == o.gpu_selector
        &&& self.selected_gpu_index == o.selected_gpu_index
        &&& self.chunk_parallelism == o.chunk_parallelism
        &&& self.max_chunk_seconds == o.max_chunk_seconds
        &&& self.params() == o.params()
    }

    /// Nothing but the adapter differs.
    pub open spec fn same_but_adapter(&self, o: ExtractConfig) -> bool {
        &&& self.model_path == o.model_path
        &&& self.audio_path == o.audio_path
        &&& self.output_path == o.output_path
        &&& self.output_format == o.output_format
        &&& self.device == o.device
        &&& self.chunk_parallelism == o.chunk_parallelism
        &&& self.max_chunk_seconds == o.max_chunk_seconds
        &&& self.params() == o.params()
    }
}

// ---------------------------------------------------------------------------
// Laws
// ---------------------------------------------------------------------------
/// The overall progress counts the completed chunks among all.
pub open spec fn progress_is_true(v: RunView) -> bool {
    match v.overall_progress {
        Some((done, total)) => total == v.chunks.len() && done == count_completed(v.chunks),
        None => v.chunks.len() == 0,
    }
}

proof fn lemma_fresh_not_completed(chunks: Seq<ChunkView>)
    requires
        forall|i: int| 0 <= i < chunks.len() ==> (#[trigger] chunks[i]).status is Pending,
    ensures
        count_completed(chunks) == 0,
    decreases chunks.len(),
{
    if chunks.len() > 0 {
        lemma_fresh_not_completed(chunks.drop_last());
    }
}

proof fn lemma_same_completed(a: Seq<ChunkView>, b: Seq<ChunkView>)
    requires
        a.len() == b.len(),
        forall|i: int|
            0 <= i < a.len() ==> (#[trigger] a[i]).status is Completed == b[i].status is Completed,
    ensures
        count_completed(a) == count_completed(b),
    decreases a.len(),
{
    if a.len() > 0 {
        lemma_same_completed(a.drop_last(), b.drop_last());
        assert(a[a.len() - 1].status is Completed == b[b.len() - 1].status is Completed);
    }
}

proof fn lemma_completed_at_most(chunks: Seq<ChunkView>)
    ensures
        0 <= count_completed(chunks) <= chunks.len(),
    decreases chunks.len(),
{
    if chunks.len() > 0 {
        lemma_completed_at_most(chunks.drop_last());
    }
}

proof fn lemma_chunks_known(v: RunView, total: int, steps: int)
    requires
        progress_is_true(v),
        total >= 0,
    ensures
        progress_is_true(v.with_chunks(total, steps)),
{
    lemma_fresh_not_completed(fresh_chunks(0, total, total, steps));
}

/// Whatever event comes, the overall progress counts the completed chunks among all,
/// and never more of them than there are.
pub proof fn law_progress_counts_completed_chunks(
    v: RunView,
    event: EventView,
    elapsed: Elapsed,
    steps: int,
    most: int,
)
    requires
        progress_is_true(v),
        most >= 0,
    ensures
        progress_is_true(v.after(event, elapsed, steps, most)),
        v.after(event, elapsed, steps, most).overall_progress matches Some((done, total)) ==> 0
            <= done <= total,
{
    let w = v.logged(event, elapsed, most);
    match event {
        EventView::Status { stage, message, .. } => {
            let s = RunView { overall_status: status_shown(stage, message), ..w };
            if stage == "extract_infer"@ {
                match count_before_chunk(words(message), 0) {
                    Some(total) => {
                        lemma_counts_are_not_negative(words(message), 0);
                        lemma_chunks_known(s, total, steps);
                    },
                    None => {},
                }
            } else if stage == "chunk_infer"@ {
                let (index, total) = match chunk_position(message) {
                    Some(p) => p,
                    None => (s.chunks.len() as int, 0),
                };
                if total > 0 {
                    lemma_chunks_known(s, total, steps);
                }
                let x = if total > 0 {
                    s.with_chunks(total, steps)
                } else {
                    s.with_chunk(index, steps)
                };
                if 0 <= index < x.chunks.len() {
                    lemma_same_completed(
                        x.chunks,
                        x.chunks.update(
                            index,
                            ChunkView { label: chunk_title(message), ..x.chunks[index] },
                        ),
                    );
                }
            }
        },
        _ => {},
    }
    lemma_completed_at_most(v.after(event, elapsed, steps, most).chunks);
}

proof fn lemma_counts_are_not_negative(ws: Seq<Seq<char>>, i: int)
    ensures
        count_before_chunk(ws, i) matches Some(n) ==> n >= 0,
    decreases ws.len() - i,
{
    if 0 <= i < ws.len() {
        lemma_counts_are_not_negative(ws, i + 1);
        if i > 0 {
            let digits = without_plus(ws[i - 1]);
            lemma_read_digits(digits, digits.len() as int, 10, usize::MAX as int);
        }
    }
}

/// The log never holds more lines than it may.
pub proof fn law_log_is_bounded(
    v: RunView,
    event: EventView,
    elapsed: Elapsed,
    steps: int,
    most: int,
)
    requires
        v.log.len() <= most,
    ensures
        v.after(event, elapsed, steps, most).log.len() <= most,
{
}

/// The lines of the log after one more: the new line is the last, the lines before it are
/// kept in their order, and the oldest are dropped where there would be more than `most`.
pub open spec fn is_log_with(
    log: Seq<LogView>,
    before: Seq<LogView>,
    line: LogView,
    most: int,
) -> bool {
    &&& before.len() < most ==> log == before.push(line)
    &&& before.len() >= most > 0 ==> {
        &&& log.len() == most
        &&& log.last() == line
        &&& log.drop_last() == before.skip(before.len() - (most - 1))
    }
}

/// Whatever the event, one line of it is added to the log, at the time it came; and the
/// times of stages change only for the stage that an event says has ended.
pub proof fn law_every_event_is_logged(
    v: RunView,
    event: EventView,
    elapsed: Elapsed,
    steps: int,
    most: int,
)
    requires
        v.log.len() <= most,
    ensures
        ({
            let w = v.after(event, elapsed, steps, most);
            &&& is_log_with(
                w.log,
                v.log,
                LogView { elapsed, level: event_level(event), text: event_line(event) },
                most,
            )
            &&& match event {
                EventView::Timing { stage, elapsed: took, .. } => w.timings == v.timings.insert(
                    stage,
                    StageTiming { elapsed: took, completed: true },
                ),
                EventView::ModelLoaded { elapsed: took, .. } => w.timings == v.timings.insert(
                    "model_load"@,
                    StageTiming { elapsed: took, completed: true },
                ),
                _ => w.timings == v.timings,
            }
        }),
{
    let line = LogView { elapsed, level: event_level(event), text: event_line(event) };
    let all = v.log.push(line);
    let w = v.after(event, elapsed, steps, most);
    if v.log.len() >= most && most > 0 {
        let kept = all.skip(all.len() - most);
        assert(kept.drop_last() =~= v.log.skip(v.log.len() - (most - 1)));
        assert(kept.last() == line);
    }
}

/// A step of a chunk shows on that chunk alone: it is running, at that step, under the label
/// it had, which the status line names with the step.
pub proof fn law_steps_show_on_their_chunk(
    v: RunView,
    index: nat,
    count: nat,
    rest: Seq<char>,
    current: int,
    total: int,
    chunk: Option<ChunkContext>,
    elapsed: Elapsed,
    steps: int,
    most: int,
)
    requires
        index < v.chunks.len(),
        index < usize::MAX,
        count <= usize::MAX,
        rest.len() == 0 || !is_digit(rest[0]),
    ensures
        ({
            let w = v.after(
                EventView::Progress {
                    stage: "d3pm_step"@,
                    current,
                    total,
                    detail: Some(chunk_label_text(index as int, count as int) + rest),
                    chunk,
                },
                elapsed,
                steps,
                most,
            );
            let at = index as int;
            &&& w.chunks.len() == v.chunks.len()
            &&& w.chunks[at].status is Running
            &&& w.chunks[at].d3pm_current == current
            &&& w.chunks[at].d3pm_total == total
            &&& w.chunks[at].label == v.chunks[at].label
            &&& w.overall_status == v.chunks[at].label + ": D3PM step "@ + decimal(current as nat)
                + "/"@ + decimal(total as nat)
            &&& forall|i: int|
                0 <= i < v.chunks.len() && i != at ==> #[trigger] w.chunks[i] == v.chunks[i]
        }),
{
    law_chunk_labels_are_read_back(index, count, rest);
}

/// The end of a chunk shows on that chunk alone: it is completed and stands at its last
/// step, under the label it had. The status line stays.
pub proof fn law_ends_show_on_their_chunk(
    v: RunView,
    index: nat,
    count: nat,
    rest: Seq<char>,
    took: Elapsed,
    chunk: Option<ChunkContext>,
    elapsed: Elapsed,
    steps: int,
    most: int,
)
    requires
        index < v.chunks.len(),
        index < usize::MAX,
        count <= usize::MAX,
        rest.len() == 0 || !is_digit(rest[0]),
    ensures
        ({
            let w = v.after(
                EventView::Timing {
                    stage: "chunk_infer"@,
                    elapsed: took,
                    detail: Some(chunk_label_text(index as int, count as int) + rest),
                    chunk,
                },
                elapsed,
                steps,
                most,
            );
            let at = index as int;
            &&& w.chunks.len() == v.chunks.len()
            &&& w.chunks[at].status is Completed
            &&& v.chunks[at].d3pm_total > 0 ==> w.chunks[at].d3pm_current
                == v.chunks[at].d3pm_total
            &&& v.chunks[at].d3pm_total <= 0 ==> w.chunks[at].d3pm_current
                == v.chunks[at].d3pm_current
            &&& w.chunks[at].d3pm_total == v.chunks[at].d3pm_total
            &&& w.chunks[at].label == v.chunks[at].label
            &&& w.overall_status == v.overall_status
            &&& forall|i: int|
                0 <= i < v.chunks.len() && i != at ==> #[trigger] w.chunks[i] == v.chunks[i]
        }),
{
    law_chunk_labels_are_read_back(index, count, rest);
}

/// When inference begins, there are as many chunks as it says, all of them waiting at step
/// zero and labelled by their place; unless that many were shown already.
pub proof fn law_inference_begins_with_waiting_chunks(
    v: RunView,
    message: Seq<char>,
    ws: Seq<Seq<char>>,
    count: nat,
    last: Seq<char>,
    chunk: Option<ChunkContext>,
    elapsed: Elapsed,
    steps: int,
    most: int,
)
    requires
        words(message) == ws + seq![decimal(count), last],
        count <= usize::MAX,
        starts_with(last, "chunk"@),
        forall|k: int| 0 <= k < ws.len() ==> !starts_with(#[trigger] ws[k], "chunk"@),
        v.overall_progress is None || v.chunks.len() != count,
    ensures
        ({
            let w = v.after(
                EventView::Status { stage: "extract_infer"@, message, chunk },
                elapsed,
                steps,
                most,
            );
            &&& w.chunks.len() == count
            &&& w.overall_progress == Some((0int, count as int))
            &&& forall|i: int|
                0 <= i < count ==> {
                    &&& (#[trigger] w.chunks[i]).status is Pending
                    &&& w.chunks[i].d3pm_current == 0
                    &&& w.chunks[i].d3pm_total == steps
                    &&& w.chunks[i].label == "chunk "@ + decimal((i + 1) as nat) + "/"@ + decimal(
                        count,
                    )
                }
        }),
{
    law_chunk_counts_are_read_back(ws, count, last);
    reveal_strlit("extract_infer");
    reveal_strlit("chunk_infer");
}

/// A form is refused for the first thing that is missing or out of range, and for nothing
/// else.
pub proof fn law_good_forms_are_taken(
    c: ExtractConfig,
    model_exists: bool,
    audio_exists: bool,
)
    ensures
        c.complaint(model_exists, audio_exists) is None <==> {
            &&& trim(c.model_path@).len() > 0 && model_exists
            &&& trim(c.audio_path@).len() > 0 && audio_exists
            &&& c.d3pm_nsteps >= 1
            &&& c.max_chunk_seconds >= 1
            &&& at_most(0, c.boundary_threshold) && at_most(c.boundary_threshold, 0x3f80_0000)
            &&& at_most(0, c.note_threshold) && at_most(c.note_threshold, 0x3f80_0000)
            &&& c.boundary_radius >= 0
        },
{
}

/// What is dropped on the window goes by its extension, in letters of any size: a model, a
/// waveform, or an output in one of the formats.
pub proof fn law_dropped_files_go_by_extension(path: PathView)
    ensures
        path.extension is None ==> dropped_kind(path) == DroppedKind::Unknown,
        path.extension matches Some(ext) ==> {
            let ext = ascii_lowercase(ext);
            &&& dropped_kind(path) == DroppedKind::Model <==> ext == seq!['g', 'g', 'u', 'f']
            &&& dropped_kind(path) == DroppedKind::Audio <==> ext == seq!['w', 'a', 'v']
            &&& dropped_kind(path) == DroppedKind::Output <==> format_of_path(path) is Some
        },
{
    reveal_strlit("gguf");
    reveal_strlit("wav");
    reveal_strlit("mid");
    reveal_strlit("midi");
    reveal_strlit("txt");
    reveal_strlit("csv");
    assert("gguf"@ =~= seq!['g', 'g', 'u', 'f']);
    assert("wav"@ =~= seq!['w', 'a', 'v']);
    assert("gguf"@[0] == 'g');
    assert("wav"@[0] == 'w');
    assert("mid"@[0] == 'm');
    assert("midi"@[0] == 'm');
    assert("txt"@[0] == 't');
    assert("csv"@[0] == 'c');
}

/// A chunk that is not shown yet is added with all before it that are missing; those that
/// are shown stay, and the new ones wait at step zero under the label of their place.
pub proof fn law_missing_chunks_are_added(v: RunView, index: int, steps: int)
    requires
        0 <= index,
    ensures
        ({
            let w = v.with_chunk(index, steps);
            &&& index < v.chunks.len() ==> w == v
            &&& index >= v.chunks.len() ==> {
                &&& w.chunks.len() == index + 1
                &&& w.overall_progress matches Some((done, total)) && total == index + 1
                &&& forall|i: int|
                    0 <= i < v.chunks.len() ==> #[trigger] w.chunks[i] == v.chunks[i]
                &&& forall|i: int|
                    v.chunks.len() <= i <= index ==> {
                        &&& (#[trigger] w.chunks[i]).status is Pending
                        &&& w.chunks[i].d3pm_current == 0
                        &&& w.chunks[i].d3pm_total == steps
                        &&& w.chunks[i].label == "chunk "@ + decimal((i + 1) as nat) + "/"@
                            + decimal((index + 1) as nat)
                    }
            }
            &&& w.log == v.log && w.timings == v.timings && w.overall_status == v.overall_status
        }),
{
}

/// The beginning of a chunk titles that chunk alone; nothing else of the chunks changes
/// where as many are shown as there are.
pub proof fn law_beginnings_title_their_chunk(
    v: RunView,
    index: nat,
    rest: Seq<char>,
    chunk: Option<ChunkContext>,
    elapsed: Elapsed,
    steps: int,
    most: int,
)
    requires
        index < v.chunks.len(),
        v.chunks.len() <= usize::MAX,
        v.overall_progress is Some,
        rest.len() == 0 || !is_digit(rest[0]),
    ensures
        ({
            let message = chunk_label_text(index as int, v.chunks.len() as int) + rest;
            let w = v.after(
                EventView::Status { stage: "chunk_infer"@, message, chunk },
                elapsed,
                steps,
                most,
            );
            let at = index as int;
            &&& w.chunks.len() == v.chunks.len()
            &&& w.chunks[at] == (ChunkView { label: chunk_title(message), ..v.chunks[at] })
            &&& w.overall_status == chunk_title(message)
            &&& w.overall_progress == v.overall_progress
            &&& forall|i: int|
                0 <= i < v.chunks.len() && i != at ==> #[trigger] w.chunks[i] == v.chunks[i]
        }),
{
    law_chunk_labels_are_read_back(index, v.chunks.len(), rest);
    reveal_strlit("chunk_infer");
    reveal_strlit("extract_infer");
    reveal_strlit("model_load");
    reveal_strlit("audio_prepare");
    reveal_strlit("silence_slice");
    reveal_strlit("long_chunk_split");
    reveal_strlit("mel_setup");
    reveal_strlit("output_write");
    assert("chunk_infer"@[0] == 'c');
}

} // verus!
