//! Requests for extraction: their checks, the choice of format, device and
//! parallelism, and the seeds of chunks.
use vstd::prelude::*;
use vstd::string::*;

use crate::error::Error;
use crate::machine::{given_view, worker_threads};
use crate::midi_writer::MidiWriteOptions;
use crate::output::TextWriteOptions;
use crate::paths::{text_view, FilePath, PathView};
use crate::tensor::adapter::GpuAdapterSelector;
use crate::text::{
    ascii_lowercase, chars_of, decimal, law_decimal_is_read_back, lowercase, parse_u64,
    parse_unsigned, same_text,
};

verus! {

pub const DEFAULT_MAX_CHUNK_SECONDS: usize = 60;

/// Where a model runs.
#[derive(Debug, Clone, Copy, PartialEq, Eq, Structural)]
pub enum Backend {
    Cpu,
    Gpu,
}

/// Which device is wanted.
/// - `Auto`: the GPU if it can be had, the CPU otherwise.
/// - `Cpu`: the CPU alone.
/// - `Gpu`: the GPU; it is an error if it cannot be had.
#[derive(Debug, Clone, Copy, PartialEq, Eq, Structural)]
pub enum ExtractDevice {
    Auto,
    Cpu,
    Gpu,
}

impl Default for ExtractDevice {
    fn default() -> (d: Self)
        ensures
            d == ExtractDevice::Auto,
    {
        ExtractDevice::Auto
    }
}

/// Whether chunks are worked on side by side.
/// - `Auto`: where there are several chunks, the CPU and several threads.
/// - `On`: always; it is an error if that cannot be.
/// - `Off`: never.
#[derive(Debug, Clone, Copy, PartialEq, Eq, Structural)]
pub enum ChunkParallelism {
    Auto,
    On,
    Off,
}

impl Default for ChunkParallelism {
    fn default() -> (p: Self)
        ensures
            p == ChunkParallelism::Auto,
    {
        ChunkParallelism::Auto
    }
}

/// The format of an output file.
#[derive(Debug, Clone, Copy, PartialEq, Eq, Structural)]
pub enum ExtractFormat {
    Midi,
    Txt,
    Csv,
}

/// Which adapter is wanted: one that fits all fields that are given.
#[derive(Debug, Clone)]
pub struct GpuSelector {
    /// A part of the name, in whatever case.
    pub name_substring: Option<String>,
    pub vendor_id: Option<u32>,
    pub device_id: Option<u32>,
}

impl Default for GpuSelector {
    fn default() -> (s: Self)
        ensures
            !s.any(),
    {
        GpuSelector { name_substring: None, vendor_id: None, device_id: None }
    }
}

impl GpuSelector {
    pub open spec fn any(&self) -> bool {
        self.name_substring is Some || self.vendor_id is Some || self.device_id is Some
    }

    /// Whether any field is given.
    pub fn has_any(&self) -> (b: bool)
        ensures
            b == self.any(),
    {
        self.name_substring.is_some() || self.vendor_id.is_some() || self.device_id.is_some()
    }

    /// The selector for adapters, where any field is given.
    pub fn to_core_selector(&self) -> (r: Option<GpuAdapterSelector>)
        ensures
            r is Some == self.any(),
            r matches Some(s) ==> same_selection(*self, s),
    {
        if self.has_any() {
            Some(
                GpuAdapterSelector {
                    name_substring: match &self.name_substring {
                        Some(name) => Some(String::from_str(name)),
                        None => None,
                    },
                    vendor_id: self.vendor_id,
                    device_id: self.device_id,
                    backend: None,
                    device_type: None,
                },
            )
        } else {
            None
        }
    }
}

/// `s` asks for what `gpu` asks for, and nothing else.
pub open spec fn same_selection(gpu: GpuSelector, s: GpuAdapterSelector) -> bool {
    &&& text_view(s.name_substring) == text_view(gpu.name_substring)
    &&& s.vendor_id == gpu.vendor_id
    &&& s.device_id == gpu.device_id
    &&& s.backend is None
    &&& s.device_type is None
}

/// Where notes are written to, and how.
#[derive(Debug, Clone)]
pub struct ExtractOutputRequest {
    pub path: FilePath,
    pub format: Option<ExtractFormat>,
    pub midi_options: MidiWriteOptions,
    pub text_options: TextWriteOptions,
}

impl ExtractOutputRequest {
    /// The format that is asked for, or the one that the path tells.
    pub fn resolved_format(&self) -> (f: ExtractFormat)
        ensures
            f == format_for(self.format, self.path@),
    {
        resolve_extract_format(self.format, &self.path)
    }
}

/// How notes are found. Fractions are bit patterns of single-precision numbers.
#[derive(Debug, Clone, Copy, PartialEq, Eq, Structural)]
pub struct InferParams {
    pub language: i32,
    pub d3pm_t0: u32,
    pub d3pm_nsteps: i32,
    pub boundary_threshold: u32,
    pub boundary_radius: i32,
    pub note_threshold: u32,
    /// Zero stands for a random seed.
    pub seed: u64,
}

/// The bit pattern of one fifth.
pub const ONE_FIFTH: u32 = 0x3e4c_cccd;

pub open spec fn default_params() -> InferParams {
    InferParams {
        language: 0,
        d3pm_t0: 0,
        d3pm_nsteps: 1,
        boundary_threshold: ONE_FIFTH,
        boundary_radius: 2,
        note_threshold: ONE_FIFTH,
        seed: 0,
    }
}

impl Default for InferParams {
    fn default() -> (p: Self)
        ensures
            p == default_params(),
    {
        InferParams {
            language: 0,
            d3pm_t0: 0,
            d3pm_nsteps: 1,
            boundary_threshold: ONE_FIFTH,
            boundary_radius: 2,
            note_threshold: ONE_FIFTH,
            seed: 0,
        }
    }
}

/// A request to extract the notes of an audio file.
#[derive(Debug, Clone)]
pub struct ExtractRequest {
    pub model_path: String,
    pub input_path: String,
    /// Nothing is written without it.
    pub output: Option<ExtractOutputRequest>,
    pub device: ExtractDevice,
    pub gpu: GpuSelector,
    pub infer_params: InferParams,
    pub chunk_parallelism: ChunkParallelism,
    /// Longer chunks are split.
    pub max_chunk_seconds: usize,
}

impl Default for ExtractRequest {
    fn default() -> (r: Self)
        ensures
            r.model_path@.len() == 0,
            r.input_path@.len() == 0,
            r.output is None,
            r.device == ExtractDevice::Auto,
            !r.gpu.any(),
            r.infer_params == default_params(),
            r.chunk_parallelism == ChunkParallelism::Auto,
            r.max_chunk_seconds == DEFAULT_MAX_CHUNK_SECONDS,
    {
        ExtractRequest {
            model_path: String::new(),
            input_path: String::new(),
            output: None,
            device: ExtractDevice::default(),
            gpu: GpuSelector::default(),
            infer_params: InferParams::default(),
            chunk_parallelism: ChunkParallelism::default(),
            max_chunk_seconds: DEFAULT_MAX_CHUNK_SECONDS,
        }
    }
}

// ---------------------------------------------------------------------------
// Formats
// ---------------------------------------------------------------------------
/// The format that the extension of a path tells.
pub open spec fn format_of_path(path: PathView) -> Option<ExtractFormat> {
    match path.extension {
        Some(e) => {
            let e = ascii_lowercase(e);
            if e == "mid"@ || e == "midi"@ {
                Some(ExtractFormat::Midi)
            } else if e == "txt"@ {
                Some(ExtractFormat::Txt)
            } else if e == "csv"@ {
                Some(ExtractFormat::Csv)
            } else {
                None
            }
        },
        None => None,
    }
}

/// The format that is asked for, else the one that the path tells, else MIDI.
pub open spec fn format_for(format: Option<ExtractFormat>, path: PathView) -> ExtractFormat {
    match format {
        Some(f) => f,
        None => match format_of_path(path) {
            Some(f) => f,
            None => ExtractFormat::Midi,
        },
    }
}

/// Tells the format from the extension of a path.
pub fn infer_extract_format(output: &FilePath) -> (r: Option<ExtractFormat>)
    ensures
        r == format_of_path(output@),
{
    let ext = match &output.extension {
        Some(e) => lowercase(e),
        None => {
            return None;
        },
    };
    if same_text(&ext, "mid") || same_text(&ext, "midi") {
        Some(ExtractFormat::Midi)
    } else if same_text(&ext, "txt") {
        Some(ExtractFormat::Txt)
    } else if same_text(&ext, "csv") {
        Some(ExtractFormat::Csv)
    } else {
        None
    }
}

/// Settles the format of an output.
pub fn resolve_extract_format(format: Option<ExtractFormat>, output: &FilePath) -> (f:
    ExtractFormat)
    ensures
        f == format_for(format, output@),
{
    match format {
        Some(f) => f,
        None => match infer_extract_format(output) {
            Some(f) => f,
            None => ExtractFormat::Midi,
        },
    }
}

pub open spec fn format_text(format: ExtractFormat) -> Seq<char> {
    match format {
        ExtractFormat::Midi => "midi"@,
        ExtractFormat::Txt => "txt"@,
        ExtractFormat::Csv => "csv"@,
    }
}

/// The name of a format.
pub fn extract_format_name(format: ExtractFormat) -> (s: &'static str)
    ensures
        s@ == format_text(format),
{
    match format {
        ExtractFormat::Midi => "midi",
        ExtractFormat::Txt => "txt",
        ExtractFormat::Csv => "csv",
    }
}

pub open spec fn backend_text(backend: Backend) -> Seq<char> {
    match backend {
        Backend::Cpu => "cpu"@,
        Backend::Gpu => "gpu"@,
    }
}

/// The name of a backend.
pub fn backend_name(backend: Backend) -> (s: &'static str)
    ensures
        s@ == backend_text(backend),
{
    match backend {
        Backend::Cpu => "cpu",
        Backend::Gpu => "gpu",
    }
}

// ---------------------------------------------------------------------------
// Checks
// ---------------------------------------------------------------------------
/// What is wrong with a request.
pub open spec fn request_error(request: ExtractRequest) -> Option<Seq<char>> {
    if request.device == ExtractDevice::Cpu && request.gpu.any() {
        Some("GPU selector fields cannot be used with CPU extraction"@)
    } else if request.max_chunk_seconds == 0 {
        Some("max_chunk_seconds must be greater than zero"@)
    } else {
        None
    }
}

/// Checks a request.
pub fn validate_request(request: &ExtractRequest) -> (r: Result<(), Error>)
    ensures
        match r {
            Ok(_) => request_error(*request) is None,
            Err(e) => request_error(*request) == Some(e@),
        },
{
    if request.device == ExtractDevice::Cpu && request.gpu.has_any() {
        return Err(Error::message("GPU selector fields cannot be used with CPU extraction"));
    }
    if request.max_chunk_seconds == 0 {
        return Err(Error::message("max_chunk_seconds must be greater than zero"));
    }
    Ok(())
}

// ---------------------------------------------------------------------------
// Loading the model
// ---------------------------------------------------------------------------
/// On which device a model is to be loaded first.
#[derive(Debug, Clone)]
pub enum LoadPlan {
    Cpu,
    /// On the adapter that the selector picks.
    Gpu { selector: Option<GpuAdapterSelector> },
    /// On any adapter, and on the CPU if that fails.
    GpuOrCpu,
}

pub open spec fn gpu_missing_text() -> Seq<char> {
    "GPU extraction requested but the `gpu` cargo feature is disabled"@
}

/// `r` is the plan for a device. The selector counts only where the GPU is asked for;
/// where the choice is free, the GPU is tried and the CPU may stand in for it.
pub open spec fn is_plan(
    device: ExtractDevice,
    gpu: GpuSelector,
    gpu_built: bool,
    r: Result<LoadPlan, Error>,
) -> bool {
    match device {
        ExtractDevice::Cpu => r == Ok::<LoadPlan, Error>(LoadPlan::Cpu),
        ExtractDevice::Auto => r == Ok::<LoadPlan, Error>(
            if gpu_built {
                LoadPlan::GpuOrCpu
            } else {
                LoadPlan::Cpu
            },
        ),
        ExtractDevice::Gpu => if gpu_built {
            r matches Ok(LoadPlan::Gpu { selector }) && match selector {
                Some(s) => gpu.any() && same_selection(gpu, s),
                None => !gpu.any(),
            }
        } else {
            r matches Err(e) && e@ == gpu_missing_text()
        },
    }
}

/// Decides where to load the model; `gpu_built` tells whether there is any support
/// for adapters.
pub fn plan_load(device: ExtractDevice, gpu: &GpuSelector, gpu_built: bool) -> (r: Result<
    LoadPlan,
    Error,
>)
    ensures
        is_plan(device, *gpu, gpu_built, r),
{
    match device {
        ExtractDevice::Cpu => Ok(LoadPlan::Cpu),
        ExtractDevice::Auto => if gpu_built {
            Ok(LoadPlan::GpuOrCpu)
        } else {
            Ok(LoadPlan::Cpu)
        },
        ExtractDevice::Gpu => if gpu_built {
            Ok(LoadPlan::Gpu { selector: gpu.to_core_selector() })
        } else {
            Err(
                Error::message(
                    "GPU extraction requested but the `gpu` cargo feature is disabled",
                ),
            )
        },
    }
}

pub open spec fn fallback_text(gpu: Seq<char>) -> Seq<char> {
    "GPU backend unavailable ("@ + gpu + "); falling back to CPU"@
}

/// The warning that the CPU stands in for the GPU.
pub fn fallback_message(gpu: &Error) -> (s: String)
    ensures
        s@ == fallback_text(gpu@),
{
    let mut s = String::from_str("GPU backend unavailable (");
    s.append(&gpu.text);
    s.append("); falling back to CPU");
    s
}

pub open spec fn both_failed_text(gpu: Seq<char>, cpu: Seq<char>) -> Seq<char> {
    "failed to load model on GPU ("@ + gpu + ") and CPU fallback also failed ("@ + cpu + ")"@
}

/// The error where neither device would do.
pub fn both_failed(gpu: &Error, cpu: &Error) -> (e: Error)
    ensures
        e@ == both_failed_text(gpu@, cpu@),
{
    let mut s = String::from_str("failed to load model on GPU (");
    s.append(&gpu.text);
    s.append(") and CPU fallback also failed (");
    s.append(&cpu.text);
    s.append(")");
    Error::from_text(s)
}

/// How loading the model on a device went so far.
#[derive(Debug, Clone)]
pub enum Attempt {
    NotMade,
    Loaded,
    Failed(Error),
}

pub enum AttemptView {
    NotMade,
    Loaded,
    Failed(Seq<char>),
}

impl View for Attempt {
    type V = AttemptView;

    open spec fn view(&self) -> AttemptView {
        match self {
            Attempt::NotMade => AttemptView::NotMade,
            Attempt::Loaded => AttemptView::Loaded,
            Attempt::Failed(e) => AttemptView::Failed(e@),
        }
    }
}

/// What is to be done next to load the model.
#[derive(Debug, Clone)]
pub enum LoadStep {
    /// Load on the GPU, with the selector of the plan.
    TryGpu,
    /// Load on the CPU.
    TryCpu,
    /// The model that was loaded last is the one to use.
    Done { warning: Option<String> },
    /// There is no model to use.
    Fail(Error),
}

pub enum LoadStepView {
    TryGpu,
    TryCpu,
    Done { warning: Option<Seq<char>> },
    Fail(Seq<char>),
}

impl View for LoadStep {
    type V = LoadStepView;

    open spec fn view(&self) -> LoadStepView {
        match self {
            LoadStep::TryGpu => LoadStepView::TryGpu,
            LoadStep::TryCpu => LoadStepView::TryCpu,
            LoadStep::Done { warning } => LoadStepView::Done {
                warning: match warning {
                    Some(s) => Some(s@),
                    None => None,
                },
            },
            LoadStep::Fail(e) => LoadStepView::Fail(e@),
        }
    }
}

/// What follows from how loading went on the one device that the plan allows.
pub open spec fn sole_step(attempt: AttemptView, again: LoadStepView) -> LoadStepView {
    match attempt {
        AttemptView::NotMade => again,
        AttemptView::Loaded => LoadStepView::Done { warning: None },
        AttemptView::Failed(e) => LoadStepView::Fail(e),
    }
}

/// What follows from how loading went so far: where the CPU may stand in for the GPU,
/// it is tried once the GPU has failed, and what is then said names both failures.
pub open spec fn load_step(plan: LoadPlan, gpu: AttemptView, cpu: AttemptView) -> LoadStepView {
    match plan {
        LoadPlan::Cpu => sole_step(cpu, LoadStepView::TryCpu),
        LoadPlan::Gpu { .. } => sole_step(gpu, LoadStepView::TryGpu),
        LoadPlan::GpuOrCpu => match gpu {
            AttemptView::NotMade => LoadStepView::TryGpu,
            AttemptView::Loaded => LoadStepView::Done { warning: None },
            AttemptView::Failed(g) => match cpu {
                AttemptView::NotMade => LoadStepView::TryCpu,
                AttemptView::Loaded => LoadStepView::Done { warning: Some(fallback_text(g)) },
                AttemptView::Failed(c) => LoadStepView::Fail(both_failed_text(g, c)),
            },
        },
    }
}

/// Decides what to do next to load the model.
pub fn next_load_step(plan: &LoadPlan, gpu: &Attempt, cpu: &Attempt) -> (step: LoadStep)
    ensures
        step@ == load_step(*plan, gpu@, cpu@),
{
    match plan {
        LoadPlan::Cpu => match cpu {
            Attempt::NotMade => LoadStep::TryCpu,
            Attempt::Loaded => LoadStep::Done { warning: None },
            Attempt::Failed(e) => LoadStep::Fail(Error::message(&e.text)),
        },
        LoadPlan::Gpu { .. } => match gpu {
            Attempt::NotMade => LoadStep::TryGpu,
            Attempt::Loaded => LoadStep::Done { warning: None },
            Attempt::Failed(e) => LoadStep::Fail(Error::message(&e.text)),
        },
        LoadPlan::GpuOrCpu => match gpu {
            Attempt::NotMade => LoadStep::TryGpu,
            Attempt::Loaded => LoadStep::Done { warning: None },
            Attempt::Failed(g) => match cpu {
                Attempt::NotMade => LoadStep::TryCpu,
                Attempt::Loaded => LoadStep::Done { warning: Some(fallback_message(g)) },
                Attempt::Failed(c) => LoadStep::Fail(both_failed(g, c)),
            },
        },
    }
}

// ---------------------------------------------------------------------------
// Parallelism
// ---------------------------------------------------------------------------
pub open spec fn gpu_forced_text() -> Seq<char> {
    "chunk parallelism forced on but GPU backend does not support it"@
}

pub open spec fn single_forced_text() -> Seq<char> {
    "chunk parallelism forced on but there are not several chunks"@
}

pub open spec fn thread_forced_text() -> Seq<char> {
    "chunk parallelism forced on but there are not several worker threads"@
}

/// Whether chunks are worked on side by side.
pub open spec fn parallel_decision(
    mode: ChunkParallelism,
    backend: Backend,
    chunk_count: int,
    threads: int,
    disabled: bool,
) -> Result<bool, Seq<char>> {
    if mode == ChunkParallelism::Off || disabled {
        Ok(false)
    } else if backend == Backend::Cpu && chunk_count > 1 && threads > 1 {
        Ok(true)
    } else if mode == ChunkParallelism::Auto {
        Ok(false)
    } else if backend != Backend::Cpu {
        Err(gpu_forced_text())
    } else if chunk_count <= 1 {
        Err(single_forced_text())
    } else {
        Err(thread_forced_text())
    }
}

/// Decides, for a number of worker threads, whether chunks are worked on side by
/// side; `disabled` tells whether the environment forbids it.
pub fn decide_parallelism(
    mode: ChunkParallelism,
    backend: Backend,
    chunk_count: usize,
    threads: usize,
    disabled: bool,
) -> (r: Result<bool, Error>)
    ensures
        match r {
            Ok(b) => parallel_decision(
                mode,
                backend,
                chunk_count as int,
                threads as int,
                disabled,
            ) == Ok::<bool, Seq<char>>(b),
            Err(e) => parallel_decision(
                mode,
                backend,
                chunk_count as int,
                threads as int,
                disabled,
            ) == Err::<bool, Seq<char>>(e@),
        },
{
    if mode == ChunkParallelism::Off || disabled {
        return Ok(false);
    }
    if backend == Backend::Cpu && chunk_count > 1 && threads > 1 {
        return Ok(true);
    }
    if mode == ChunkParallelism::Auto {
        return Ok(false);
    }
    if backend != Backend::Cpu {
        return Err(
            Error::message("chunk parallelism forced on but GPU backend does not support it"),
        );
    }
    if chunk_count <= 1 {
        return Err(
            Error::message("chunk parallelism forced on but there are not several chunks"),
        );
    }
    Err(Error::message("chunk parallelism forced on but there are not several worker threads"))
}

/// Decides, for the worker threads that there are, whether chunks are worked on
/// side by side. Where they are the CPU's and there are several chunks, the number
/// of threads decides.
pub fn chunk_parallelism_enabled(
    mode: ChunkParallelism,
    backend: Backend,
    chunk_count: usize,
    disabled: bool,
) -> (r: Result<bool, Error>)
    ensures
        exists|threads: usize| #[trigger]
            parallel_decision(mode, backend, chunk_count as int, threads as int, disabled)
                == match r {
                Ok(b) => Ok::<bool, Seq<char>>(b),
                Err(e) => Err::<bool, Seq<char>>(e@),
            },
{
    let threads: usize = worker_threads();
    decide_parallelism(mode, backend, chunk_count, threads, disabled)
}

// ---------------------------------------------------------------------------
// How many chunks at once
// ---------------------------------------------------------------------------
/// The number of chunks at work at once: the one that the environment gives, else
/// the number of worker threads.
pub open spec fn capacity_for(given: Option<Seq<char>>, threads: int) -> int {
    match given {
        Some(text) => match parse_unsigned(text, 10, usize::MAX as int) {
            Ok(n) => n,
            Err(_) => threads,
        },
        None => threads,
    }
}

/// Settles the number of chunks at once, for a number of worker threads.
pub fn decide_capacity(given: Option<&str>, threads: usize) -> (n: usize)
    ensures
        n == capacity_for(given_view(given), threads as int),
{
    match given {
        Some(text) => match parse_u64(&chars_of(text), 10, usize::MAX as u64) {
            Ok(n) => n as usize,
            Err(_) => threads,
        },
        None => threads,
    }
}

/// Settles the number of chunks at once, for the worker threads that there are.
pub fn chunk_capacity(given: Option<&str>) -> (n: usize)
    ensures
        exists|threads: usize| n == #[trigger] capacity_for(given_view(given), threads as int),
{
    let threads: usize = worker_threads();
    decide_capacity(given, threads)
}

/// Permits for chunks at work.
#[derive(Debug, Clone, Copy, PartialEq, Eq, Structural)]
pub struct ChunkSemaphore {
    pub available: usize,
}

impl ChunkSemaphore {
    pub fn new(capacity: usize) -> (s: Self)
        ensures
            s.available == capacity,
    {
        ChunkSemaphore { available: capacity }
    }

    /// Takes a permit where there is one; without one the caller has to wait.
    pub fn acquire(&mut self) -> (got: bool)
        ensures
            got == (old(self).available > 0),
            final(self).available == if got {
                old(self).available - 1
            } else {
                old(self).available as int
            },
    {
        if self.available == 0 {
            return false;
        }
        self.available = self.available - 1;
        true
    }

    /// Gives a permit back.
    pub fn release(&mut self)
        requires
            old(self).available < usize::MAX,
        ensures
            final(self).available == old(self).available + 1,
    {
        self.available = self.available + 1;
    }
}

/// Something that happens to the permits.
pub ghost enum PermitStep {
    Acquire,
    Release,
}

/// How many chunks are at work after some steps, of which each takes a permit where
/// there is one or gives one back, and how many permits are left.
pub open spec fn at_work(capacity: int, steps: Seq<PermitStep>) -> (int, int)
    decreases steps.len(),
{
    if steps.len() == 0 {
        (0, capacity)
    } else {
        let (held, available) = at_work(capacity, steps.drop_last());
        match steps.last() {
            PermitStep::Acquire => if available > 0 {
                (held + 1, available - 1)
            } else {
                (held, available)
            },
            PermitStep::Release => if held > 0 {
                (held - 1, available + 1)
            } else {
                (held, available)
            },
        }
    }
}

/// There are never more chunks at work than there were permits at first, and a chunk
/// that finishes makes room for one that waits.
pub proof fn law_chunks_at_work_are_bounded(capacity: int, steps: Seq<PermitStep>)
    requires
        0 <= capacity,
    ensures
        0 <= at_work(capacity, steps).0 <= capacity,
        at_work(capacity, steps).0 + at_work(capacity, steps).1 == capacity,
    decreases steps.len(),
{
    if steps.len() > 0 {
        law_chunks_at_work_are_bounded(capacity, steps.drop_last());
    }
}

/// The format of an output: the one that is given, or the one that its extension names,
/// in letters of any size, and MIDI otherwise.
pub proof fn law_format_is_given_or_named(format: ExtractFormat, path: PathView)
    ensures
        format_for(Some(format), path) == format,
        format_of_path(path) is None ==> format_for(None, path) == ExtractFormat::Midi,
        format_of_path(path) is Some ==> format_for(None, path) == format_of_path(path)->0,
        path.extension is None ==> format_of_path(path) is None,
        path.extension matches Some(e) ==> {
            let e = ascii_lowercase(e);
            &&& format_of_path(path) == Some(ExtractFormat::Txt) <==> e == seq!['t', 'x', 't']
            &&& format_of_path(path) == Some(ExtractFormat::Csv) <==> e == seq!['c', 's', 'v']
            &&& format_of_path(path) == Some(ExtractFormat::Midi) <==> e == seq!['m', 'i', 'd']
                || e == seq!['m', 'i', 'd', 'i']
        },
{
    reveal_strlit("mid");
    reveal_strlit("midi");
    reveal_strlit("txt");
    reveal_strlit("csv");
    assert("mid"@ =~= seq!['m', 'i', 'd']);
    assert("midi"@ =~= seq!['m', 'i', 'd', 'i']);
    assert("txt"@ =~= seq!['t', 'x', 't']);
    assert("csv"@ =~= seq!['c', 's', 'v']);
    if path.extension is Some {
        let e = ascii_lowercase(path.extension->0);
        assert(e == "txt"@ ==> e[0] == 't');
        assert(e == "csv"@ ==> e[0] == 'c');
        assert(e == "mid"@ ==> e[0] == 'm');
        assert(e == "midi"@ ==> e[0] == 'm');
    }
}

/// A request is good unless it names an adapter for a run on the CPU, or allows chunks of
/// no length.
pub proof fn law_good_requests(request: ExtractRequest)
    ensures
        request_error(request) is None <==> {
            &&& request.max_chunk_seconds > 0
            &&& request.device == ExtractDevice::Cpu ==> {
                &&& request.gpu.name_substring is None
                &&& request.gpu.vendor_id is None
                &&& request.gpu.device_id is None
            }
        },
{
}

/// A plan keeps to the device that is wanted: the GPU is never tried for the CPU alone,
/// nor where it is not built in; the CPU is never tried where the GPU is wanted; and only
/// wanting a GPU that is not built in is an error. A selector is handed on as it is, and
/// only where it selects something.
pub proof fn law_plan_keeps_to_the_device(
    device: ExtractDevice,
    gpu: GpuSelector,
    gpu_built: bool,
    r: Result<LoadPlan, Error>,
)
    requires
        is_plan(device, gpu, gpu_built, r),
    ensures
        r is Err <==> device == ExtractDevice::Gpu && !gpu_built,
        r == Ok::<LoadPlan, Error>(LoadPlan::Cpu) <==> device == ExtractDevice::Cpu || (device
            == ExtractDevice::Auto && !gpu_built),
        r == Ok::<LoadPlan, Error>(LoadPlan::GpuOrCpu) <==> device == ExtractDevice::Auto
            && gpu_built,
        r matches Ok(LoadPlan::Gpu { selector }) ==> {
            &&& selector is None <==> gpu.name_substring is None && gpu.vendor_id is None
                && gpu.device_id is None
            &&& selector matches Some(s) ==> {
                &&& s.vendor_id == gpu.vendor_id
                &&& s.device_id == gpu.device_id
                &&& s.name_substring is None <==> gpu.name_substring is None
                &&& s.name_substring matches Some(text) ==> text@ == gpu.name_substring->0@
                &&& s.backend is None
                &&& s.device_type is None
            }
        },
{
}

/// The plan may run a model on this backend.
pub open spec fn plan_allows(plan: LoadPlan, backend: Backend) -> bool {
    match backend {
        Backend::Cpu => plan is Cpu || plan is GpuOrCpu,
        Backend::Gpu => plan is Gpu || plan is GpuOrCpu,
    }
}

/// Loading ends as soon as one backend that the plan allows has loaded, and fails only
/// when each of them has failed; the GPU is tried before the CPU; and a run that ends on
/// the CPU because the GPU failed says so, with the reason.
pub proof fn law_loading_tries_what_the_plan_allows(
    plan: LoadPlan,
    gpu: AttemptView,
    cpu: AttemptView,
)
    requires
        !plan_allows(plan, Backend::Gpu) ==> gpu is NotMade,
        !plan_allows(plan, Backend::Cpu) ==> cpu is NotMade,
        plan_allows(plan, Backend::Gpu) && !(gpu is Failed) ==> cpu is NotMade,
    ensures
        load_step(plan, gpu, cpu) is TryGpu <==> plan_allows(plan, Backend::Gpu) && gpu is NotMade,
        load_step(plan, gpu, cpu) is TryCpu <==> plan_allows(plan, Backend::Cpu) && cpu is NotMade
            && (plan_allows(plan, Backend::Gpu) ==> gpu is Failed),
        load_step(plan, gpu, cpu) is Done <==> gpu is Loaded || cpu is Loaded,
        load_step(plan, gpu, cpu) is Fail <==> (plan_allows(plan, Backend::Gpu) ==> gpu is Failed)
            && (plan_allows(plan, Backend::Cpu) ==> cpu is Failed),
        load_step(plan, gpu, cpu) matches LoadStepView::Done { warning } ==> {
            &&& warning is Some <==> gpu is Failed
            &&& gpu matches AttemptView::Failed(e) ==> warning == Some(
                "GPU backend unavailable ("@ + e + "); falling back to CPU"@,
            )
        },
        load_step(plan, gpu, cpu) matches LoadStepView::Fail(text) ==> {
            &&& plan is Cpu ==> cpu == AttemptView::Failed(text)
            &&& plan is Gpu ==> gpu == AttemptView::Failed(text)
            &&& plan is GpuOrCpu ==> text == "failed to load model on GPU ("@ + gpu->Failed_0
                + ") and CPU fallback also failed ("@ + cpu->Failed_0 + ")"@
        },
{
}

/// Chunks are worked on side by side exactly where that is not switched off, the model runs
/// on the CPU, and there are several chunks and several threads. Where it is forced and
/// one of these is missing, that is an error, which names the first that is missing.
pub proof fn law_chunks_side_by_side(
    mode: ChunkParallelism,
    backend: Backend,
    chunk_count: int,
    threads: int,
    disabled: bool,
)
    ensures
        ({
            let off = mode == ChunkParallelism::Off || disabled;
            let can = backend == Backend::Cpu && chunk_count > 1 && threads > 1;
            let r = parallel_decision(mode, backend, chunk_count, threads, disabled);
            &&& r == Ok::<bool, Seq<char>>(true) <==> !off && can
            &&& r is Err <==> !off && mode == ChunkParallelism::On && !can
            &&& r is Err && backend == Backend::Gpu ==> r->Err_0
                == "chunk parallelism forced on but GPU backend does not support it"@
            &&& r is Err && backend == Backend::Cpu && chunk_count <= 1 ==> r->Err_0
                == "chunk parallelism forced on but there are not several chunks"@
            &&& r is Err && backend == Backend::Cpu && chunk_count > 1 ==> r->Err_0
                == "chunk parallelism forced on but there are not several worker threads"@
        }),
{
}

/// A number of chunks that is given as a numeral is the number of chunks at work; without
/// one, and for anything that is no number, it is the number of threads.
pub proof fn law_capacity_is_given_or_counted(n: nat, text: Seq<char>, threads: int)
    ensures
        n <= usize::MAX ==> capacity_for(Some(decimal(n)), threads) == n,
        capacity_for(None, threads) == threads,
        parse_unsigned(text, 10, usize::MAX as int) is Err ==> capacity_for(Some(text), threads)
            == threads,
{
    if n <= usize::MAX {
        law_decimal_is_read_back(n, usize::MAX as int);
    }
}

} // verus!
