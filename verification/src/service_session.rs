//! A run of extraction, stage by stage. The work itself (reading files, running the
//! model) is done outside; the session is told how each stage ended, says what to
//! report, and knows what comes next.
use vstd::prelude::*;
use vstd::string::*;

use crate::audio::{PreparedWaveform, SlicerConfig};
use crate::error::Error;
use crate::notify::{event_views, CoreEvent, Elapsed, EventView, NotificationLevel};
use crate::paths::FilePath;
use crate::service::{
    extract_format_name, fallback_message, fallback_text, format_for, format_text, is_plan,
    plan_load, request_error, validate_request, Backend, ExtractDevice, ExtractFormat,
    ExtractRequest, LoadPlan,
};
use crate::tensor::adapter::{
    device_type_name, device_type_text, id_text, AdapterInfo, GpuBackend,
};
use crate::tensor::shape::{capped, saturating_product};
use crate::text::{ascii_lowercase, decimal, lowercase, push_decimal, push_hex4};

verus! {

// ---------------------------------------------------------------------------
// What a run tells of itself
// ---------------------------------------------------------------------------
/// The adapter that a model runs on.
#[derive(Debug, Clone)]
pub struct GpuAdapterInfo {
    pub name: String,
    pub backend: String,
    pub device_type: String,
    pub vendor_id: u32,
    pub device_id: u32,
}

/// The name of a backend in small letters.
pub open spec fn small_backend_text(backend: GpuBackend) -> Seq<char> {
    match backend {
        GpuBackend::Empty => "empty"@,
        GpuBackend::Vulkan => "vulkan"@,
        GpuBackend::Metal => "metal"@,
        GpuBackend::Dx12 => "dx12"@,
        GpuBackend::Gl => "gl"@,
        GpuBackend::BrowserWebGpu => "browserwebgpu"@,
    }
}

/// Describes the adapter that a model runs on.
pub fn gpu_adapter_info(info: &AdapterInfo) -> (r: GpuAdapterInfo)
    ensures
        r.name@ == info.name@,
        r.backend@ == small_backend_text(info.backend),
        r.device_type@ == ascii_lowercase(device_type_text(info.device_type)),
        r.vendor_id == info.vendor,
        r.device_id == info.device,
{
    let backend: &'static str = match info.backend {
        GpuBackend::Empty => "empty",
        GpuBackend::Vulkan => "vulkan",
        GpuBackend::Metal => "metal",
        GpuBackend::Dx12 => "dx12",
        GpuBackend::Gl => "gl",
        GpuBackend::BrowserWebGpu => "browserwebgpu",
    };
    GpuAdapterInfo {
        name: String::from_str(&info.name),
        backend: String::from_str(backend),
        device_type: lowercase(device_type_name(info.device_type)),
        vendor_id: info.vendor,
        device_id: info.device,
    }
}

pub open spec fn adapter_message_text(info: GpuAdapterInfo) -> Seq<char> {
    "gpu adapter: "@ + info.name@ + " (backend="@ + info.backend@ + ", type="@ + info.device_type@
        + ", vendor="@ + id_text(info.vendor_id) + ", device="@ + id_text(info.device_id) + ")"@
}

fn adapter_message(info: &GpuAdapterInfo) -> (s: String)
    ensures
        s@ == adapter_message_text(*info),
{
    let mut s = String::from_str("gpu adapter: ");
    s.append(&info.name);
    s.append(" (backend=");
    s.append(&info.backend);
    s.append(", type=");
    s.append(&info.device_type);
    s.append(", vendor=");
    s.append("0x");
    push_hex4(&mut s, info.vendor_id);
    s.append(", device=");
    s.append("0x");
    push_hex4(&mut s, info.device_id);
    s.append(")");
    assert(s@ =~= adapter_message_text(*info));
    s
}

/// The audio that a model is given.
#[derive(Debug, Clone, Copy, PartialEq, Eq, Structural)]
pub struct PreparedAudioInfo {
    pub sample_rate: usize,
    pub source_sample_rate: usize,
    pub source_channels: usize,
    pub sample_count: usize,
}

impl PreparedAudioInfo {
    /// Describes a waveform.
    pub fn of_waveform<T>(waveform: &PreparedWaveform<T>) -> (info: Self)
        ensures
            info == (PreparedAudioInfo {
                sample_rate: waveform.sample_rate,
                source_sample_rate: waveform.source_sample_rate,
                source_channels: waveform.source_channels,
                sample_count: waveform.samples.len(),
            }),
    {
        PreparedAudioInfo {
            sample_rate: waveform.sample_rate,
            source_sample_rate: waveform.source_sample_rate,
            source_channels: waveform.source_channels,
            sample_count: waveform.samples.len(),
        }
    }

    /// Whether the rate was changed.
    pub fn was_resampled(&self) -> (b: bool)
        ensures
            b == (self.sample_rate != self.source_sample_rate),
    {
        self.sample_rate != self.source_sample_rate
    }

    /// Whether the source was anything but mono.
    pub fn was_downmixed(&self) -> (b: bool)
        ensures
            b == (self.source_channels != 1),
    {
        self.source_channels != 1
    }
}

/// The rate and the channels, with those of the source where they differ.
pub open spec fn audio_text(audio: PreparedAudioInfo, arrow: Seq<char>) -> Seq<char> {
    if audio.sample_rate != audio.source_sample_rate || audio.source_channels != 1 {
        decimal(audio.source_sample_rate as nat) + " Hz/"@ + decimal(audio.source_channels as nat)
            + " ch"@ + arrow + decimal(audio.sample_rate as nat) + " Hz mono"@
    } else {
        decimal(audio.sample_rate as nat) + " Hz mono"@
    }
}

/// Shows the rate and the channels.
pub fn describe_audio(audio: &PreparedAudioInfo, arrow: &str) -> (s: String)
    ensures
        s@ == audio_text(*audio, arrow@),
{
    if audio.was_resampled() || audio.was_downmixed() {
        let mut s = crate::text::decimal_string(audio.source_sample_rate as u64);
        s.append(" Hz/");
        push_decimal(&mut s, audio.source_channels as u64);
        s.append(" ch");
        s.append(arrow);
        push_decimal(&mut s, audio.sample_rate as u64);
        s.append(" Hz mono");
        s
    } else {
        let mut s = crate::text::decimal_string(audio.sample_rate as u64);
        s.append(" Hz mono");
        s
    }
}

pub open spec fn audio_detail_text(audio: PreparedAudioInfo, duration: Seq<char>) -> Seq<char> {
    audio_text(audio, " -> "@) + ", samples="@ + decimal(audio.sample_count as nat) + ", duration="@
        + duration + "s"@
}

/// Describes the audio; `duration` is its length in seconds with two decimals.
pub fn audio_prepare_detail(audio: &PreparedAudioInfo, duration: &str) -> (s: String)
    ensures
        s@ == audio_detail_text(*audio, duration@),
{
    let mut s = describe_audio(audio, " -> ");
    s.append(", samples=");
    push_decimal(&mut s, audio.sample_count as u64);
    s.append(", duration=");
    s.append(duration);
    s.append("s");
    s
}

/// What was written.
#[derive(Debug, Clone)]
pub struct ExtractOutputResult {
    pub path: FilePath,
    pub format: ExtractFormat,
}

/// How long the stages took.
#[derive(Debug, Clone, Copy, PartialEq, Eq, Structural)]
pub struct ExtractTimings {
    pub total: Elapsed,
    pub model_load: Elapsed,
    pub audio_prepare: Elapsed,
    pub silence_slice: Elapsed,
    pub long_chunk_split: Elapsed,
    pub mel_setup: Elapsed,
    pub inference: Elapsed,
    pub output_write: Elapsed,
}

pub open spec fn no_time() -> Elapsed {
    Elapsed { nanos: 0 }
}

pub open spec fn no_timings() -> ExtractTimings {
    ExtractTimings {
        total: no_time(),
        model_load: no_time(),
        audio_prepare: no_time(),
        silence_slice: no_time(),
        long_chunk_split: no_time(),
        mel_setup: no_time(),
        inference: no_time(),
        output_write: no_time(),
    }
}

impl Default for ExtractTimings {
    fn default() -> (t: Self)
        ensures
            t == no_timings(),
    {
        let none = Elapsed { nanos: 0 };
        ExtractTimings {
            total: none,
            model_load: none,
            audio_prepare: none,
            silence_slice: none,
            long_chunk_split: none,
            mel_setup: none,
            inference: none,
            output_write: none,
        }
    }
}

/// What a run gave.
#[derive(Debug)]
pub struct ExtractResult<N> {
    pub notes: Vec<N>,
    pub backend: Backend,
    pub gpu_adapter: Option<GpuAdapterInfo>,
    pub audio: PreparedAudioInfo,
    pub total_frames: usize,
    /// The bit pattern of the seconds from one frame to the next.
    pub timestep_seconds: u32,
    pub chunk_count: usize,
    pub chunks_before_long_split: usize,
    pub output: Option<ExtractOutputResult>,
    pub timings: ExtractTimings,
}

// ---------------------------------------------------------------------------
// The session
// ---------------------------------------------------------------------------
/// What is to be done next.
#[derive(Debug, Clone, Copy, PartialEq, Eq, Structural)]
pub enum Stage {
    LoadModel,
    PrepareAudio,
    Slice,
    SplitLong,
    SetUpMel,
    Infer,
    Write,
    Done,
}

/// A run of extraction.
#[derive(Debug)]
pub struct ExtractSession {
    pub request: ExtractRequest,
    pub stage: Stage,
    /// The GPU gave up on this run, and the CPU stands in for it.
    pub on_cpu: bool,
    pub backend: Backend,
    pub gpu_adapter: Option<GpuAdapterInfo>,
    pub audio: PreparedAudioInfo,
    pub chunks_before_long_split: usize,
    pub chunk_count: usize,
    pub total_frames: usize,
    pub timings: ExtractTimings,
}

pub open spec fn status(stage: Seq<char>, message: Seq<char>) -> EventView {
    EventView::Status { stage, message, chunk: None }
}

pub open spec fn timing(stage: Seq<char>, elapsed: Elapsed, detail: Seq<char>) -> EventView {
    EventView::Timing { stage, elapsed, detail: Some(detail), chunk: None }
}

fn status_event(stage: &'static str, message: &str) -> (e: CoreEvent)
    ensures
        e@ == status(stage@, message@),
{
    CoreEvent::Status { stage, message: String::from_str(message), chunk: None }
}

fn timing_event(stage: &'static str, elapsed: Elapsed, detail: String) -> (e: CoreEvent)
    ensures
        e@ == timing(stage@, elapsed, detail@),
{
    CoreEvent::Timing { stage, elapsed, detail: Some(detail), chunk: None }
}

/// The longest chunk, in samples.
pub open spec fn max_samples(sample_rate: int, seconds: int) -> int {
    capped(sample_rate * seconds)
}

pub open spec fn split_detail(chunks: nat, seconds: nat, samples: nat) -> Seq<char> {
    "chunks="@ + decimal(chunks) + " max_chunk_seconds="@ + decimal(seconds)
        + " max_chunk_samples="@ + decimal(samples)
}

pub open spec fn written_detail(path: Seq<char>, format: ExtractFormat) -> Seq<char> {
    "path="@ + path + " format="@ + format_text(format)
}

/// Begins a run: the request is checked, and the model is to be loaded.
pub fn extract(request: ExtractRequest) -> (r: Result<ExtractSession, Error>)
    ensures
        match r {
            Ok(s) => s.well_formed() && request_error(request) is None && s == (ExtractSession {
                request,
                stage: Stage::LoadModel,
                on_cpu: false,
                backend: Backend::Cpu,
                gpu_adapter: None,
                audio: (PreparedAudioInfo {
                    sample_rate: 0,
                    source_sample_rate: 0,
                    source_channels: 0,
                    sample_count: 0,
                }),
                chunks_before_long_split: 0,
                chunk_count: 0,
                total_frames: 0,
                timings: no_timings(),
            }),
            Err(e) => request_error(request) == Some(e@),
        },
{
    if let Err(e) = validate_request(&request) {
        return Err(e);
    }
    Ok(
        ExtractSession {
            request,
            stage: Stage::LoadModel,
            on_cpu: false,
            backend: Backend::Cpu,
            gpu_adapter: None,
            audio: PreparedAudioInfo {
                sample_rate: 0,
                source_sample_rate: 0,
                source_channels: 0,
                sample_count: 0,
            },
            chunks_before_long_split: 0,
            chunk_count: 0,
            total_frames: 0,
            timings: ExtractTimings::default(),
        },
    )
}

/// The session once the model is loaded.
pub open spec fn after_load(
    s: ExtractSession,
    backend: Backend,
    gpu_adapter: Option<GpuAdapterInfo>,
    elapsed: Elapsed,
) -> ExtractSession {
    ExtractSession {
        stage: Stage::PrepareAudio,
        backend,
        gpu_adapter,
        timings: ExtractTimings { model_load: elapsed, ..s.timings },
        ..s
    }
}

/// A failure of inference is made good on the CPU where the device was left open and
/// the GPU was taken.
pub open spec fn may_retry(s: ExtractSession) -> bool {
    s.request.device == ExtractDevice::Auto && s.backend == Backend::Gpu
}

/// The session once inference failed on the GPU: the model is to be loaded again.
pub open spec fn after_gpu_failure(s: ExtractSession) -> ExtractSession {
    ExtractSession { stage: Stage::LoadModel, on_cpu: true, ..s }
}

impl ExtractSession {
    /// The adapter belongs to the GPU; a run that fell back is on the CPU once its model
    /// is loaded; splitting made no fewer chunks; and nothing is written unasked.
    pub open spec fn well_formed(self) -> bool {
        &&& self.backend == Backend::Cpu ==> self.gpu_adapter is None
        &&& self.on_cpu && self.stage != Stage::LoadModel ==> self.backend == Backend::Cpu
        &&& self.is_split() ==> self.chunks_before_long_split <= self.chunk_count
        &&& self.request.output is None ==> self.stage != Stage::Write
            && self.timings.output_write == no_time()
    }

    /// The long chunks are split.
    pub open spec fn is_split(self) -> bool {
        match self.stage {
            Stage::SetUpMel | Stage::Infer | Stage::Write | Stage::Done => true,
            _ => false,
        }
    }

    /// Where the model is to be loaded; `gpu_built` tells whether there is any support
    /// for adapters.
    pub fn load_plan(&self, gpu_built: bool) -> (r: Result<LoadPlan, Error>)
        ensures
            is_plan(
                if self.on_cpu {
                    ExtractDevice::Cpu
                } else {
                    self.request.device
                },
                self.request.gpu,
                gpu_built,
                r,
            ),
    {
        let device: ExtractDevice = if self.on_cpu {
            ExtractDevice::Cpu
        } else {
            self.request.device
        };
        plan_load(device, &self.request.gpu, gpu_built)
    }

    /// Inference failed. Where the device was left open and the GPU was taken, the run
    /// goes back to loading the model, on the CPU, and a warning says so; otherwise the
    /// error stands.
    pub fn inference_failed(&mut self, error: Error) -> (r: Result<Vec<CoreEvent>, Error>)
        requires
            old(self).well_formed(),
            old(self).stage == Stage::Infer,
        ensures
            final(self).well_formed(),
            match r {
                Ok(events) => {
                    &&& may_retry(*old(self))
                    &&& *final(self) == after_gpu_failure(*old(self))
                    &&& event_views(events@) == seq![
                        EventView::Message {
                            level: NotificationLevel::Warn,
                            message: fallback_text(error@),
                        },
                    ]
                },
                Err(e) => {
                    &&& !may_retry(*old(self))
                    &&& *final(self) == *old(self)
                    &&& e == error
                },
            },
    {
        if self.request.device == ExtractDevice::Auto && self.backend == Backend::Gpu {
            let message = fallback_message(&error);
            let ghost said = message@;
            let mut events: Vec<CoreEvent> = Vec::new();
            events.push(CoreEvent::Message { level: NotificationLevel::Warn, message });
            self.stage = Stage::LoadModel;
            self.on_cpu = true;
            assert(event_views(events@) =~= seq![
                EventView::Message { level: NotificationLevel::Warn, message: said },
            ]);
            Ok(events)
        } else {
            Err(error)
        }
    }

    /// The model is loaded; the audio comes next.
    pub fn model_loaded(
        &mut self,
        backend: Backend,
        gpu_adapter: Option<GpuAdapterInfo>,
        elapsed: Elapsed,
    ) -> (events: Vec<CoreEvent>)
        requires
            old(self).well_formed(),
            old(self).stage == Stage::LoadModel,
            old(self).on_cpu ==> backend == Backend::Cpu,
            backend == Backend::Cpu ==> gpu_adapter is None,
        ensures
            final(self).well_formed(),
            *final(self) == after_load(*old(self), backend, gpu_adapter, elapsed),
            event_views(events@) == loaded_events(gpu_adapter),
    {
        let mut events: Vec<CoreEvent> = Vec::new();
        if let Some(info) = &gpu_adapter {
            events.push(
                CoreEvent::Message {
                    level: NotificationLevel::Info,
                    message: adapter_message(info),
                },
            );
        }
        events.push(status_event("audio_prepare", "preparing audio"));
        self.stage = Stage::PrepareAudio;
        self.backend = backend;
        assert(event_views(events@) =~= loaded_events(gpu_adapter));
        self.gpu_adapter = gpu_adapter;
        self.timings.model_load = elapsed;
        events
    }

    /// The audio is there; it is to be cut at its silences. `duration` is its length
    /// in seconds with two decimals.
    pub fn audio_prepared(&mut self, audio: PreparedAudioInfo, duration: &str, elapsed: Elapsed)
        -> (events: Vec<CoreEvent>)
        requires
            old(self).well_formed(),
            old(self).stage == Stage::PrepareAudio,
        ensures
            final(self).well_formed(),
            *final(self) == (ExtractSession {
                stage: Stage::Slice,
                audio,
                timings: ExtractTimings { audio_prepare: elapsed, ..old(self).timings },
                ..*old(self)
            }),
            event_views(events@) == seq![
                timing("audio_prepare"@, elapsed, audio_detail_text(audio, duration@)),
                status("silence_slice"@, "slicing audio on silence"@),
            ],
    {
        let mut events: Vec<CoreEvent> = Vec::new();
        events.push(
            timing_event("audio_prepare", elapsed, audio_prepare_detail(&audio, duration)),
        );
        events.push(status_event("silence_slice", "slicing audio on silence"));
        self.stage = Stage::Slice;
        self.audio = audio;
        self.timings.audio_prepare = elapsed;
        assert(event_views(events@) =~= seq![
            timing("audio_prepare"@, elapsed, audio_detail_text(audio, duration@)),
            status("silence_slice"@, "slicing audio on silence"@),
        ]);
        events
    }

    /// How the audio is to be cut.
    pub fn slicer_config(&self) -> (cfg: SlicerConfig)
        ensures
            cfg == (SlicerConfig {
                sample_rate: self.audio.sample_rate,
                threshold_db: 0xc220_0000,
                min_length_ms: 5_000,
                min_interval_ms: 300,
                hop_ms: 20,
                max_sil_kept_ms: 5_000,
            }),
    {
        let mut cfg = SlicerConfig::default();
        cfg.sample_rate = self.audio.sample_rate;
        cfg
    }

    /// The audio is cut into `count` slices; the long ones are to be split.
    pub fn sliced(&mut self, count: usize, elapsed: Elapsed) -> (events: Vec<CoreEvent>)
        requires
            old(self).well_formed(),
            old(self).stage == Stage::Slice,
        ensures
            final(self).well_formed(),
            *final(self) == (ExtractSession {
                stage: Stage::SplitLong,
                chunks_before_long_split: count,
                timings: ExtractTimings { silence_slice: elapsed, ..old(self).timings },
                ..*old(self)
            }),
            event_views(events@) == seq![
                timing("silence_slice"@, elapsed, "chunks="@ + decimal(count as nat)),
                status("long_chunk_split"@, "splitting long chunks"@),
            ],
    {
        let mut detail = String::from_str("chunks=");
        push_decimal(&mut detail, count as u64);
        let mut events: Vec<CoreEvent> = Vec::new();
        events.push(timing_event("silence_slice", elapsed, detail));
        events.push(status_event("long_chunk_split", "splitting long chunks"));
        self.stage = Stage::SplitLong;
        self.chunks_before_long_split = count;
        self.timings.silence_slice = elapsed;
        assert(event_views(events@) =~= seq![
            timing("silence_slice"@, elapsed, "chunks="@ + decimal(count as nat)),
            status("long_chunk_split"@, "splitting long chunks"@),
        ]);
        events
    }

    /// How long a chunk may be, in samples.
    pub fn max_chunk_samples(&self) -> (n: usize)
        ensures
            n == max_samples(
                self.audio.sample_rate as int,
                self.request.max_chunk_seconds as int,
            ),
    {
        saturating_product(self.audio.sample_rate, self.request.max_chunk_seconds)
    }

    /// There are `count` chunks; the mel extractor is to be set up.
    pub fn split(&mut self, count: usize, elapsed: Elapsed) -> (events: Vec<CoreEvent>)
        requires
            old(self).well_formed(),
            old(self).stage == Stage::SplitLong,
            count >= old(self).chunks_before_long_split,
        ensures
            final(self).well_formed(),
            *final(self) == (ExtractSession {
                stage: Stage::SetUpMel,
                chunk_count: count,
                timings: ExtractTimings { long_chunk_split: elapsed, ..old(self).timings },
                ..*old(self)
            }),
            event_views(events@) == seq![
                timing(
                    "long_chunk_split"@,
                    elapsed,
                    split_detail(
                        count as nat,
                        old(self).request.max_chunk_seconds as nat,
                        max_samples(
                            old(self).audio.sample_rate as int,
                            old(self).request.max_chunk_seconds as int,
                        ) as nat,
                    ),
                ),
                status("mel_setup"@, "initializing mel extractor"@),
            ],
    {
        let mut detail = String::from_str("chunks=");
        push_decimal(&mut detail, count as u64);
        detail.append(" max_chunk_seconds=");
        push_decimal(&mut detail, self.request.max_chunk_seconds as u64);
        detail.append(" max_chunk_samples=");
        push_decimal(&mut detail, self.max_chunk_samples() as u64);
        let ghost text = detail@;
        let mut events: Vec<CoreEvent> = Vec::new();
        events.push(timing_event("long_chunk_split", elapsed, detail));
        events.push(status_event("mel_setup", "initializing mel extractor"));
        self.stage = Stage::SetUpMel;
        self.chunk_count = count;
        self.timings.long_chunk_split = elapsed;
        assert(event_views(events@) =~= seq![
            timing("long_chunk_split"@, elapsed, text),
            status("mel_setup"@, "initializing mel extractor"@),
        ]);
        events
    }

    /// The mel extractor is set up and makes `total_frames` frames of the audio; the
    /// chunks are announced and inference begins.
    pub fn mel_ready(&mut self, total_frames: usize, elapsed: Elapsed) -> (events: Vec<CoreEvent>)
        requires
            old(self).well_formed(),
            old(self).stage == Stage::SetUpMel,
        ensures
            final(self).well_formed(),
            *final(self) == (ExtractSession {
                stage: Stage::Infer,
                total_frames,
                timings: ExtractTimings { mel_setup: elapsed, ..old(self).timings },
                ..*old(self)
            }),
            event_views(events@) == seq![
                timing("mel_setup"@, elapsed, "frames="@ + decimal(total_frames as nat)),
                EventView::ChunkPlan { total: old(self).chunk_count as int },
                status(
                    "extract_infer"@,
                    "running inference across "@ + decimal(old(self).chunk_count as nat)
                        + " chunk(s)"@,
                ),
            ],
    {
        let mut detail = String::from_str("frames=");
        push_decimal(&mut detail, total_frames as u64);
        let mut message = String::from_str("running inference across ");
        push_decimal(&mut message, self.chunk_count as u64);
        message.append(" chunk(s)");
        let ghost said = message@;
        let mut events: Vec<CoreEvent> = Vec::new();
        events.push(timing_event("mel_setup", elapsed, detail));
        events.push(CoreEvent::ChunkPlan { total: self.chunk_count });
        events.push(status_event("extract_infer", &message));
        self.stage = Stage::Infer;
        self.total_frames = total_frames;
        self.timings.mel_setup = elapsed;
        assert(event_views(events@) =~= seq![
            timing("mel_setup"@, elapsed, "frames="@ + decimal(total_frames as nat)),
            EventView::ChunkPlan { total: self.chunk_count as int },
            status("extract_infer"@, said),
        ]);
        events
    }

    /// The chunks gave `notes` notes; they are to be written where that is asked for.
    pub fn inferred(&mut self, notes: usize, elapsed: Elapsed) -> (events: Vec<CoreEvent>)
        requires
            old(self).well_formed(),
            old(self).stage == Stage::Infer,
        ensures
            final(self).well_formed(),
            *final(self) == (ExtractSession {
                stage: if old(self).request.output is Some {
                    Stage::Write
                } else {
                    Stage::Done
                },
                timings: ExtractTimings { inference: elapsed, ..old(self).timings },
                ..*old(self)
            }),
            event_views(events@) == inferred_events(*old(self), notes as nat, elapsed),
    {
        let mut detail = String::from_str("chunks=");
        push_decimal(&mut detail, self.chunk_count as u64);
        detail.append(" notes=");
        push_decimal(&mut detail, notes as u64);
        let mut events: Vec<CoreEvent> = Vec::new();
        events.push(timing_event("extract_infer", elapsed, detail));
        if self.request.output.is_some() {
            events.push(status_event("output_write", "writing output"));
            self.stage = Stage::Write;
        } else {
            self.stage = Stage::Done;
        }
        self.timings.inference = elapsed;
        assert(event_views(events@) =~= inferred_events(*old(self), notes as nat, elapsed));
        events
    }

    /// The output is written.
    pub fn written(&mut self, elapsed: Elapsed) -> (events: Vec<CoreEvent>)
        requires
            old(self).well_formed(),
            old(self).stage == Stage::Write,
            old(self).request.output is Some,
        ensures
            final(self).well_formed(),
            *final(self) == (ExtractSession {
                stage: Stage::Done,
                timings: ExtractTimings { output_write: elapsed, ..old(self).timings },
                ..*old(self)
            }),
            event_views(events@) == seq![
                timing(
                    "output_write"@,
                    elapsed,
                    written_detail(
                        old(self).request.output->0.path.text@,
                        format_for(
                            old(self).request.output->0.format,
                            old(self).request.output->0.path@,
                        ),
                    ),
                ),
            ],
    {
        let mut events: Vec<CoreEvent> = Vec::new();
        if let Some(output) = &self.request.output {
            let mut detail = String::from_str("path=");
            detail.append(&output.path.text);
            detail.append(" format=");
            detail.append(extract_format_name(output.resolved_format()));
            let ghost text = detail@;
            events.push(timing_event("output_write", elapsed, detail));
            assert(event_views(events@) =~= seq![timing("output_write"@, elapsed, text)]);
        }
        self.stage = Stage::Done;
        self.timings.output_write = elapsed;
        events
    }

    /// Ends the run.
    pub fn finish<N>(self, notes: Vec<N>, timestep_seconds: u32, total: Elapsed) -> (result:
        ExtractResult<N>)
        requires
            self.well_formed(),
            self.stage == Stage::Done,
        ensures
            result.backend == Backend::Cpu ==> result.gpu_adapter is None,
            result.chunks_before_long_split <= result.chunk_count,
            result.output is None ==> result.timings.output_write == no_time(),
            result.notes == notes,
            result.backend == self.backend,
            result.gpu_adapter == self.gpu_adapter,
            result.audio == self.audio,
            result.total_frames == self.total_frames,
            result.timestep_seconds == timestep_seconds,
            result.chunk_count == self.chunk_count,
            result.chunks_before_long_split == self.chunks_before_long_split,
            result.timings == (ExtractTimings { total, ..self.timings }),
            match self.request.output {
                Some(output) => result.output matches Some(o) && o.path@ == output.path@
                    && o.format == format_for(output.format, output.path@),
                None => result.output is None,
            },
    {
        let output = match &self.request.output {
            Some(output) => Some(
                ExtractOutputResult {
                    path: output.path.duplicate(),
                    format: output.resolved_format(),
                },
            ),
            None => None,
        };
        let mut timings = self.timings;
        timings.total = total;
        ExtractResult {
            notes,
            backend: self.backend,
            gpu_adapter: self.gpu_adapter,
            audio: self.audio,
            total_frames: self.total_frames,
            timestep_seconds,
            chunk_count: self.chunk_count,
            chunks_before_long_split: self.chunks_before_long_split,
            output,
            timings,
        }
    }
}

/// A run whose inference failed on the GPU ends on the CPU: the plan is the CPU alone,
/// and once the model is loaded there, a further failure is not made good again.
pub proof fn law_retry_ends_on_the_cpu(
    s: ExtractSession,
    gpu_built: bool,
    r: Result<LoadPlan, Error>,
    gpu_adapter: Option<GpuAdapterInfo>,
    elapsed: Elapsed,
)
    requires
        may_retry(s),
        is_plan(
            if after_gpu_failure(s).on_cpu {
                ExtractDevice::Cpu
            } else {
                s.request.device
            },
            s.request.gpu,
            gpu_built,
            r,
        ),
    ensures
        r == Ok::<LoadPlan, Error>(LoadPlan::Cpu),
        ({
            let again = after_load(after_gpu_failure(s), Backend::Cpu, gpu_adapter, elapsed);
            again.backend == Backend::Cpu && again.request == s.request && !may_retry(again)
        }),
{
}

/// What is reported once the model is loaded.
pub open spec fn loaded_events(gpu_adapter: Option<GpuAdapterInfo>) -> Seq<EventView> {
    let next = status("audio_prepare"@, "preparing audio"@);
    match gpu_adapter {
        Some(info) => seq![
            EventView::Message {
                level: NotificationLevel::Info,
                message: adapter_message_text(info),
            },
            next,
        ],
        None => seq![next],
    }
}

/// What is reported at the end of inference.
pub open spec fn inferred_events(s: ExtractSession, notes: nat, elapsed: Elapsed) -> Seq<
    EventView,
> {
    let told = timing(
        "extract_infer"@,
        elapsed,
        "chunks="@ + decimal(s.chunk_count as nat) + " notes="@ + decimal(notes),
    );
    if s.request.output is Some {
        seq![told, status("output_write"@, "writing output"@)]
    } else {
        seq![told]
    }
}

/// What a session tells of its stages: the adapter first, where there is one, and then the
/// stage that begins; how long inference took, and then the output that is written, where
/// there is one.
pub proof fn law_stages_are_told(
    s: ExtractSession,
    gpu_adapter: Option<GpuAdapterInfo>,
    notes: nat,
    elapsed: Elapsed,
)
    ensures
        ({
            let begins = EventView::Status {
                stage: "audio_prepare"@,
                message: "preparing audio"@,
                chunk: None,
            };
            &&& gpu_adapter is None ==> loaded_events(gpu_adapter) == seq![begins]
            &&& gpu_adapter matches Some(info) ==> loaded_events(gpu_adapter) == seq![
                EventView::Message {
                    level: NotificationLevel::Info,
                    message: "gpu adapter: "@ + info.name@ + " (backend="@ + info.backend@
                        + ", type="@ + info.device_type@ + ", vendor="@ + id_text(info.vendor_id)
                        + ", device="@ + id_text(info.device_id) + ")"@,
                },
                begins,
            ]
        }),
        ({
            let told = EventView::Timing {
                stage: "extract_infer"@,
                elapsed,
                detail: Some(
                    "chunks="@ + decimal(s.chunk_count as nat) + " notes="@ + decimal(notes),
                ),
                chunk: None,
            };
            let writing = EventView::Status {
                stage: "output_write"@,
                message: "writing output"@,
                chunk: None,
            };
            &&& s.request.output is None ==> inferred_events(s, notes, elapsed) == seq![told]
            &&& s.request.output is Some ==> inferred_events(s, notes, elapsed) == seq![
                told,
                writing,
            ]
        }),
{
}

/// A run is taken up again on the CPU only where the device was left open and inference
/// failed on the GPU. What it was told before is forgotten from the loading of the model
/// on: the next model that is loaded replaces backend, adapter and time, and nothing else.
pub proof fn law_only_open_runs_are_retried(
    s: ExtractSession,
    backend: Backend,
    gpu_adapter: Option<GpuAdapterInfo>,
    elapsed: Elapsed,
)
    ensures
        may_retry(s) <==> s.request.device == ExtractDevice::Auto && s.backend == Backend::Gpu,
        ({
            let t = after_gpu_failure(s);
            &&& t.stage == Stage::LoadModel
            &&& t.on_cpu
            &&& t == (ExtractSession { stage: t.stage, on_cpu: t.on_cpu, ..s })
        }),
        ({
            let t = after_load(s, backend, gpu_adapter, elapsed);
            &&& t.stage == Stage::PrepareAudio
            &&& t.backend == backend
            &&& t.gpu_adapter == gpu_adapter
            &&& t.timings.model_load == elapsed
            &&& t == (ExtractSession {
                stage: t.stage,
                backend: t.backend,
                gpu_adapter: t.gpu_adapter,
                timings: t.timings,
                ..s
            })
            &&& t.timings == (ExtractTimings { model_load: elapsed, ..s.timings })
        }),
{
}

/// The longest chunk has as many samples as its seconds have at the rate, or as many as can
/// be counted.
pub proof fn law_longest_chunk_lasts_its_seconds(sample_rate: int, seconds: int)
    requires
        0 <= sample_rate,
        0 <= seconds,
    ensures
        max_samples(sample_rate, seconds) <= sample_rate * seconds,
        max_samples(sample_rate, seconds) <= usize::MAX,
        max_samples(sample_rate, seconds) == sample_rate * seconds || max_samples(
            sample_rate,
            seconds,
        ) == usize::MAX,
{
}

/// Audio is described by its rate; where it was resampled or mixed down, by what it was
/// before as well.
pub proof fn law_audio_is_described(audio: PreparedAudioInfo, arrow: Seq<char>)
    ensures
        audio.sample_rate == audio.source_sample_rate && audio.source_channels == 1 ==> audio_text(
            audio,
            arrow,
        ) == decimal(audio.sample_rate as nat) + " Hz mono"@,
        audio.sample_rate != audio.source_sample_rate || audio.source_channels != 1 ==> audio_text(
            audio,
            arrow,
        ) == decimal(audio.source_sample_rate as nat) + " Hz/"@ + decimal(
            audio.source_channels as nat,
        ) + " ch"@ + arrow + decimal(audio.sample_rate as nat) + " Hz mono"@,
{
}

} // verus!
