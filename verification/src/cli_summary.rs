//! The command line's request, and what it prints of a result.
use vstd::prelude::*;
use vstd::string::*;

use crate::cli_progress::{line_view, push_span, span, Line, LineView, TextStyle};
use crate::gui::results::chunk_summary;
use crate::midi_writer::MidiWriteOptions;
use crate::notify::{duration_text, format_duration};
use crate::output::TextWriteOptions;
use crate::paths::{text_view, FilePath};
use crate::service::{
    backend_name, backend_text, extract_format_name, format_text, ChunkParallelism, ExtractDevice,
    ExtractFormat, ExtractOutputRequest, ExtractRequest, GpuSelector, InferParams,
};
use crate::service_session::{
    audio_text, describe_audio, ExtractOutputResult, ExtractResult, ExtractTimings,
};
use crate::text::{count_text, decimal, decimal_string, format_count, push_decimal};

verus! {

// ---------------------------------------------------------------------------
// The request
// ---------------------------------------------------------------------------
/// What was asked for on the command line. Fractions are bit patterns of
/// single-precision numbers.
#[derive(Debug)]
pub struct ExtractArgs {
    pub model: String,
    pub output: FilePath,
    pub format: Option<ExtractFormat>,
    pub device: Option<ExtractDevice>,
    pub language: i32,
    pub d3pm_nsteps: i32,
    pub d3pm_t0: u32,
    pub boundary_threshold: u32,
    pub boundary_radius: i32,
    pub note_threshold: u32,
    pub seed: u64,
    pub chunk_parallelism: ChunkParallelism,
    pub max_chunk_seconds: usize,
    pub gpu_name: Option<String>,
    pub gpu_vendor_id: Option<u32>,
    pub gpu_device_id: Option<u32>,
    pub input: String,
}

/// `r` asks for what the command line asks for; without a device, for any.
pub open spec fn is_request(args: ExtractArgs, r: ExtractRequest) -> bool {
    &&& r.model_path@ == args.model@
    &&& r.input_path@ == args.input@
    &&& r.output matches Some(o) && o.path@ == args.output@ && o.format == args.format
        && o.midi_options == (MidiWriteOptions { tempo_bpm: 120, velocity: 96, ticks_per_qn: 480 })
        && o.text_options == (TextWriteOptions { round_pitch: false, use_pitch_names: false })
    &&& r.device == match args.device {
        Some(device) => device,
        None => ExtractDevice::Auto,
    }
    &&& text_view(r.gpu.name_substring) == text_view(args.gpu_name)
    &&& r.gpu.vendor_id == args.gpu_vendor_id
    &&& r.gpu.device_id == args.gpu_device_id
    &&& r.infer_params == (InferParams {
        language: args.language,
        d3pm_t0: args.d3pm_t0,
        d3pm_nsteps: args.d3pm_nsteps,
        boundary_threshold: args.boundary_threshold,
        boundary_radius: args.boundary_radius,
        note_threshold: args.note_threshold,
        seed: args.seed,
    })
    &&& r.chunk_parallelism == args.chunk_parallelism
    &&& r.max_chunk_seconds == args.max_chunk_seconds
}

/// Makes the request that the command line asks for.
pub fn build_extract_request(args: &ExtractArgs) -> (r: ExtractRequest)
    ensures
        is_request(*args, r),
{
    ExtractRequest {
        model_path: String::from_str(&args.model),
        input_path: String::from_str(&args.input),
        output: Some(
            ExtractOutputRequest {
                path: args.output.duplicate(),
                format: args.format,
                midi_options: MidiWriteOptions::default(),
                text_options: TextWriteOptions::default(),
            },
        ),
        device: match args.device {
            Some(device) => device,
            None => ExtractDevice::Auto,
        },
        gpu: GpuSelector {
            name_substring: match &args.gpu_name {
                Some(name) => Some(String::from_str(name)),
                None => None,
            },
            vendor_id: args.gpu_vendor_id,
            device_id: args.gpu_device_id,
        },
        infer_params: InferParams {
            language: args.language,
            d3pm_t0: args.d3pm_t0,
            d3pm_nsteps: args.d3pm_nsteps,
            boundary_threshold: args.boundary_threshold,
            boundary_radius: args.boundary_radius,
            note_threshold: args.note_threshold,
            seed: args.seed,
        },
        chunk_parallelism: args.chunk_parallelism,
        max_chunk_seconds: args.max_chunk_seconds,
    }
}

// ---------------------------------------------------------------------------
// The summary
// ---------------------------------------------------------------------------
pub open spec fn no_spans() -> LineView {
    Seq::empty()
}

pub open spec fn extracted_line<N>(result: ExtractResult<N>, realtime: Seq<char>) -> LineView {
    no_spans().push(span(TextStyle::Completed, "Extracted"@)).push(
        span(TextStyle::Plain, " "@ + decimal(result.notes@.len()) + " notes in "@),
    ).push(span(TextStyle::Timing, duration_text(result.timings.total))).push(
        span(TextStyle::Plain, " ("@ + realtime + "x realtime)"@),
    )
}

pub open spec fn audio_line<N>(result: ExtractResult<N>) -> LineView {
    no_spans().push(span(TextStyle::Plain, "  "@)).push(span(TextStyle::Label, "Audio"@)).push(
        span(TextStyle::Plain, " "@ + audio_text(result.audio, " \u{2192} "@) + " | "@),
    ).push(span(TextStyle::Label, "Frames"@)).push(
        span(TextStyle::Plain, " "@ + count_text(result.total_frames as nat) + " | "@),
    ).push(span(TextStyle::Label, "Chunks"@)).push(
        span(
            TextStyle::Plain,
            " "@ + chunk_summary(
                result.chunks_before_long_split as nat,
                result.chunk_count as nat,
            ),
        ),
    )
}

/// Two blanks, a label and the rest.
pub open spec fn label_line(label: Seq<char>, rest: Seq<char>) -> LineView {
    no_spans().push(span(TextStyle::Plain, "  "@)).push(span(TextStyle::Label, label)).push(
        span(TextStyle::Plain, rest),
    )
}

pub open spec fn backend_rest<N>(result: ExtractResult<N>) -> Seq<char> {
    match result.gpu_adapter {
        Some(adapter) => " "@ + backend_text(result.backend) + " ("@ + adapter.name@ + ")"@,
        None => " "@ + backend_text(result.backend),
    }
}

pub open spec fn output_rest(output: ExtractOutputResult) -> Seq<char> {
    " "@ + output.path.text@ + " ("@ + format_text(output.format) + ")"@
}

pub open spec fn timings_rest(t: ExtractTimings) -> Seq<char> {
    " load="@ + duration_text(t.model_load) + " audio="@ + duration_text(t.audio_prepare)
        + " infer="@ + duration_text(t.inference) + " write="@ + duration_text(t.output_write)
}

/// The lines about a result: the first is empty where no bars are shown.
pub open spec fn summary<N>(result: ExtractResult<N>, use_progress: bool, realtime: Seq<char>) -> Seq<
    LineView,
> {
    let lines: Seq<LineView> = if use_progress {
        Seq::empty()
    } else {
        Seq::empty().push(no_spans().push(span(TextStyle::Plain, ""@)))
    };
    let lines = lines.push(extracted_line(result, realtime)).push(audio_line(result)).push(
        label_line("Backend"@, backend_rest(result)),
    );
    let lines = match result.output {
        Some(output) => lines.push(label_line("Output"@, output_rest(output))),
        None => lines,
    };
    lines.push(label_line("Timings"@, timings_rest(result.timings)))
}

pub open spec fn line_views(lines: Seq<Line>) -> Seq<LineView> {
    lines.map_values(|line: Line| line_view(line@))
}

fn push_line(lines: &mut Vec<Line>, line: Line)
    ensures
        line_views(final(lines)@) == line_views(old(lines)@).push(line_view(line@)),
{
    lines.push(line);
    assert(line_views(lines@) =~= line_views(old(lines)@).push(line_view(line@)));
}

fn empty_line() -> (line: Line)
    ensures
        line_view(line@) == no_spans(),
{
    let line: Line = Vec::new();
    assert(line_view(line@) =~= no_spans());
    line
}

fn labelled(label: &str, rest: &str) -> (line: Line)
    ensures
        line_view(line@) == label_line(label@, rest@),
{
    let mut line = empty_line();
    push_span(&mut line, TextStyle::Plain, "  ");
    push_span(&mut line, TextStyle::Label, label);
    push_span(&mut line, TextStyle::Plain, rest);
    line
}

fn first_line<N>(result: &ExtractResult<N>, realtime: &str) -> (line: Line)
    ensures
        line_view(line@) == extracted_line(*result, realtime@),
{
    let mut line = empty_line();
    push_span(&mut line, TextStyle::Completed, "Extracted");
    let mut s = String::from_str(" ");
    push_decimal(&mut s, result.notes.len() as u64);
    s.append(" notes in ");
    push_span(&mut line, TextStyle::Plain, &s);
    push_span(&mut line, TextStyle::Timing, &format_duration(result.timings.total));
    let mut s = String::from_str(" (");
    s.append(realtime);
    s.append("x realtime)");
    push_span(&mut line, TextStyle::Plain, &s);
    line
}

fn second_line<N>(result: &ExtractResult<N>) -> (line: Line)
    ensures
        line_view(line@) == audio_line(*result),
{
    let mut line = empty_line();
    push_span(&mut line, TextStyle::Plain, "  ");
    push_span(&mut line, TextStyle::Label, "Audio");
    let mut s = String::from_str(" ");
    s.append(&describe_audio(&result.audio, " \u{2192} "));
    s.append(" | ");
    push_span(&mut line, TextStyle::Plain, &s);
    push_span(&mut line, TextStyle::Label, "Frames");
    let mut s = String::from_str(" ");
    s.append(&format_count(result.total_frames as u64));
    s.append(" | ");
    push_span(&mut line, TextStyle::Plain, &s);
    push_span(&mut line, TextStyle::Label, "Chunks");
    let mut s = String::from_str(" ");
    if result.chunks_before_long_split != result.chunk_count {
        let mut counts = decimal_string(result.chunks_before_long_split as u64);
        counts.append(" -> ");
        push_decimal(&mut counts, result.chunk_count as u64);
        s.append(&counts);
    } else {
        s.append(&decimal_string(result.chunk_count as u64));
    }
    push_span(&mut line, TextStyle::Plain, &s);
    line
}

/// Makes the lines about a result; `realtime` is how many times faster than the
/// audio the model was, with two decimals.
pub fn print_summary<N>(result: &ExtractResult<N>, use_progress: bool, realtime: &str) -> (lines:
    Vec<Line>)
    ensures
        line_views(lines@) == summary(*result, use_progress, realtime@),
{
    let mut lines: Vec<Line> = Vec::new();
    assert(line_views(lines@) =~= Seq::empty());
    if !use_progress {
        let mut line = empty_line();
        push_span(&mut line, TextStyle::Plain, "");
        push_line(&mut lines, line);
    }
    push_line(&mut lines, first_line(result, realtime));
    push_line(&mut lines, second_line(result));
    let mut s = String::from_str(" ");
    s.append(backend_name(result.backend));
    if let Some(adapter) = &result.gpu_adapter {
        s.append(" (");
        s.append(&adapter.name);
        s.append(")");
    }
    push_line(&mut lines, labelled("Backend", &s));
    if let Some(output) = &result.output {
        let mut s = String::from_str(" ");
        s.append(&output.path.text);
        s.append(" (");
        s.append(extract_format_name(output.format));
        s.append(")");
        push_line(&mut lines, labelled("Output", &s));
    }
    let mut s = String::from_str(" load=");
    s.append(&format_duration(result.timings.model_load));
    s.append(" audio=");
    s.append(&format_duration(result.timings.audio_prepare));
    s.append(" infer=");
    s.append(&format_duration(result.timings.inference));
    s.append(" write=");
    s.append(&format_duration(result.timings.output_write));
    push_line(&mut lines, labelled("Timings", &s));
    lines
}

} // verus!
