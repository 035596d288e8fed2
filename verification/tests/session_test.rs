use game_rs::audio::{PreparedWaveform, SliceChunk};
use game_rs::error::Error;
use game_rs::notify::{ChunkContext, CoreEvent, Elapsed, NotificationLevel};
use game_rs::paths::FilePath;
use game_rs::service::{
    Backend, ExtractDevice, ExtractFormat, ExtractOutputRequest, ExtractRequest, LoadPlan,
};
use game_rs::service_chunks::{
    chunk_label, chunk_start_events, collect_chunks, prefix_event, prefix_text,
    ChunkInferenceResult, ChunkSpan,
};
use game_rs::service_session::{
    describe_audio, extract, gpu_adapter_info, ExtractSession, PreparedAudioInfo, Stage,
};
use game_rs::tensor::adapter::{AdapterInfo, GpuBackend, GpuDeviceType};

/// A path and its parts.
fn file_path(text: &str) -> FilePath {
    let path = std::path::Path::new(text);
    FilePath {
        text: text.to_string(),
        name: path.file_name().map(|part| part.to_str().unwrap().to_string()),
        stem: path.file_stem().map(|part| part.to_str().unwrap().to_string()),
        extension: path.extension().map(|part| part.to_str().unwrap().to_string()),
        parent: path.parent().map(|part| part.to_str().unwrap().to_string()),
        bare: path.with_extension("").to_str().unwrap().to_string(),
    }
}

fn time(nanos: u64) -> Elapsed {
    Elapsed { nanos }
}

fn audio() -> PreparedAudioInfo {
    PreparedAudioInfo::of_waveform(&PreparedWaveform {
        samples: vec![0.0f32; 88_200],
        sample_rate: 44_100,
        source_sample_rate: 48_000,
        source_channels: 2,
    })
}

fn stages(events: &[CoreEvent]) -> Vec<String> {
    events
        .iter()
        .map(|e| match e {
            CoreEvent::Status { stage, message, .. } => format!("{stage}: {message}"),
            CoreEvent::Timing { stage, detail, .. } => {
                format!("{stage} took: {}", detail.clone().unwrap_or_default())
            }
            CoreEvent::ChunkPlan { total } => format!("plan {total}"),
            _ => "other".to_string(),
        })
        .collect()
}

#[test]
fn a_run_goes_through_its_stages() {
    let request = ExtractRequest {
        model_path: "model.gguf".into(),
        input_path: "input.wav".into(),
        output: Some(ExtractOutputRequest {
            path: file_path("notes.csv"),
            format: None,
            midi_options: Default::default(),
            text_options: Default::default(),
        }),
        max_chunk_seconds: 1,
        ..ExtractRequest::default()
    };
    let mut run = extract(request).unwrap();
    assert_eq!(run.stage, Stage::LoadModel);
    let events = run.model_loaded(Backend::Cpu, None, time(1));
    assert_eq!(stages(&events), vec!["audio_prepare: preparing audio"]);
    let events = run.audio_prepared(audio(), "2.00", time(2));
    assert_eq!(
        stages(&events),
        vec![
            "audio_prepare took: 48000 Hz/2 ch -> 44100 Hz mono, samples=88200, duration=2.00s",
            "silence_slice: slicing audio on silence",
        ]
    );
    assert_eq!(run.slicer_config().sample_rate, 44_100);
    let events = run.sliced(1, time(3));
    assert_eq!(
        stages(&events),
        vec!["silence_slice took: chunks=1", "long_chunk_split: splitting long chunks"]
    );
    assert_eq!(run.max_chunk_samples(), 44_100);
    let events = run.split(2, time(4));
    assert_eq!(
        stages(&events),
        vec![
            "long_chunk_split took: chunks=2 max_chunk_seconds=1 max_chunk_samples=44100",
            "mel_setup: initializing mel extractor",
        ]
    );
    let events = run.mel_ready(200, time(5));
    assert!(stages(&events).iter().any(|s| s.contains("running inference across 2 chunk(s)")));
    run.inferred(7, time(6));
    assert_eq!(run.stage, Stage::Write);
    run.written(time(7));
    assert_eq!(run.stage, Stage::Done);
    let result = run.finish(vec!["note"], 0.01f32.to_bits(), time(100));
    assert_eq!(result.notes, vec!["note"]);
    assert_eq!(result.chunk_count, 2);
    assert_eq!(result.chunks_before_long_split, 1);
    assert_eq!(result.total_frames, 200);
    let output = result.output.unwrap();
    assert_eq!(output.path.text, "notes.csv");
    assert_eq!(output.format, ExtractFormat::Csv);
    let t = result.timings;
    let all = [
        t.model_load,
        t.audio_prepare,
        t.silence_slice,
        t.long_chunk_split,
        t.mel_setup,
        t.inference,
        t.output_write,
        t.total,
    ];
    assert_eq!(all.map(|e| e.nanos), [1, 2, 3, 4, 5, 6, 7, 100]);
}

#[test]
fn audio_is_described_with_its_source_where_that_differs() {
    assert_eq!(describe_audio(&audio(), " -> "), "48000 Hz/2 ch -> 44100 Hz mono");
    let plain = PreparedAudioInfo { source_sample_rate: 44_100, source_channels: 1, ..audio() };
    assert_eq!(describe_audio(&plain, " -> "), "44100 Hz mono");
}

#[test]
fn adapters_of_a_run_have_small_backend_names() {
    let info = gpu_adapter_info(&AdapterInfo {
        name: "Card".to_string(),
        vendor: 1,
        device: 2,
        device_type: GpuDeviceType::DiscreteGpu,
        backend: GpuBackend::Vulkan,
    });
    assert_eq!(info.name, "Card");
    assert_eq!(info.backend, "vulkan");
    assert_eq!((info.vendor_id, info.device_id), (1, 2));
}

#[test]
fn events_of_a_chunk_carry_its_label() {
    assert_eq!(chunk_label(2, 5), "chunk 3/5");
    assert_eq!(prefix_text(2, 5, "t=0.500"), "chunk 3/5: t=0.500");
    let event = CoreEvent::Status { stage: "d3pm", message: "step".to_string(), chunk: None };
    match prefix_event(event, ChunkContext { index: 2, count: 5 }) {
        CoreEvent::Status { message, chunk, .. } => {
            assert_eq!(message, "chunk 3/5: step");
            assert_eq!(chunk, Some(ChunkContext { index: 2, count: 5 }));
        }
        _ => panic!("a status stays a status"),
    }
    let spans = vec![ChunkSpan { offset: "0.00".to_string(), duration: "4.56".to_string() }];
    assert_eq!(
        stages(&chunk_start_events(&spans)),
        vec!["chunk_infer: chunk 1/1: infer start offset=0.00s duration=4.56s"]
    );
}

fn part(index: usize, notes: Vec<u32>) -> Result<ChunkInferenceResult<u32>, Error> {
    Ok(ChunkInferenceResult { index, notes, elapsed: time(1) })
}

#[test]
fn notes_of_chunks_come_in_the_order_of_the_chunks() {
    let parts = vec![part(2, vec![3]), part(0, vec![1, 2]), part(1, vec![])];
    let shift = |note: &u32, slice: usize, split: usize, rate: usize| {
        note + ((slice + split) * 1_000 / rate) as u32
    };
    let place = |slice_start: usize, split_start: usize| SliceChunk {
        slice_start,
        split_start,
        waveform: vec![0.0f32],
    };
    let chunks = vec![place(0, 0), place(200, 0), place(200, 50)];
    let (result, events) = collect_chunks(parts, &chunks, 100, shift).unwrap();
    assert_eq!(result.notes, vec![1, 2, 2_503]);
    assert_eq!(result.chunk_count, 3);
    assert_eq!(
        stages(&events),
        vec![
            "chunk_infer took: chunk 1/3 notes=2",
            "chunk_infer took: chunk 2/3 notes=0",
            "chunk_infer took: chunk 3/3 notes=1",
        ]
    );
    let failing = vec![part(0, vec![1]), Err(Error::message("no memory")), part(2, vec![])];
    assert_eq!(collect_chunks(failing, &chunks, 100, shift).unwrap_err().text, "chunk 2/3: no memory");
}

fn run_up_to_inference(run: &mut ExtractSession, backend: Backend) {
    run.model_loaded(backend, None, time(1));
    run.audio_prepared(audio(), "2.00", time(2));
    run.sliced(1, time(3));
    run.split(2, time(4));
    run.mel_ready(200, time(5));
}

#[test]
fn a_failure_on_the_gpu_is_made_good_on_the_cpu() {
    let mut run = extract(ExtractRequest::default()).unwrap();
    assert!(matches!(run.load_plan(true), Ok(LoadPlan::GpuOrCpu)));
    run_up_to_inference(&mut run, Backend::Gpu);
    let events = run.inference_failed(Error::message("device lost")).unwrap();
    match &events[..] {
        [CoreEvent::Message { level: NotificationLevel::Warn, message }] => {
            assert_eq!(message, "GPU backend unavailable (device lost); falling back to CPU")
        }
        _ => panic!("a warning is given"),
    }
    assert_eq!(run.stage, Stage::LoadModel);
    assert!(matches!(run.load_plan(true), Ok(LoadPlan::Cpu)));
    run_up_to_inference(&mut run, Backend::Cpu);
    let mut again = extract(ExtractRequest::default()).unwrap();
    run_up_to_inference(&mut again, Backend::Cpu);
    assert_eq!(again.inference_failed(Error::message("no memory")).err().unwrap().text, "no memory");
    run.inferred(7, time(6));
    assert_eq!(run.stage, Stage::Done);
    let result = run.finish(vec![1u8], 0, time(9));
    assert_eq!(result.backend, Backend::Cpu);
}

#[test]
fn a_failure_on_a_gpu_that_was_asked_for_stands() {
    let request = ExtractRequest { device: ExtractDevice::Gpu, ..ExtractRequest::default() };
    let mut run = extract(request).unwrap();
    run_up_to_inference(&mut run, Backend::Gpu);
    let error = run.inference_failed(Error::message("device lost")).err().unwrap();
    assert_eq!(error.text, "device lost");
    assert_eq!(run.stage, Stage::Infer);
}
