use game_rs::cli::PanicContext;
use game_rs::cli_progress::{
    format_stage_line, log_event, truncate, written_file, Action, BarPlace, Line, RichNotifier,
    TextStyle,
};
use game_rs::cli_summary::{build_extract_request, print_summary, ExtractArgs};
use game_rs::notify::{ChunkContext, CoreEvent, Elapsed, NotificationLevel};
use game_rs::paths::FilePath;
use game_rs::profiler::{
    cpu_profiling_enabled, entry_line, log_profile_section, profile_top_n, report_order,
    section_line, CpuProfiler,
    ProfileKind,
};
use game_rs::service::{
    Backend, ChunkParallelism, ExtractDevice, ExtractFormat, ExtractRequest,
};
use game_rs::service_session::{extract, PreparedAudioInfo};

/// A path and its parts.
fn file_path(text: &str) -> FilePath {
    let path = std::path::Path::new(text);
    FilePath {
        text: text.to_string(),
        name: path.file_name().map(|part| part.to_str().unwrap().to_string()),
        stem: path.file_stem().map(|part| part.to_str().unwrap().to_string()),
        extension: path.extension().map(|part| part.to_str().unwrap().to_string()),
        parent: path.parent().map(|part| part.to_str().unwrap().to_string()),
        bare: path.with_extension("").to_str().unwrap().to_string(),
    }
}

fn text(line: &Line) -> String {
    line.iter().map(|span| span.text.as_str()).collect()
}

fn time(nanos: u64) -> Elapsed {
    Elapsed { nanos }
}

fn status(stage: &'static str, message: &str) -> CoreEvent {
    CoreEvent::Status { stage, message: message.to_string(), chunk: None }
}

#[test]
fn lines_are_cut_to_the_terminal() {
    assert_eq!(truncate("abcdef", 4), "abcd");
    assert_eq!(truncate("abcdef", 0), "abcdef");
    assert_eq!(truncate("\u{6f22}\u{5b57}\u{5b57}", 4), "\u{6f22}\u{5b57}");
}

#[test]
fn stage_lines_put_the_time_at_the_right() {
    let line = format_stage_line("Model loaded", "CPU", time(1_500_000_000));
    let shown = text(&line);
    assert!(shown.starts_with("  Model loaded [CPU]"));
    assert!(shown.ends_with("1.500s"));
    assert!(line.iter().any(|s| s.style == TextStyle::Timing && s.text == "1.500s"));
    let other = text(&format_stage_line("Audio prepared", "", time(0)));
    assert_eq!(shown.len(), other.len());
}

#[test]
fn events_are_logged_with_their_stage() {
    let (level, line) = log_event(&status("mel_setup", "initializing")).unwrap();
    assert_eq!(level, NotificationLevel::Info);
    assert_eq!(line, "[mel_setup] initializing");
    assert!(log_event(&CoreEvent::ChunkPlan { total: 3 }).is_none());
}

#[test]
fn bars_follow_the_chunks() {
    let mut notifier = RichNotifier::new(true, false);
    notifier.start(true, "in.wav", "out.mid");
    notifier.notify(&status("extract_infer", "running inference across 3 chunk(s)"), None);
    assert_eq!(notifier.total_chunks, Some(3));
    let second = notifier
        .notify(&status("chunk_infer", "chunk 2/3: infer start offset=0.00s duration=1.00s"), None);
    assert!(second.iter().any(|a| *a
        == Action::AddBar { index: 1, place: BarPlace::AfterRoot }));
    let first = notifier
        .notify(&status("chunk_infer", "chunk 1/3: infer start offset=0.00s duration=1.00s"), None);
    assert!(first.iter().any(|a| *a
        == Action::AddBar { index: 0, place: BarPlace::Before(1) }));
    assert_eq!(notifier.chunk_bars, vec![0, 1]);
    let ended = CoreEvent::Timing {
        stage: "infer_total",
        elapsed: time(1),
        detail: Some("chunk 1/3 notes=4".to_string()),
        chunk: Some(ChunkContext { index: 0, count: 3 }),
    };
    notifier.notify(&ended, None);
    assert_eq!(notifier.chunk_bars, vec![1]);
    assert_eq!(notifier.completed_chunks, 1);
    let last = notifier.finish();
    assert!(last.contains(&Action::ClearBars));
    assert!(last.contains(&Action::RootFinish));
}

#[test]
fn arguments_become_a_request() {
    let args = ExtractArgs {
        model: "model.gguf".to_string(),
        output: file_path("notes.txt"),
        format: None,
        device: Some(ExtractDevice::Gpu),
        language: 1,
        d3pm_nsteps: 4,
        d3pm_t0: 0,
        boundary_threshold: 0.2f32.to_bits(),
        boundary_radius: 2,
        note_threshold: 0.3f32.to_bits(),
        seed: 9,
        chunk_parallelism: ChunkParallelism::Off,
        max_chunk_seconds: 5,
        gpu_name: Some("RTX".to_string()),
        gpu_vendor_id: None,
        gpu_device_id: Some(3),
        input: "input.wav".to_string(),
    };
    let request = build_extract_request(&args);
    assert_eq!(request.model_path, "model.gguf");
    assert_eq!(request.input_path, "input.wav");
    assert_eq!(request.device, ExtractDevice::Gpu);
    assert_eq!(request.max_chunk_seconds, 5);
    assert_eq!(request.infer_params.seed, 9);
    assert_eq!(request.gpu.name_substring.as_deref(), Some("RTX"));
    let output = request.output.unwrap();
    assert_eq!(output.resolved_format(), ExtractFormat::Txt);
    assert_eq!(output.midi_options.tempo_bpm, 120);
    assert!(!output.text_options.round_pitch);
}

#[test]
fn the_summary_tells_notes_and_time() {
    let mut run = extract(ExtractRequest {
        model_path: "model.gguf".into(),
        input_path: "input.wav".into(),
        ..ExtractRequest::default()
    })
    .unwrap();
    run.model_loaded(Backend::Cpu, None, time(0));
    let audio = PreparedAudioInfo {
        sample_rate: 44_100,
        source_sample_rate: 44_100,
        source_channels: 1,
        sample_count: 44_100,
    };
    run.audio_prepared(audio, "1.00", time(0));
    run.sliced(1, time(0));
    run.split(1, time(0));
    run.mel_ready(10, time(0));
    run.inferred(2, time(0));
    let result = run.finish(vec![1, 2], 0, time(2_000_000_000));
    let lines = print_summary(&result, true, "0.50");
    let all: String = lines.iter().map(|l| text(l) + "\n").collect();
    assert!(all.contains("2.000s"), "{all}");
    assert!(all.contains("2"), "{all}");
}

#[test]
fn contexts_name_the_file_and_the_stage() {
    let context = PanicContext { input_file: "a.wav".to_string(), stage: "infer".to_string() };
    let shown = context.display();
    assert!(shown.contains("a.wav"));
    assert!(shown.contains("infer"));
}

#[test]
fn profiles_sum_up_calls() {
    assert!(cpu_profiling_enabled(Some("1")));
    assert!(!cpu_profiling_enabled(None));
    assert!(profile_top_n(Some("7")) == 7);
    let mut profiler = CpuProfiler::new();
    profiler.begin("run");
    profiler.record(ProfileKind::Op, "matmul", "a", time(5));
    profiler.record(ProfileKind::Op, "softmax", "b", time(20));
    profiler.record(ProfileKind::Op, "matmul", "a", time(7));
    assert_eq!(profiler.ops.len(), 2);
    assert_eq!(profiler.ops[0].calls, 2);
    assert_eq!(profiler.ops[0].total, time(12));
    assert_eq!(profiler.ops[0].max, time(7));
    assert_eq!(report_order(&profiler.ops), vec![1, 0]);
    let seconds = |nanos: u64, calls: u64| format!("{nanos}/{calls}");
    let told = |limit: usize| -> Vec<String> {
        log_profile_section("op", "run", time(0), &profiler.ops, limit, seconds)
            .iter()
            .map(|event| match event {
                CoreEvent::Message { level: NotificationLevel::Info, message } => message.clone(),
                _ => panic!("a profile is told in messages"),
            })
            .collect()
    };
    assert_eq!(
        told(5),
        vec![
            "cpu-profile op `run`: total=0.000s entries=2 top=2",
            "  softmax calls=1 total=0.000s avg=20/1s max=20/1s b",
            "  matmul calls=2 total=0.000s avg=12/2s max=7/1s a",
        ]
    );
    assert_eq!(told(1).len(), 2);
    let line = entry_line(&profiler.ops[0], "0.006", "0.007");
    assert!(line.contains("matmul"));
    let head = section_line("ops", "run", time(32), 2, 10);
    assert!(head.contains("run"));
    profiler.end();
    profiler.record(ProfileKind::Op, "late", "", time(1));
    assert!(profiler.ops.iter().all(|e| e.label != "late"));
}

#[test]
fn written_files_are_called_by_their_name() {
    let mut notifier = RichNotifier::new(true, false);
    let event = CoreEvent::Timing {
        stage: "output_write",
        elapsed: time(1),
        detail: Some("path=some/dir/notes.mid format=midi".to_string()),
        chunk: None,
    };
    assert_eq!(written_file(&event).as_deref(), Some("some/dir/notes.mid"));
    assert_eq!(written_file(&status("output_write", "writing output")), None);
    let path = file_path("some/dir/notes.mid");
    let actions = notifier.notify(&event, Some(&path));
    assert!(actions.iter().any(|a| *a == Action::RootMessage("Wrote notes.mid".to_string())));
}
