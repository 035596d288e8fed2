use game_rs::error::Error;
use game_rs::gui::events::{
    format_chunk_status, format_event, friendly_status, parse_chunk_position, GuiLogLevel,
};
use game_rs::gui::fonts::{
    cjk_font_candidates, known_windows_font_files, normalize_font_name,
    normalize_registry_font_value_name, registry_font_files, registry_font_priority,
    registry_string_data, utf16_nul_terminated, FontValue,
};
use game_rs::gui::icon::app_icon;
use game_rs::gui::pages::{
    adapter_label, can_cancel, chunk_detail, chunk_fraction, chunk_indicator, config_page,
    default_output_file_name, default_output_parent, device_section, log_for_clipboard, log_line,
    output_format_mismatch, overall_fraction, overall_label, progress_title,
    start_blocking_reason, timing_rows, HeaderIndicator,
};
use game_rs::gui::results::{
    format_audio_duration, notes_preview, output_folder, voiced_pitch_range, PreviewNote,
    NOTE_PREVIEW_LIMIT,
};
use game_rs::gui::state::{
    AdapterReply, AppPage, AppState, ChunkStatus, ExtractConfig, GpuAdapterChoice, RunOutcome,
    MAX_LOG_ENTRIES,
};
use game_rs::notify::{ChunkContext, CoreEvent, Elapsed, NotificationLevel};
use game_rs::paths::FilePath;
use game_rs::service::{ExtractDevice, ExtractFormat};

/// A path and its parts.
fn file_path(text: &str) -> FilePath {
    let path = std::path::Path::new(text);
    FilePath {
        text: text.to_string(),
        name: path.file_name().map(|part| part.to_str().unwrap().to_string()),
        stem: path.file_stem().map(|part| part.to_str().unwrap().to_string()),
        extension: path.extension().map(|part| part.to_str().unwrap().to_string()),
        parent: path.parent().map(|part| part.to_str().unwrap().to_string()),
        bare: path.with_extension("").to_str().unwrap().to_string(),
    }
}

type State = AppState<u32>;

fn time(nanos: u64) -> Elapsed {
    Elapsed { nanos }
}

fn status(stage: &'static str, message: &str) -> CoreEvent {
    CoreEvent::Status { stage, message: message.to_string(), chunk: None }
}

fn ready() -> State {
    let mut state = State::new();
    state.config.model_path = "model.gguf".to_string();
    state.set_audio_path(&file_path("dir/song.wav"));
    state
}

#[test]
fn an_audio_file_suggests_its_output() {
    let state = ready();
    assert_eq!(state.config.audio_path, "dir/song.wav");
    assert_eq!(state.config.output_path, "dir/song.mid");
    assert_eq!(start_blocking_reason(&state.config), None);
    let empty = ExtractConfig::default();
    assert!(start_blocking_reason(&empty).is_some());
}

#[test]
fn dropped_files_go_where_their_extension_says() {
    let mut state = State::new();
    state.apply_dropped_path(&file_path("a/model.GGUF"));
    state.apply_dropped_path(&file_path("a/song.wav"));
    state.apply_dropped_path(&file_path("a/notes.csv"));
    assert_eq!(state.config.model_path, "a/model.GGUF");
    assert_eq!(state.config.audio_path, "a/song.wav");
    assert_eq!(state.config.output_path, "a/notes.csv");
    assert_eq!(state.config.output_format, ExtractFormat::Csv);
    state.apply_dropped_path(&file_path("a/readme.md"));
    assert_eq!(state.config.audio_path, "a/song.wav");
}

#[test]
fn forms_are_checked_before_a_run() {
    let config = ready().config;
    assert!(config.validate(true, true).is_ok());
    assert!(config.validate(false, true).is_err());
    assert!(config.validate(true, false).is_err());
    let zero = ExtractConfig { max_chunk_seconds: 0, ..ready().config };
    assert!(zero.validate(true, true).is_err());
    let request = config.to_request(&file_path("dir/song.mid"));
    assert_eq!(request.input_path, "dir/song.wav");
    assert_eq!(request.output.unwrap().path.text, "dir/song.mid");
}

#[test]
fn a_run_fills_the_progress_page() {
    let mut state = ready();
    assert!(state.start_extraction(true, true));
    assert_eq!(state.current_page, AppPage::Progress);
    assert!(state.is_running && state.extraction);
    assert!(can_cancel(&state));
    let whole = overall_fraction(&state);
    assert_eq!(whole.iter().map(|r| (r.part, r.whole)).collect::<Vec<_>>(), vec![(0, 1)]);
    state.handle_event(&status("extract_infer", "running inference across 2 chunk(s)"), time(1));
    assert_eq!(state.chunk_progress.len(), 2);
    assert_eq!(state.overall_progress, Some((0, 2)));
    state.handle_event(
        &CoreEvent::Progress {
            stage: "d3pm_step",
            current: 1,
            total: 4,
            detail: Some("chunk 2/2: t=0.500".to_string()),
            chunk: Some(ChunkContext { index: 1, count: 2 }),
        },
        time(2),
    );
    assert!(matches!(state.chunk_progress[1].status, ChunkStatus::Running));
    let r = chunk_fraction(&state.chunk_progress[1]);
    assert_eq!((r.part, r.whole), (1, 4));
    assert!(matches!(
        chunk_indicator(&state.chunk_progress[1].status, true),
        HeaderIndicator::Running
    ));
    state.handle_event(
        &CoreEvent::Timing {
            stage: "chunk_infer",
            elapsed: time(3),
            detail: Some("chunk 2/2 notes=4".to_string()),
            chunk: Some(ChunkContext { index: 1, count: 2 }),
        },
        time(3),
    );
    assert!(matches!(state.chunk_progress[1].status, ChunkStatus::Completed));
    assert_eq!(state.overall_progress, Some((1, 2)));
    assert!(overall_label(&state, 50).contains("1"));
    assert!(!chunk_detail(&state.chunk_progress[0], 0).0.is_empty());
    assert!(!timing_rows(&state).is_empty());
    assert!(!progress_title(&state).is_empty());
    assert_eq!(state.event_log.len(), 3);
    assert!(log_for_clipboard(&state).contains("chunk 2/2 notes=4"));
    assert!(state.cancel_extraction());
    assert!(state.cancel_requested);
    state.check_completion(RunOutcome::Failed(Error::message("stopped")), true);
    assert!(!state.is_running && !state.extraction);
    assert!(!state.cancel_extraction());
    state.reset_to_config();
    assert_eq!(state.current_page, AppPage::Config);
}

#[test]
fn failures_are_told() {
    let mut state = ready();
    state.start_extraction(true, true);
    state.check_completion(RunOutcome::Panicked, false);
    assert_eq!(state.error_message.as_deref(), Some("Extraction thread panicked"));
    state.clear_error();
    assert_eq!(state.error_message, None);
    let mut refused = State::new();
    assert!(!refused.start_extraction(false, false));
    assert!(refused.error_message.is_some());
    assert_eq!(refused.current_page, AppPage::Config);
}

#[test]
fn the_log_is_bounded() {
    let mut state = State::new();
    for i in 0..MAX_LOG_ENTRIES + 20 {
        state.append_log(&status("x", &format!("{i}")), time(i as u64));
    }
    assert_eq!(state.event_log.len(), MAX_LOG_ENTRIES);
    assert_eq!(state.event_log[0].elapsed, time(20));
    assert!(log_line(&state.event_log[0]).contains("20"));
}

#[test]
fn adapters_are_looked_up_once() {
    let mut state = State::new();
    assert!(state.ensure_gpu_adapter_refresh_started());
    assert!(!state.ensure_gpu_adapter_refresh_started());
    state.poll_gpu_adapter_refresh(AdapterReply::Pending);
    assert!(state.gpu_adapters_loading);
    let card = GpuAdapterChoice {
        name: "Card".to_string(),
        backend: "Vulkan".to_string(),
        device_type: "DiscreteGpu".to_string(),
        vendor_id: 0x10de,
        device_id: 7,
    };
    assert!(adapter_label(&card).contains("Card"));
    state.poll_gpu_adapter_refresh(AdapterReply::Adapters(vec![card]));
    assert!(!state.gpu_adapters_loading);
    state.choose_adapter(0);
    assert_eq!(state.config.gpu_selector.vendor_id, Some(0x10de));
    state.config.device = ExtractDevice::Gpu;
    let section = device_section(&state).unwrap();
    assert!(section.selected.contains("Card"));
    assert_eq!(section.entries.len(), 1);
    state.choose_any_adapter();
    assert!(!state.config.gpu_selector.has_any());
    assert!(state.refresh_gpu_adapters());
    state.poll_gpu_adapter_refresh(AdapterReply::Lost);
    assert!(!state.gpu_adapters_loading);
    assert!(state.gpu_adapter_error.is_none());
}

#[test]
fn pages_warn_of_formats_that_do_not_fit() {
    let mut state = ready();
    let output = file_path("dir/song.mid");
    assert!(output_format_mismatch(&state.config, &output).is_none());
    assert!(config_page(&state, &output).can_start);
    state.config.output_format = ExtractFormat::Csv;
    assert!(output_format_mismatch(&state.config, &output).is_some());
    assert_eq!(default_output_parent(&file_path(""), &file_path("dir/song.wav")).as_deref(), Some("dir"));
    assert_eq!(
        default_output_file_name(
            &file_path(""),
            &file_path("dir/song.wav"),
            ExtractFormat::Txt
        )
        .as_deref(),
        Some("song.txt")
    );
}

#[test]
fn statuses_are_friendly() {
    assert_eq!(friendly_status("model_load", "x"), "Loading model...");
    assert_eq!(friendly_status("other", "as it is"), "as it is");
    assert_eq!(
        friendly_status("chunk_infer", "chunk 1/5: infer start offset=0.00s duration=4.56s"),
        format_chunk_status("chunk 1/5: infer start offset=0.00s duration=4.56s")
    );
    assert_eq!(parse_chunk_position("chunk 3/5: t=0.1"), Some((2, 5)));
    assert_eq!(parse_chunk_position("none"), None);
    for (index, count) in [(0usize, 1usize), (9, 10), (98, 1000)] {
        let label = game_rs::service_chunks::chunk_label(index, count);
        assert_eq!(parse_chunk_position(&label), Some((index, count)));
    }
    let message =
        CoreEvent::Message { level: NotificationLevel::Warn, message: "careful".to_string() };
    assert_eq!(GuiLogLevel::from_event(&message), GuiLogLevel::Warn);
    assert!(format_event(&message).contains("careful"));
}

fn note(pitch: f32, voiced: bool) -> PreviewNote {
    PreviewNote {
        offset: "0.000".to_string(),
        duration: "1.000".to_string(),
        pitch: format!("{pitch:.1}"),
        bits: pitch.to_bits(),
        nearest: pitch.round() as i32,
        voiced,
    }
}

#[test]
fn results_show_the_first_notes_and_the_range() {
    let notes = vec![note(60.0, true), note(10.0, false), note(72.4, true), note(57.0, true)];
    assert_eq!(voiced_pitch_range(&notes), Some((3, 2)));
    assert_eq!(voiced_pitch_range(&vec![note(1.0, false)]), None);
    let preview = notes_preview(&notes);
    assert_eq!(preview.rows.len(), 4);
    assert_eq!(preview.rows[1].pitch, "rest");
    assert_eq!(preview.rows[0].pitch, "C4 (60.0)");
    assert!(preview.more.is_none());
    let many: Vec<PreviewNote> = (0..NOTE_PREVIEW_LIMIT + 1).map(|_| note(60.0, true)).collect();
    let cut = notes_preview(&many);
    assert_eq!(cut.rows.len(), NOTE_PREVIEW_LIMIT);
    assert!(cut.more.is_some());
}

#[test]
fn durations_and_folders_of_results() {
    assert_eq!(format_audio_duration(59), "59s");
    assert_eq!(format_audio_duration(61), "1m 01s");
    assert_eq!(format_audio_duration(3_600), "60m 00s");
    assert_eq!(output_folder(&file_path("a/b.mid")), "a");
    assert_eq!(output_folder(&file_path("b.mid")), ".");
}

#[test]
fn fonts_are_found_by_name() {
    assert_eq!(normalize_font_name(" Yu Gothic-UI "), "yugothicui");
    assert_eq!(
        normalize_registry_font_value_name("Yu Gothic (TrueType)"),
        normalize_font_name("Yu Gothic")
    );
    assert!(!known_windows_font_files("Microsoft YaHei").is_empty());
    assert!(known_windows_font_files("Unheard Of").is_empty());
    assert!(registry_font_priority("X Regular") <= registry_font_priority("X Bold Italic"));
    let units: Vec<u16> = "\u{6f22}a\0b".encode_utf16().collect();
    assert_eq!(utf16_nul_terminated(&units).as_deref(), Some("\u{6f22}a"));
    let pairs = [0xd83d, 0xde00, 0xde00, 0x61, 0xd83d, 0xd83d, 0xde00, 0xd83d];
    assert_eq!(
        utf16_nul_terminated(&pairs).as_deref(),
        Some("\u{1f600}\u{fffd}a\u{fffd}\u{1f600}\u{fffd}")
    );
    let data: Vec<u8> =
        "msyh.ttc\0".encode_utf16().flat_map(|u| u.to_le_bytes()).collect();
    assert_eq!(registry_string_data(&data).as_deref(), Some("msyh.ttc"));
    let value = FontValue {
        name: "Microsoft YaHei (TrueType)\0".encode_utf16().collect(),
        data,
    };
    assert_eq!(registry_font_files("Microsoft YaHei", &vec![value]), vec!["msyh.ttc"]);
    assert!(!cjk_font_candidates(Some("C:\\Windows\\Fonts")).is_empty());
}

#[test]
fn the_icon_is_a_square_of_pixels() {
    let rgba = app_icon();
    assert_eq!(rgba.len() % 4, 0);
    let side = ((rgba.len() / 4) as f64).sqrt() as usize;
    assert_eq!(side * side * 4, rgba.len());
}
