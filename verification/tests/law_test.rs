use game_rs::audio::SliceChunk;
use game_rs::gui::events::GuiLogLevel;
use game_rs::gui::fonts::{registry_font_files, FontValue};
use game_rs::gui::pages::{
    backend_name, chunk_parallelism_name, device_name, log_color, output_format_name, Paint,
};
use game_rs::gui::results::ResultSummary;
use game_rs::gui::state::AppState;
use game_rs::inspect_report::wrap_text;
use game_rs::midi_writer::{build_track, MidiWriteOptions, NoteTicks};
use game_rs::model::blocks::{
    merge_heads, non_negative_usize, positive_usize, reshape_for_heads,
    scaled_dot_product_attention, scaled_dot_product_attention_chunked, usize_to_i32,
};
use game_rs::notify::Elapsed;
use game_rs::paths::FilePath;
use game_rs::seeds::{needs_random_base, seed_for_chunk};
use game_rs::service::{
    Backend, ChunkParallelism, ChunkSemaphore, ExtractDevice, ExtractFormat, ExtractRequest,
};
use game_rs::service_chunks::{collect_chunks, ChunkInferenceResult};
use game_rs::service_session::{extract, PreparedAudioInfo};
use game_rs::tensor::cpu::CpuTensor;
use game_rs::tensor::dense::DenseTensor;
use game_rs::tensor::numbers::Number;
use game_rs::tensor::ops::Tensor;
use game_rs::tensor::schedule::choose_row_chunk_len;
use game_rs::tensor::shape::{coords_vec, flat_index};
use game_rs::tensor::view::{compact_tensor, ReshapePlan};
use game_rs::tensor::whole::Whole;

/// A path and its parts.
fn file_path(text: &str) -> FilePath {
    let path = std::path::Path::new(text);
    FilePath {
        text: text.to_string(),
        name: path.file_name().map(|part| part.to_str().unwrap().to_string()),
        stem: path.file_stem().map(|part| part.to_str().unwrap().to_string()),
        extension: path.extension().map(|part| part.to_str().unwrap().to_string()),
        parent: path.parent().map(|part| part.to_str().unwrap().to_string()),
        bare: path.with_extension("").to_str().unwrap().to_string(),
    }
}

fn counted(shape: &[usize]) -> CpuTensor<usize> {
    let n: usize = shape.iter().product();
    CpuTensor::from_owned((0..n).collect(), shape).unwrap()
}

#[test]
fn transposing_twice_restores() {
    let x = counted(&[2, 3, 4]);
    let t = x.duplicate().transpose(0, 2).unwrap();
    assert_ne!(t.to_vec(), x.to_vec());
    let u = t.transpose(0, 2).unwrap();
    assert_eq!(u.shape(), x.shape());
    assert_eq!(u.to_vec(), x.to_vec());
}

#[test]
fn joining_slices_restores() {
    let x = counted(&[2, 5, 3]);
    for cut in 0..=5 {
        let first = x.duplicate().slice(1, 0, cut).unwrap();
        let second = x.duplicate().slice(1, cut, 5).unwrap();
        let t = CpuTensor::concat(&vec![&first, &second], 1).unwrap();
        assert_eq!(t.shape(), x.shape());
        assert_eq!(t.to_vec(), x.to_vec());
    }
}

#[test]
fn positions_and_coordinates_agree() {
    let shape = [2usize, 3, 4];
    for k in 0..24 {
        let c = coords_vec(&shape, k);
        assert_eq!(flat_index(&shape, &c), k);
    }
    assert_eq!(coords_vec(&shape, 17), vec![1, 1, 1]);
}

#[test]
fn reshaping_keeps_the_order_of_elements() {
    let t = compact_tensor(&[2, 6]).unwrap();
    let data: Vec<u8> = (0..12).collect();
    match t.reshape(&[3, 4]).unwrap() {
        ReshapePlan::SameBuffer(u) => {
            assert_eq!(u.materialize_view_on_cpu(&data), t.materialize_view_on_cpu(&data));
            assert_eq!(t.materialize_view_on_cpu(&data), data);
        }
        ReshapePlan::MoveFirst(_) => panic!("a compact tensor stays where it is"),
    }
}

/// Whole numbers that differ from place to place.
fn numbers(shape: &[usize], seed: u32) -> DenseTensor<Whole> {
    let n: usize = shape.iter().product();
    let data: Vec<Whole> =
        (0..n as u32).map(|i| Whole((i * 7 + seed) * (i + 3 * seed) % 23)).collect();
    DenseTensor::from_data(&data, shape).unwrap()
}

#[test]
fn blocks_change_nothing_in_attention() {
    let q = numbers(&[2, 7, 4], 1);
    let k = numbers(&[2, 9, 4], 2);
    let v = numbers(&[2, 9, 5], 3);
    let mask = numbers(&[7, 9], 5);
    let full = scaled_dot_product_attention_chunked(&q, &k, &v, Some(&mask), 4, 7).unwrap();
    assert_eq!(full.shape(), vec![2, 7, 5]);
    for rows in 1..9 {
        let out = scaled_dot_product_attention_chunked(&q, &k, &v, Some(&mask), 4, rows).unwrap();
        assert_eq!(out.shape(), vec![2, 7, 5]);
        assert_eq!(out.to_vec(), full.to_vec());
    }
    let (q, k, v) = (numbers(&[0, 7, 4], 1), numbers(&[0, 9, 4], 2), numbers(&[0, 9, 5], 3));
    for rows in 1..9 {
        let out = scaled_dot_product_attention_chunked(&q, &k, &v, None, 4, rows).unwrap();
        assert_eq!(out.shape(), vec![0, 7, 5]);
        assert!(out.to_vec().is_empty());
    }
}

#[test]
fn score_limits_change_nothing_in_attention() {
    let q = numbers(&[3, 6, 4], 1);
    let k = numbers(&[3, 8, 4], 2);
    let v = numbers(&[3, 8, 4], 3);
    let full = scaled_dot_product_attention(&q, &k, &v, None, 4, 1_000_000).unwrap();
    for most in [0, 1, 24, 48, 100] {
        let out = scaled_dot_product_attention(&q, &k, &v, None, 4, most).unwrap();
        assert_eq!(out.to_vec(), full.to_vec());
    }
}

#[test]
fn merging_heads_restores_the_sequence() {
    let x = numbers(&[5, 6], 4);
    let heads = reshape_for_heads(&x, 3, 2).unwrap();
    assert_eq!(heads.shape(), vec![3, 5, 2]);
    assert_ne!(heads.to_vec(), x.to_vec());
    let merged = merge_heads(&heads).unwrap();
    assert_eq!(merged.shape(), vec![5, 6]);
    assert_eq!(merged.to_vec(), x.to_vec());
}

#[test]
fn row_chunks_change_nothing_in_products() {
    let a = CpuTensor::from_data(&numbers(&[2, 5, 3], 1).to_vec(), &[2, 5, 3]).unwrap();
    let b = CpuTensor::from_data(&numbers(&[2, 3, 4], 2).to_vec(), &[2, 3, 4]).unwrap();
    let whole = a.matmul(&b, Whole::product).unwrap();
    for chunk in 1..7 {
        let parts = a.matmul_in_chunks(&b, chunk, Whole::product).unwrap();
        assert_eq!(parts.to_vec(), whole.to_vec());
    }
}

#[test]
fn deltas_add_up_to_ticks() {
    let notes = vec![
        NoteTicks { start: 900, end: 1_000, key: 64, voiced: true },
        NoteTicks { start: 100, end: 700, key: 60, voiced: true },
    ];
    let track = build_track(&notes, &MidiWriteOptions::default()).unwrap();
    let mut tick = 0u64;
    let ticks: Vec<u64> = track
        .iter()
        .map(|entry| {
            tick += entry.delta as u64;
            tick
        })
        .collect();
    assert_eq!(ticks, vec![0, 100, 700, 900, 1_000, 1_000]);
}

#[test]
fn no_more_chunks_are_at_work_than_permits() {
    let mut permits = ChunkSemaphore::new(3);
    let mut at_work = 0;
    for step in 0..50 {
        if step % 3 == 2 && at_work > 0 {
            permits.release();
            at_work -= 1;
        } else if permits.acquire() {
            at_work += 1;
        }
        assert!(at_work <= 3);
        assert_eq!(at_work + permits.available, 3);
    }
}

#[test]
fn tasks_cover_all_rows() {
    for rows in [1usize, 7, 100, 1_001] {
        for tasks in [1usize, 4, 16] {
            let len = choose_row_chunk_len(rows, 8, tasks, 16);
            assert!(1 <= len && len <= rows);
            assert!(rows.div_ceil(len) <= tasks);
        }
    }
}

#[test]
fn wrapping_keeps_the_words_and_fits() {
    let text = "one two three four five six seven";
    let lines = wrap_text(text, 9);
    assert!(lines.iter().all(|line| line.len() <= 9));
    assert_eq!(lines.join(" "), text);
}

#[test]
fn plainer_fonts_come_first() {
    let value = |name: &str, file: &str| FontValue {
        name: name.encode_utf16().collect(),
        data: file.encode_utf16().flat_map(|u| u.to_le_bytes()).collect(),
    };
    let values = vec![
        value("Face Bold Italic (TrueType)", "bi.ttf"),
        value("Face (TrueType)", "regular.ttf"),
        value("Other (TrueType)", "other.ttf"),
        value("Face Bold (TrueType)", "bold.ttf"),
    ];
    assert_eq!(registry_font_files("Face", &values), vec!["regular.ttf", "bold.ttf", "bi.ttf"]);
}

#[test]
fn names_on_the_pages() {
    assert_eq!(device_name(ExtractDevice::Cpu), "CPU");
    assert_eq!(chunk_parallelism_name(ChunkParallelism::Off), "Off");
    assert_eq!(output_format_name(ExtractFormat::Csv), "CSV");
    assert_eq!(backend_name(Backend::Cpu), "CPU");
    assert!(matches!(log_color(GuiLogLevel::Error), Paint::ErrorText));
    assert!(matches!(log_color(GuiLogLevel::Warn), Paint::Rgb(196, 143, 0)));
}

#[test]
fn numbers_of_models() {
    assert_eq!(positive_usize("dim", 3).unwrap(), 3);
    assert!(positive_usize("dim", 0).is_err());
    assert_eq!(non_negative_usize("dim", 0).unwrap(), 0);
    assert!(non_negative_usize("dim", -1).is_err());
    assert_eq!(usize_to_i32("frames", 7).unwrap(), 7);
    assert!(usize_to_i32("frames", usize::MAX).is_err());
}

#[test]
fn an_edited_output_path_tells_its_format() {
    let mut state: AppState<u8> = AppState::new();
    state.config.output_path = "notes.csv".to_string();
    state.output_path_edited(&file_path("notes.csv"));
    assert_eq!(state.config.output_format, ExtractFormat::Csv);
}

#[test]
fn results_are_summed_up() {
    let mut run = extract(ExtractRequest {
        model_path: "model.gguf".into(),
        input_path: "input.wav".into(),
        ..ExtractRequest::default()
    })
    .unwrap();
    let zero = Elapsed { nanos: 0 };
    run.model_loaded(Backend::Cpu, None, zero);
    let audio = PreparedAudioInfo {
        sample_rate: 10,
        source_sample_rate: 10,
        source_channels: 1,
        sample_count: 610,
    };
    run.audio_prepared(audio, "61.00", zero);
    run.sliced(1, zero);
    run.split(2, zero);
    run.mel_ready(1_234, zero);
    run.inferred(1, zero);
    let result = run.finish(vec![0u8], 0, Elapsed { nanos: 1_500_000_000 });
    let summary = ResultSummary::from_result(&result, 61);
    assert_eq!(summary.chunk_count, "1 -> 2");
    assert_eq!(summary.audio_duration, "1m 01s");
    assert_eq!(summary.total_frames, "1,234");
    assert_eq!(summary.total_time, "1.500s");
    assert!(summary.output_display.is_none());
}

/// What comes of three chunks, where the notes of a chunk are made from its seed.
fn seeded_notes(seed: u64, parallel: bool, order: [usize; 3]) -> Vec<u64> {
    let base = if needs_random_base(parallel, seed) { Some(12_345) } else { None };
    let parts = order.map(|index| {
        let s = seed_for_chunk(base, seed, index);
        let notes = vec![s.wrapping_mul(index as u64 + 1), s];
        Ok(ChunkInferenceResult { index, notes, elapsed: Elapsed { nanos: index as u64 } })
    });
    let chunks: Vec<SliceChunk<f32>> = (0..3)
        .map(|i| SliceChunk { slice_start: 10 * i, split_start: 0, waveform: vec![] })
        .collect();
    let shift = |note: &u64, slice: usize, _: usize, _: usize| note + slice as u64;
    collect_chunks(parts.into_iter().collect(), &chunks, 1, shift).unwrap().0.notes
}

#[test]
fn runs_with_the_same_seed_agree() {
    let serial = seeded_notes(7, false, [0, 1, 2]);
    assert_eq!(serial, vec![7, 7, 24, 17, 41, 27]);
    assert_eq!(seeded_notes(7, true, [2, 0, 1]), serial);
    assert_ne!(seeded_notes(8, true, [0, 1, 2]), serial);
    for index in 0..3 {
        assert!(!needs_random_base(true, 7));
        assert_eq!(seed_for_chunk(None, 7, index), 7);
    }
}
