use game_rs::error::Error;
use game_rs::paths::FilePath;
use game_rs::seeds::{derive_chunk_seed, needs_random_base, seed_for_chunk};
use game_rs::service::{
    chunk_capacity, chunk_parallelism_enabled, decide_capacity, decide_parallelism,
    infer_extract_format, next_load_step, plan_load, resolve_extract_format, Attempt, Backend,
    ChunkParallelism, ChunkSemaphore, ExtractDevice, ExtractFormat, ExtractRequest, GpuSelector,
    LoadPlan, LoadStep, DEFAULT_MAX_CHUNK_SECONDS,
};
use game_rs::service_chunks::{catch_chunk_panic, tag_chunk_error, ChunkRun};
use game_rs::service_session::extract;

/// A path and its parts.
fn file_path(text: &str) -> FilePath {
    let path = std::path::Path::new(text);
    FilePath {
        text: text.to_string(),
        name: path.file_name().map(|part| part.to_str().unwrap().to_string()),
        stem: path.file_stem().map(|part| part.to_str().unwrap().to_string()),
        extension: path.extension().map(|part| part.to_str().unwrap().to_string()),
        parent: path.parent().map(|part| part.to_str().unwrap().to_string()),
        bare: path.with_extension("").to_str().unwrap().to_string(),
    }
}

#[test]
fn lib_infer_extract_format_from_output_extension() {
    assert_eq!(infer_extract_format(&file_path("notes.mid")), Some(ExtractFormat::Midi));
    assert_eq!(infer_extract_format(&file_path("notes.txt")), Some(ExtractFormat::Txt));
    assert_eq!(infer_extract_format(&file_path("notes.csv")), Some(ExtractFormat::Csv));
    assert_eq!(infer_extract_format(&file_path("notes.unknown")), None);
}

#[test]
fn resolve_extract_format_defaults_to_midi() {
    assert_eq!(resolve_extract_format(None, &file_path("notes.unknown")), ExtractFormat::Midi);
}

#[test]
fn resolve_extract_format_prefers_what_is_asked_for() {
    assert_eq!(resolve_extract_format(Some(ExtractFormat::Csv), &file_path("a.txt")), ExtractFormat::Csv);
    assert_eq!(resolve_extract_format(None, &file_path("dir.txt/a.MIDI")), ExtractFormat::Midi);
    assert_eq!(resolve_extract_format(None, &file_path("dir/a.TXT")), ExtractFormat::Txt);
    assert_eq!(infer_extract_format(&file_path(".txt")), None);
}

#[test]
fn extract_rejects_zero_max_chunk_seconds_before_touching_files() {
    let request = ExtractRequest {
        model_path: "model.gguf".into(),
        input_path: "input.wav".into(),
        max_chunk_seconds: 0,
        ..ExtractRequest::default()
    };

    let err = extract(request).unwrap_err();
    assert!(err.text.contains("max_chunk_seconds"));
}

#[test]
fn extract_rejects_gpu_selector_with_cpu_device() {
    let request = ExtractRequest {
        model_path: "model.gguf".into(),
        input_path: "input.wav".into(),
        device: ExtractDevice::Cpu,
        gpu: GpuSelector { vendor_id: Some(0x10de), ..GpuSelector::default() },
        ..ExtractRequest::default()
    };

    let err = extract(request).unwrap_err();
    assert!(err.text.contains("GPU selector"));
}

#[test]
fn derive_chunk_seed_wraps_without_overflowing() {
    assert_ne!(derive_chunk_seed(0, 0), 0);
    assert_ne!(derive_chunk_seed(u64::MAX, usize::MAX), 0);
}

#[test]
fn catch_chunk_panic_converts_panic_to_tagged_error() {
    let result =
        catch_chunk_panic::<()>(2, 5, ChunkRun::Panicked(Some("kernel exploded".to_string())));
    let err = result.unwrap_err();
    let msg = err.text;
    assert!(msg.contains("chunk 3/5"), "missing chunk tag: {msg}");
    assert!(msg.contains("kernel exploded"), "missing payload: {msg}");
}

#[test]
fn catch_chunk_panic_passes_ok_through() {
    let result = catch_chunk_panic(0, 1, ChunkRun::Returned(Ok(42usize)));
    assert_eq!(result.unwrap(), 42);
}

#[test]
fn catch_chunk_panic_tells_unknown_panics() {
    let err = catch_chunk_panic::<()>(0, 1, ChunkRun::Panicked(None)).unwrap_err();
    assert_eq!(err.text, "chunk 1/1 panicked during inference: unknown panic");
}

#[test]
fn errors_of_chunks_speak_of_a_chunk() {
    let plain = tag_chunk_error(Error::message("out of memory"), 1, 3);
    assert_eq!(plain.text, "chunk 2/3: out of memory");
    let again = tag_chunk_error(plain, 0, 3);
    assert_eq!(again.text, "chunk 2/3: out of memory");
}

#[test]
fn default_request_uses_expected_chunk_limit() {
    assert_eq!(ExtractRequest::default().max_chunk_seconds, DEFAULT_MAX_CHUNK_SECONDS);
}

#[test]
fn semaphore_allows_concurrent_acquires_up_to_capacity() {
    let mut sem = ChunkSemaphore::new(2);
    assert!(sem.acquire());
    assert!(sem.acquire());
    assert!(!sem.acquire());
    sem.release();
    sem.release();
    assert!(sem.acquire());
}

#[test]
fn derive_chunk_seed_is_deterministic() {
    let seed1 = derive_chunk_seed(12345, 0);
    let seed2 = derive_chunk_seed(12345, 0);
    assert_eq!(seed1, seed2, "derive_chunk_seed must be deterministic");
}

#[test]
fn derive_chunk_seed_varies_by_index() {
    let seed_0 = derive_chunk_seed(12345, 0);
    let seed_1 = derive_chunk_seed(12345, 1);
    let seed_2 = derive_chunk_seed(12345, 2);
    assert_ne!(seed_0, seed_1);
    assert_ne!(seed_1, seed_2);
    assert_ne!(seed_0, seed_2);
}

#[test]
fn seeds_of_chunks() {
    assert!(needs_random_base(true, 0));
    assert!(!needs_random_base(true, 7));
    assert!(!needs_random_base(false, 0));
    assert_eq!(seed_for_chunk(None, 7, 3), 7);
    assert_eq!(seed_for_chunk(Some(12345), 0, 3), derive_chunk_seed(12345, 3));
}

#[test]
fn loading_tries_the_gpu_where_it_may() {
    let any = GpuSelector::default();
    let named = GpuSelector { name_substring: Some("RTX".to_string()), ..GpuSelector::default() };
    assert!(matches!(plan_load(ExtractDevice::Cpu, &any, true), Ok(LoadPlan::Cpu)));
    assert!(matches!(plan_load(ExtractDevice::Cpu, &named, true), Ok(LoadPlan::Cpu)));
    assert!(matches!(plan_load(ExtractDevice::Auto, &any, true), Ok(LoadPlan::GpuOrCpu)));
    assert!(matches!(plan_load(ExtractDevice::Auto, &any, false), Ok(LoadPlan::Cpu)));
    // The selector counts only where the GPU is asked for.
    assert!(matches!(plan_load(ExtractDevice::Auto, &named, true), Ok(LoadPlan::GpuOrCpu)));
    assert!(matches!(plan_load(ExtractDevice::Auto, &named, false), Ok(LoadPlan::Cpu)));
    match plan_load(ExtractDevice::Gpu, &named, true) {
        Ok(LoadPlan::Gpu { selector: Some(s) }) => {
            assert_eq!(s.name_substring.as_deref(), Some("RTX"))
        }
        _ => panic!("a named adapter is wanted"),
    }
    assert!(matches!(
        plan_load(ExtractDevice::Gpu, &any, true),
        Ok(LoadPlan::Gpu { selector: None })
    ));
    assert_eq!(
        plan_load(ExtractDevice::Gpu, &any, false).err().unwrap().text,
        "GPU extraction requested but the `gpu` cargo feature is disabled"
    );
}

#[test]
fn the_cpu_stands_in_for_the_gpu_where_it_may() {
    let none = Attempt::NotMade;
    let failed = |text: &str| Attempt::Failed(Error::message(text));
    let step = |plan: &LoadPlan, gpu: &Attempt, cpu: &Attempt| next_load_step(plan, gpu, cpu);
    let either = LoadPlan::GpuOrCpu;
    assert!(matches!(step(&either, &none, &none), LoadStep::TryGpu));
    assert!(matches!(
        step(&either, &Attempt::Loaded, &none),
        LoadStep::Done { warning: None }
    ));
    assert!(matches!(step(&either, &failed("no device"), &none), LoadStep::TryCpu));
    match step(&either, &failed("no device"), &Attempt::Loaded) {
        LoadStep::Done { warning: Some(text) } => {
            assert_eq!(text, "GPU backend unavailable (no device); falling back to CPU")
        }
        _ => panic!("the CPU stands in"),
    }
    match step(&either, &failed("no device"), &failed("no file")) {
        LoadStep::Fail(error) => assert_eq!(
            error.text,
            "failed to load model on GPU (no device) and CPU fallback also failed (no file)"
        ),
        _ => panic!("there is no model"),
    }
    let gpu = LoadPlan::Gpu { selector: None };
    assert!(matches!(step(&gpu, &none, &none), LoadStep::TryGpu));
    match step(&gpu, &failed("no device"), &none) {
        LoadStep::Fail(error) => assert_eq!(error.text, "no device"),
        _ => panic!("the GPU was asked for"),
    }
    assert!(matches!(step(&LoadPlan::Cpu, &none, &none), LoadStep::TryCpu));
    assert!(matches!(
        step(&LoadPlan::Cpu, &none, &Attempt::Loaded),
        LoadStep::Done { warning: None }
    ));
    assert!(matches!(step(&LoadPlan::Cpu, &none, &failed("no file")), LoadStep::Fail(_)));
}

#[test]
fn parallelism_needs_chunks_threads_and_the_cpu() {
    let on = ChunkParallelism::On;
    let auto = ChunkParallelism::Auto;
    assert_eq!(decide_parallelism(auto, Backend::Cpu, 3, 4, false).unwrap(), true);
    assert_eq!(decide_parallelism(auto, Backend::Cpu, 1, 4, false).unwrap(), false);
    assert_eq!(decide_parallelism(auto, Backend::Gpu, 3, 4, false).unwrap(), false);
    assert_eq!(decide_parallelism(auto, Backend::Cpu, 3, 4, true).unwrap(), false);
    assert!(decide_parallelism(on, Backend::Gpu, 3, 4, false).is_err());
    assert_eq!(
        decide_parallelism(ChunkParallelism::Off, Backend::Cpu, 3, 4, false).unwrap(),
        false
    );
    let here = chunk_parallelism_enabled(auto, Backend::Cpu, 3, false).unwrap();
    assert_eq!(here, rayon::current_num_threads() > 1);
}

#[test]
fn capacity_comes_from_the_setting_or_the_threads() {
    assert_eq!(decide_capacity(Some("3"), 8), 3);
    assert_eq!(decide_capacity(Some("three"), 8), 8);
    assert_eq!(decide_capacity(None, 8), 8);
    assert_eq!(chunk_capacity(None), rayon::current_num_threads());
    assert_eq!(chunk_capacity(Some("5")), 5);
}
