use game_rs::cli::{
    format_chunk_status, parse_audio_bracket, parse_chunk_count_from_message, parse_chunk_index,
    parse_kv_usize, parse_positive_usize, parse_u32_auto,
};
use game_rs::paths::FilePath;
use game_rs::service::{infer_extract_format, ExtractFormat};

/// A path and its parts.
fn file_path(text: &str) -> FilePath {
    let path = std::path::Path::new(text);
    FilePath {
        text: text.to_string(),
        name: path.file_name().map(|part| part.to_str().unwrap().to_string()),
        stem: path.file_stem().map(|part| part.to_str().unwrap().to_string()),
        extension: path.extension().map(|part| part.to_str().unwrap().to_string()),
        parent: path.parent().map(|part| part.to_str().unwrap().to_string()),
        bare: path.with_extension("").to_str().unwrap().to_string(),
    }
}

#[test]
fn parse_chunk_count_from_inference_message() {
    assert_eq!(parse_chunk_count_from_message("running inference across 5 chunk(s)"), Some(5));
    assert_eq!(parse_chunk_count_from_message("running inference across 1 chunk(s)"), Some(1));
    assert_eq!(parse_chunk_count_from_message("unrelated message"), None);
}

#[test]
fn parse_chunk_index_from_detail() {
    assert_eq!(parse_chunk_index("chunk 2/5 notes=42"), Some(1));
    assert_eq!(parse_chunk_index("chunk 1/1: t=0.000"), Some(0));
    assert_eq!(parse_chunk_index("chunk 10/10: t=0.500"), Some(9));
    assert_eq!(parse_chunk_index("no chunk here"), None);
}

#[test]
fn parse_audio_bracket_with_resample() {
    assert_eq!(
        parse_audio_bracket("44100 Hz/2 ch -> 16000 Hz mono, samples=123, duration=1.23s"),
        "16000 Hz mono"
    );
}

#[test]
fn parse_audio_bracket_no_resample() {
    assert_eq!(
        parse_audio_bracket("16000 Hz mono, samples=123, duration=1.23s"),
        "16000 Hz mono"
    );
}

#[test]
fn parse_kv_usize_extracts_values() {
    assert_eq!(parse_kv_usize("chunks=5", "chunks="), Some(5));
    assert_eq!(parse_kv_usize("frames=1024", "frames="), Some(1024));
    assert_eq!(parse_kv_usize("chunks=5 max_chunk_seconds=30", "chunks="), Some(5));
    assert_eq!(parse_kv_usize("no match", "chunks="), None);
}

#[test]
fn format_chunk_status_strips_infer_start() {
    assert_eq!(
        format_chunk_status("chunk 1/5: infer start offset=0.00s duration=4.56s"),
        "chunk 1 (dur: 4.56s)"
    );
}

#[test]
fn format_chunk_status_passthrough_unknown() {
    assert_eq!(format_chunk_status("something else"), "something else");
}

#[test]
fn parse_u32_auto_accepts_decimal_and_hex() {
    assert_eq!(parse_u32_auto("1234").unwrap(), 1234);
    assert_eq!(parse_u32_auto("0x10de").unwrap(), 0x10de);
    assert_eq!(parse_u32_auto("0X2484").unwrap(), 0x2484);
}

#[test]
fn main_infer_extract_format_from_output_extension() {
    assert_eq!(infer_extract_format(&file_path("notes.mid")), Some(ExtractFormat::Midi));
    assert_eq!(infer_extract_format(&file_path("notes.txt")), Some(ExtractFormat::Txt));
    assert_eq!(infer_extract_format(&file_path("notes.csv")), Some(ExtractFormat::Csv));
    assert_eq!(infer_extract_format(&file_path("notes.unknown")), None);
}

#[test]
fn numbers_out_of_range_are_refused() {
    assert!(parse_u32_auto("4294967295").is_ok());
    assert!(parse_u32_auto("4294967296").is_err());
    assert!(parse_u32_auto("0x").is_err());
    assert!(parse_u32_auto("ten").is_err());
    assert_eq!(parse_positive_usize("5"), Ok(5));
    assert!(parse_positive_usize("0").is_err());
    assert!(parse_positive_usize("-1").is_err());
}

#[test]
fn chunk_counts_are_read_back_from_their_message() {
    for n in [0usize, 7, 10, 99, 100, 12345] {
        let message = format!("running inference across {n} chunk(s)");
        assert_eq!(parse_chunk_count_from_message(&message), Some(n));
    }
}
