use game_rs::float_order::{in_unit_interval, is_nan_bits, less_bits};
use game_rs::machine::read_setting;
use game_rs::notify::{format_duration, level_name, Elapsed, NotificationLevel};
use game_rs::paths::{display_path_name, FilePath};
use game_rs::text::{
    format_bytes, format_count, parse_u64, split_words, text_less, trim_string, IntError,
};

/// A path and its parts.
fn file_path(text: &str) -> FilePath {
    let path = std::path::Path::new(text);
    FilePath {
        text: text.to_string(),
        name: path.file_name().map(|part| part.to_str().unwrap().to_string()),
        stem: path.file_stem().map(|part| part.to_str().unwrap().to_string()),
        extension: path.extension().map(|part| part.to_str().unwrap().to_string()),
        parent: path.parent().map(|part| part.to_str().unwrap().to_string()),
        bare: path.with_extension("").to_str().unwrap().to_string(),
    }
}

#[test]
fn durations_have_three_decimals() {
    assert_eq!(format_duration(Elapsed { nanos: 0 }), "0.000s");
    assert_eq!(format_duration(Elapsed { nanos: 1_234_567_890 }), "1.235s");
    assert_eq!(format_duration(Elapsed { nanos: 65_000_000_000 }), "65.000s");
}

#[test]
fn counts_are_grouped_by_three() {
    assert_eq!(format_count(0), "0");
    assert_eq!(format_count(999), "999");
    assert_eq!(format_count(1_000), "1,000");
    assert_eq!(format_count(1_234_567), "1,234,567");
    assert_eq!(format_count(u64::MAX), "18,446,744,073,709,551,615");
}

/// The same by floating-point arithmetic.
fn bytes_by_fractions(bytes: u64) -> String {
    let units = ["B", "KiB", "MiB", "GiB", "TiB"];
    let mut value = bytes as f64;
    let mut unit = 0usize;
    while value >= 1024.0 && unit + 1 < units.len() {
        value /= 1024.0;
        unit += 1;
    }
    format!("{value:.2} {}", units[unit])
}

#[test]
fn sizes_are_shown_as_floating_point_shows_them() {
    assert_eq!(format_bytes(0), "0.00 B");
    assert_eq!(format_bytes(1_023), "1023.00 B");
    assert_eq!(format_bytes(1_024), "1.00 KiB");
    assert_eq!(format_bytes(1_152), "1.12 KiB");
    assert_eq!(format_bytes(1_664), "1.62 KiB");
    assert_eq!(format_bytes(1_048_575), "1024.00 KiB");
    let mut n = 1u64;
    for step in 0..4_000u64 {
        n = n.wrapping_mul(6_364_136_223_846_793_005).wrapping_add(1_442_695_040_888_963_407);
        let bytes = n >> (step % 64);
        assert_eq!(format_bytes(bytes), bytes_by_fractions(bytes), "{bytes}");
    }
    for bytes in 0..20_000u64 {
        assert_eq!(format_bytes(bytes), bytes_by_fractions(bytes), "{bytes}");
    }
    assert_eq!(format_bytes(u64::MAX), bytes_by_fractions(u64::MAX));
}

#[test]
fn numbers_are_read_in_any_base() {
    let chars = |s: &str| s.chars().collect::<Vec<char>>();
    assert!(matches!(parse_u64(&chars("18446744073709551615"), 10, u64::MAX), Ok(u64::MAX)));
    assert!(matches!(parse_u64(&chars("+7"), 10, 9), Ok(7)));
    assert!(matches!(parse_u64(&chars("fF"), 16, 255), Ok(255)));
    assert!(matches!(parse_u64(&chars("100"), 16, 255), Err(IntError::TooLarge)));
    assert!(matches!(parse_u64(&chars(""), 10, 9), Err(IntError::Empty)));
    assert!(matches!(parse_u64(&chars("1x"), 10, 99), Err(IntError::InvalidDigit)));
}

#[test]
fn words_and_order_of_texts() {
    assert_eq!(split_words("  a bc\td\n"), vec!["a", "bc", "d"]);
    assert_eq!(trim_string(" \u{2003}x y\u{00a0} "), "x y");
    assert!(text_less("a", "b"));
    assert!(text_less("a", "ab"));
    assert!(!text_less("b", "ab"));
    assert!(!text_less("a", "a"));
}

#[test]
fn settings_are_numbers_above_zero() {
    assert_eq!(read_setting(Some(" 12 "), 3), 12);
    assert_eq!(read_setting(Some("0"), 3), 3);
    assert_eq!(read_setting(Some("many"), 3), 3);
    assert_eq!(read_setting(None, 3), 3);
}

#[test]
fn levels_have_names() {
    assert_eq!(level_name(NotificationLevel::Trace), "trace");
    assert_eq!(level_name(NotificationLevel::Error), "error");
}

#[test]
fn bit_patterns_are_ordered_as_their_numbers() {
    let values = [f32::NEG_INFINITY, -2.5, -0.0, 0.0, 1e-40, 0.2, 1.0, 7.0, f32::INFINITY, f32::NAN];
    for a in values {
        assert_eq!(is_nan_bits(a.to_bits()), a.is_nan());
        assert_eq!(in_unit_interval(a.to_bits()), (0.0..=1.0).contains(&a));
        for b in values {
            assert_eq!(less_bits(a.to_bits(), b.to_bits()), a < b, "{a} {b}");
        }
    }
}

#[test]
fn extensions_are_replaced_as_by_the_standard_library() {
    for text in ["a/b.wav", "/a/b", "a//b/", "./x.y", "..", "a/.b", "x.", "/", "", "a.d/b.tar.gz"] {
        let changed = file_path(text).with_extension("mid");
        let expected =
            file_path(std::path::Path::new(text).with_extension("mid").to_str().unwrap());
        assert_eq!(changed.text, expected.text, "{text}");
        assert_eq!(changed.name, expected.name, "{text}");
        assert_eq!(changed.stem, expected.stem, "{text}");
        assert_eq!(changed.extension, expected.extension, "{text}");
        assert_eq!(changed.parent, expected.parent, "{text}");
        assert_eq!(changed.bare, expected.bare, "{text}");
    }
}

#[test]
fn parts_of_paths_may_stand_between_backslashes() {
    let path = FilePath {
        text: "C:\\my.dir\\a".to_string(),
        name: Some("a".to_string()),
        stem: Some("a".to_string()),
        extension: None,
        parent: Some("C:\\my.dir".to_string()),
        bare: "C:\\my.dir\\a".to_string(),
    };
    assert_eq!(path.with_extension("mid").text, "C:\\my.dir\\a.mid");
    assert_eq!(display_path_name(&path), "a");
    assert_eq!(display_path_name(&file_path("/")), "/");
}
