use std::f32::consts::PI;

use game_rs::audio::{
    frame_rms, frame_rules, interleaved_to_mono, prepare_waveform, resample_linear,
    resampled_length, resolve_target_sample_rate, slice_waveform, split_long_chunks,
    PreparedWaveform, SliceChunk, SlicerConfig,
};

fn mean(frames: &[f32], from: usize, to: usize) -> f32 {
    frames[from..to].iter().sum::<f32>() / (to - from) as f32
}

fn position(i: usize, src: usize, dst: usize) -> f64 {
    i as f64 * (src as f64 / dst as f64)
}

fn left(i: usize, len: usize, src: usize, dst: usize) -> usize {
    (position(i, src, dst).floor() as usize).min(len - 1)
}

fn blend(a: f32, b: f32, i: usize, src: usize, dst: usize) -> f32 {
    let p = position(i, src, dst);
    a + (b - a) * (p - p.floor()) as f32
}

fn level(samples: &[f32], from: usize, to: usize, win: usize) -> u32 {
    let sum: f64 = samples[from..to].iter().map(|&v| f64::from(v) * f64::from(v)).sum();
    ((sum / win as f64).sqrt() as f32).to_bits()
}

fn threshold(cfg: &SlicerConfig) -> u32 {
    10.0f32.powf(f32::from_bits(cfg.threshold_db) / 20.0).to_bits()
}

fn offset_seconds(chunk: &SliceChunk<f32>, rate: usize) -> f32 {
    chunk.slice_start as f32 / rate as f32 + chunk.split_start as f32 / rate as f32
}

#[test]
fn prepared_waveform_flags_track_resample_and_mixdown() {
    let waveform = PreparedWaveform {
        samples: vec![0.0; 4],
        sample_rate: 44_100,
        source_sample_rate: 48_000,
        source_channels: 2,
    };
    assert!(waveform.was_resampled());
    assert!(waveform.was_downmixed());
}

#[test]
fn prepared_waveform_flags_are_clear_for_mono_at_the_same_rate() {
    let waveform = PreparedWaveform {
        samples: vec![0.0; 4],
        sample_rate: 44_100,
        source_sample_rate: 44_100,
        source_channels: 1,
    };
    assert!(!waveform.was_resampled());
    assert!(!waveform.was_downmixed());
}

#[test]
fn mixdown_averages_each_frame() {
    let mono = interleaved_to_mono(&[1.0, 3.0, 5.0, 7.0], 2, mean).unwrap();
    assert_eq!(mono, vec![2.0, 6.0]);
}

#[test]
fn mixdown_refuses_no_channels_and_broken_frames() {
    let none = interleaved_to_mono(&[1.0f32], 0, mean).unwrap_err();
    assert_eq!(none.text, "cannot mix down zero-channel audio");
    let broken = interleaved_to_mono(&[1.0f32, 2.0, 3.0], 2, mean).unwrap_err();
    assert_eq!(broken.text, "interleaved sample count 3 is not divisible by channel count 2");
    let mono = interleaved_to_mono(&[1.0f32, 2.0, 3.0], 1, mean).unwrap();
    assert_eq!(mono, vec![1.0, 2.0, 3.0]);
}

#[test]
fn linear_resampler_preserves_constant_signal_and_target_length() {
    let signal = vec![0.25f32; 48_000];
    let resampled = resample_linear(&signal, 48_000, 44_100, &left, &blend).unwrap();
    assert_eq!(resampled.len(), 44_100);
    assert!(resampled.iter().all(|&value| (value - 0.25).abs() <= 1e-6));
}

#[test]
fn linear_resampler_interpolates_between_adjacent_samples() {
    let resampled = resample_linear(&[0.0f32, 10.0], 2, 4, &left, &blend).unwrap();
    assert_eq!(resampled, vec![0.0, 5.0, 10.0, 10.0]);
}

#[test]
fn linear_resampler_edge_cases() {
    let refused = resample_linear(&[0.5f32], 0, 4, &left, &blend).unwrap_err();
    assert_eq!(refused.text, "resample requires positive sample rates, got src=0 dst=4");
    assert_eq!(resample_linear(&[0.5f32, 1.0], 8, 8, &left, &blend).unwrap(), vec![0.5, 1.0]);
    assert_eq!(resample_linear(&[0.5f32], 1, 3, &left, &blend).unwrap(), vec![0.5, 0.5, 0.5]);
    let empty: Vec<f32> = resample_linear(&[], 1, 3, &left, &blend).unwrap();
    assert!(empty.is_empty());
}

#[test]
fn resampled_lengths_are_rounded_to_the_nearest() {
    assert_eq!(resampled_length(48_000, 48_000, 44_100).unwrap(), 44_100);
    assert_eq!(resampled_length(3, 2, 1).unwrap(), 2);
    assert_eq!(resampled_length(5, 4, 1).unwrap(), 1);
    assert_eq!(resampled_length(0, 4, 1).unwrap(), 1);
    assert_eq!(resampled_length(1, 4, 1).unwrap(), 1);
}

#[test]
fn target_rate_zero_stands_for_the_rate_of_the_source() {
    assert_eq!(resolve_target_sample_rate(0, 48_000).unwrap(), 48_000);
    assert_eq!(resolve_target_sample_rate(44_100, 48_000).unwrap(), 44_100);
    assert_eq!(
        resolve_target_sample_rate(-1, 48_000).unwrap_err().text,
        "target sample rate must be >= 0, got -1"
    );
}

#[test]
fn preparing_a_waveform_resamples_and_keeps_its_source() {
    let source = PreparedWaveform {
        samples: vec![0.0f32, 10.0],
        sample_rate: 2,
        source_sample_rate: 2,
        source_channels: 2,
    };
    let prepared = prepare_waveform(&source, 4, &left, &blend).unwrap();
    assert_eq!(prepared.samples, vec![0.0, 5.0, 10.0, 10.0]);
    assert_eq!(prepared.sample_rate, 4);
    assert_eq!(prepared.source_sample_rate, 2);
    assert_eq!(prepared.source_channels, 2);
    assert!(prepare_waveform(&source, -3, &left, &blend).is_err());
}

/// `rate * ms / 1000 / hop` in double precision, rounded.
fn stretches(rate: usize, ms: usize, hop: usize) -> usize {
    (rate as f64 * ms as f64 / 1_000.0 / hop as f64).round() as usize
}

fn unasked(rate: usize, ms: usize, hop: usize) -> usize {
    panic!("{rate} * {ms} / {hop} is rounded exactly")
}

#[test]
fn durations_are_rounded_to_hops() {
    for sample_rate in [1, 7, 999, 8_000, 11_025, 22_050, 44_100, 48_000, 96_000, 192_000] {
        for ms in (1..200).chain([250, 300, 1_234, 5_000, 60_001, 2_500_000_003]) {
            let cfg = SlicerConfig {
                sample_rate,
                min_length_ms: ms + 1,
                min_interval_ms: ms,
                max_sil_kept_ms: 2 * ms,
                hop_ms: 20,
                ..SlicerConfig::default()
            };
            let rules = frame_rules(&cfg, &unasked);
            let hop = rules.hop_size;
            assert_eq!(hop, (sample_rate * 20 / 1_000).max(1));
            assert_eq!(rules.win_size, stretches(sample_rate, ms, 1).min(4 * hop).max(1));
            assert_eq!(rules.min_length, stretches(sample_rate, ms + 1, hop));
            assert_eq!(rules.min_interval, stretches(sample_rate, ms, hop));
            assert_eq!(rules.max_sil_kept, stretches(sample_rate, 2 * ms, hop));
        }
    }
    // Double precision takes 2^60 + 1 for 2^60.
    let cfg = SlicerConfig {
        sample_rate: 1_000,
        min_length_ms: (1 << 60) + 1,
        hop_ms: 1,
        ..SlicerConfig::default()
    };
    assert_eq!(frame_rules(&cfg, &stretches).min_length, 1 << 60);
}

/// Which samples stand in a chunk.
fn kept(chunks: &[SliceChunk<f32>], len: usize) -> Vec<bool> {
    let mut kept = vec![false; len];
    for chunk in chunks {
        let start = chunk.slice_start + chunk.split_start;
        kept[start..start + chunk.waveform.len()].fill(true);
    }
    kept
}

#[test]
fn only_silence_is_dropped() {
    let sr = 44_100usize;
    let samples = tone_silence_tone(sr);
    let cfg = SlicerConfig {
        sample_rate: sr,
        min_length_ms: 500,
        min_interval_ms: 300,
        max_sil_kept_ms: 200,
        ..SlicerConfig::default()
    };
    let limit = threshold(&cfg);
    let rules = frame_rules(&cfg, &stretches);
    let levels = frame_rms(&samples, rules.win_size, rules.hop_size, level);
    let chunks = slice_waveform(&samples, &cfg, limit, level, stretches).unwrap();
    let kept = kept(&chunks, samples.len());
    assert!(kept.iter().any(|&k| !k));
    for (s, &kept) in kept.iter().enumerate() {
        let frame = f32::from_bits(levels[s / rules.hop_size]);
        assert!(kept || frame < f32::from_bits(limit));
    }
    assert!(split_long_chunks(&chunks, sr, 1_000).unwrap().len() >= chunks.len());
    assert!(split_long_chunks(&chunks, sr, usize::MAX).unwrap().len() == chunks.len());
}

#[test]
fn slicer_returns_single_chunk_for_short_clip() {
    let samples = vec![0.1f32; 22_050];
    let cfg = SlicerConfig { sample_rate: 44_100, min_length_ms: 1_000, ..SlicerConfig::default() };
    let chunks = slice_waveform(&samples, &cfg, threshold(&cfg), level, stretches).unwrap();
    assert_eq!(chunks.len(), 1);
    assert_eq!(offset_seconds(&chunks[0], 44_100), 0.0);
    assert_eq!(chunks[0].waveform.len(), samples.len());
}

fn tone_silence_tone(sr: usize) -> Vec<f32> {
    let mut samples = vec![0.0f32; sr * 3];
    for index in 0..sr {
        let value = 0.5 * (2.0 * PI * 440.0 * index as f32 / sr as f32).sin();
        samples[index] = value;
        samples[2 * sr + index] = value;
    }
    samples
}

#[test]
fn slicer_splits_on_silence() {
    let sr = 44_100usize;
    let samples = tone_silence_tone(sr);
    let cfg = SlicerConfig {
        sample_rate: sr,
        min_length_ms: 500,
        min_interval_ms: 300,
        max_sil_kept_ms: 200,
        ..SlicerConfig::default()
    };
    let chunks = slice_waveform(&samples, &cfg, threshold(&cfg), level, stretches).unwrap();
    assert!(chunks.len() >= 2);
    assert!(offset_seconds(&chunks[0], sr) <= 0.1);
}

#[test]
fn chunks_are_parts_of_the_waveform() {
    let sr = 44_100usize;
    let samples = tone_silence_tone(sr);
    let cfg = SlicerConfig {
        sample_rate: sr,
        min_length_ms: 500,
        min_interval_ms: 300,
        max_sil_kept_ms: 200,
        ..SlicerConfig::default()
    };
    let chunks = slice_waveform(&samples, &cfg, threshold(&cfg), level, stretches).unwrap();
    let mut end = 0usize;
    for chunk in &chunks {
        let start = chunk.slice_start + chunk.split_start;
        assert!(start >= end);
        end = start + chunk.waveform.len();
        assert_eq!(chunk.waveform[..], samples[start..end]);
    }
    assert!(end <= samples.len());
}

#[test]
fn slicer_refuses_zero_fields() {
    let ok = SlicerConfig::default();
    for (cfg, field) in [
        (SlicerConfig { sample_rate: 0, ..ok }, "sample_rate"),
        (SlicerConfig { hop_ms: 0, ..ok }, "hop_ms"),
        (SlicerConfig { min_interval_ms: 0, ..ok }, "min_interval_ms"),
    ] {
        let err = slice_waveform(&[0.0f32], &cfg, threshold(&cfg), level, stretches).unwrap_err();
        assert_eq!(err.text, format!("slicer config `{field}` must be positive"));
    }
}

#[test]
fn levels_are_taken_over_centred_windows() {
    let cfg = SlicerConfig { sample_rate: 1_000, ..SlicerConfig::default() };
    let rules = frame_rules(&cfg, &stretches);
    assert_eq!(rules.hop_size, 20);
    assert_eq!(rules.win_size, 80);
    let levels = frame_rms(&[1.0f32; 4], 2, 2, level);
    let values: Vec<f32> = levels.iter().map(|&b| f32::from_bits(b)).collect();
    assert_eq!(values, vec![0.5f32.sqrt(), 1.0, 0.5f32.sqrt()]);
}

#[test]
fn long_chunks_are_split_without_losing_offsets_or_samples() {
    let chunks = vec![SliceChunk {
        slice_start: 3,
        split_start: 0,
        waveform: (0..10).map(|value| value as f32).collect(),
    }];

    let split = split_long_chunks(&chunks, 2, 4).unwrap();
    assert_eq!(split.len(), 3);
    assert_eq!(offset_seconds(&split[0], 2), 1.5);
    assert_eq!(offset_seconds(&split[1], 2), 3.5);
    assert_eq!(offset_seconds(&split[2], 2), 5.5);
    assert_eq!(split[0].waveform, vec![0.0, 1.0, 2.0, 3.0]);
    assert_eq!(split[1].waveform, vec![4.0, 5.0, 6.0, 7.0]);
    assert_eq!(split[2].waveform, vec![8.0, 9.0]);
}

#[test]
fn splitting_refuses_zero_rate_and_zero_length() {
    let chunks = vec![SliceChunk { slice_start: 0, split_start: 0, waveform: vec![1.0f32] }];
    assert!(split_long_chunks(&chunks, 0, 4).is_err());
    assert!(split_long_chunks(&chunks, 2, 0).is_err());
    assert_eq!(split_long_chunks(&chunks, 2, 4).unwrap().len(), 1);
}
