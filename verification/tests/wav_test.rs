use game_rs::wav::{full_scale, load_wav_mono_f32, prepare_wav_for_inference};

fn mean(frames: &[f32], from: usize, to: usize) -> f32 {
    frames[from..to].iter().sum::<f32>() / (to - from) as f32
}

fn scale(sample: i32, most: u32) -> f32 {
    sample as f32 / most as f32
}

fn floats(bytes: &[u8]) -> Result<Vec<f32>, String> {
    let mut reader = hound::WavReader::new(bytes).map_err(|e| e.to_string())?;
    reader.samples::<f32>().collect::<Result<Vec<f32>, hound::Error>>().map_err(|e| e.to_string())
}

fn left(i: usize, len: usize, src: usize, dst: usize) -> usize {
    ((i as f64 * (src as f64 / dst as f64)).floor() as usize).min(len - 1)
}

fn blend(a: f32, b: f32, i: usize, src: usize, dst: usize) -> f32 {
    let p = i as f64 * (src as f64 / dst as f64);
    a + (b - a) * (p - p.floor()) as f32
}

fn file(channels: u16, rate: u32, samples: &[i16]) -> Vec<u8> {
    let spec = hound::WavSpec {
        channels,
        sample_rate: rate,
        bits_per_sample: 16,
        sample_format: hound::SampleFormat::Int,
    };
    let mut out = std::io::Cursor::new(Vec::new());
    let mut writer = hound::WavWriter::new(&mut out, spec).unwrap();
    for &s in samples {
        writer.write_sample(s).unwrap();
    }
    writer.finalize().unwrap();
    out.into_inner()
}

#[test]
fn stereo_files_are_read_scaled_and_mixed() {
    let bytes = file(2, 48_000, &[16_384, -16_384, 32_767, 32_767]);
    let wave = load_wav_mono_f32(&bytes, "a.wav", &scale, &floats, mean).unwrap();
    assert_eq!(wave.sample_rate, 48_000);
    assert_eq!(wave.source_sample_rate, 48_000);
    assert_eq!(wave.source_channels, 2);
    assert_eq!(wave.samples.len(), 2);
    assert_eq!(wave.samples[0], 0.0);
    assert!((wave.samples[1] - 32_767.0 / full_scale(16) as f32).abs() < 1e-6);
}

#[test]
fn float_files_are_taken_as_they_are() {
    let spec = hound::WavSpec {
        channels: 1,
        sample_rate: 8_000,
        bits_per_sample: 32,
        sample_format: hound::SampleFormat::Float,
    };
    let mut out = std::io::Cursor::new(Vec::new());
    let mut writer = hound::WavWriter::new(&mut out, spec).unwrap();
    for s in [0.25f32, -0.5, 1.0] {
        writer.write_sample(s).unwrap();
    }
    writer.finalize().unwrap();
    let wave = load_wav_mono_f32(&out.into_inner(), "f.wav", &scale, &floats, mean).unwrap();
    assert_eq!(wave.samples, vec![0.25, -0.5, 1.0]);
    assert!(!wave.was_downmixed());
}

#[test]
fn files_are_resampled_for_inference() {
    let bytes = file(1, 2, &[0, 16_384]);
    let wave =
        prepare_wav_for_inference(&bytes, "a.wav", 4, &scale, &floats, mean, &left, &blend).unwrap();
    assert_eq!(wave.sample_rate, 4);
    assert_eq!(wave.source_sample_rate, 2);
    let half = 16_384.0 / full_scale(16) as f32;
    assert_eq!(wave.samples, vec![0.0, half / 2.0, half, half]);
    let refused =
        prepare_wav_for_inference(&bytes, "a.wav", -1, &scale, &floats, mean, &left, &blend);
    assert_eq!(refused.unwrap_err().text, "target sample rate must be >= 0, got -1");
}

#[test]
fn what_is_no_wave_file_is_refused() {
    let err = load_wav_mono_f32(b"RIFX", "bad.wav", &scale, &floats, mean).unwrap_err();
    assert!(err.text.starts_with("failed to open WAV bad.wav: "));
    let mut cut = file(1, 8_000, &[1, 2, 3, 4]);
    cut.truncate(cut.len() - 3);
    let err = load_wav_mono_f32(&cut, "cut.wav", &scale, &floats, mean).unwrap_err();
    assert!(err.text.starts_with("failed to decode WAV cut.wav: "), "{}", err.text);
}

#[test]
fn full_scale_of_bit_depths() {
    assert_eq!(full_scale(16), 32_768);
    assert_eq!(full_scale(8), 128);
    assert_eq!(full_scale(24), 8_388_608);
    assert_eq!(full_scale(32), 2_147_483_648);
}
