use game_rs::inspect::{
    filtered_tensors, largest_tensors, matches_tensor_prefix, tensor_prefix_stats, tensor_stats,
    tensor_type_counts, BackboneConfig, GameModelConfig, InferenceConfig, LoadedGgufModel,
    LoadedTensor,
};
use game_rs::inspect_json::{inspect_json_summary, optional_string_json, Field, Leaf};
use game_rs::inspect_report::{display_or_dash, inspect, summarize, wrap_text};

fn tensor(name: &str, shape: &[usize], kind: &str, width: usize) -> LoadedTensor {
    let n: usize = shape.iter().product();
    LoadedTensor {
        name: name.to_string(),
        shape: shape.to_vec(),
        tensor_type: kind.to_string(),
        num_elements: n,
        byte_len: n * width,
    }
}

fn tensors() -> Vec<LoadedTensor> {
    vec![
        tensor("encoder.a.weight", &[4, 4], "F32", 4),
        tensor("encoder.b.weight", &[8, 8], "F16", 2),
        tensor("segmenter.weight", &[2], "F32", 4),
    ]
}

fn backbone() -> BackboneConfig {
    BackboneConfig {
        cls: "ebf".to_string(),
        dim: 4,
        num_layers: 1,
        num_heads: 2,
        head_dim: 2,
        c_kernel_size: 3,
        m_kernel_size: 3,
        ffn_type: "glu".to_string(),
        use_ls: true,
        use_out_norm: false,
        skip_first_ffn: false,
        skip_out_ffn: false,
        return_latent: false,
        latent_layer_idx: 0,
        latent_out_dim: 0,
        region_token_num: 1,
        pool_merge_mode: "mean".to_string(),
        attn_type: "joint".to_string(),
        rope_mode: "mixed".to_string(),
        qk_norm: true,
        use_region_bias: false,
        c_kernel_size_pool: 1,
        m_kernel_size_pool: 1,
        c_kernel_size_x: 1,
        m_kernel_size_x: 1,
        use_rope: true,
        use_pool_offset: false,
        theta: "10000".to_string(),
    }
}

fn model() -> LoadedGgufModel {
    LoadedGgufModel {
        path: "models/a.gguf".to_string(),
        gguf_version: "V3".to_string(),
        quantization_version: None,
        metadata_count: 5,
        config: GameModelConfig {
            architecture: "game".to_string(),
            name: String::new(),
            version: "1".to_string(),
            mode: "m".to_string(),
            embedding_dim: 4,
            in_dim: 3,
            estimator_out_dim: 2,
            region_cycle_len: 3,
            use_languages: true,
            num_languages: 2,
            encoder: backbone(),
            segmenter: backbone(),
            estimator: backbone(),
            inference: InferenceConfig {
                audio_sample_rate: 44_100,
                hop_size: 441,
                timestep: "0.01".to_string(),
                fft_size: 2_048,
                win_size: 2_048,
                spectrogram_type: "mel".to_string(),
                n_mels: 80,
                fmin: "0".to_string(),
                fmax: "8000".to_string(),
                midi_min: "0".to_string(),
                midi_max: "127".to_string(),
                midi_num_bins: 128,
                midi_std: "1".to_string(),
                lang_map: vec![("en".to_string(), 1)],
            },
        },
        tensors: tensors(),
    }
}

#[test]
fn prefixes_end_at_a_dot() {
    assert!(matches_tensor_prefix("encoder.a", "encoder"));
    assert!(matches_tensor_prefix("encoder", "encoder"));
    assert!(!matches_tensor_prefix("encoders.a", "encoder"));
    assert_eq!(filtered_tensors(&tensors(), Some("encoder")), vec![0, 1]);
    assert_eq!(filtered_tensors(&tensors(), None), vec![0, 1, 2]);
}

#[test]
fn tensors_are_counted() {
    let stats = tensor_stats(&tensors(), &vec![0, 1]);
    assert_eq!(stats.tensor_count, 2);
    assert_eq!(stats.parameter_count, 80);
    assert_eq!(stats.byte_count, 64 + 128);
    let types: Vec<(String, usize)> = tensor_type_counts(&tensors())
        .iter()
        .map(|g| (g.key.clone(), g.stats.tensor_count))
        .collect();
    assert_eq!(types, vec![("F16".to_string(), 1), ("F32".to_string(), 2)]);
    let prefixes: Vec<String> =
        tensor_prefix_stats(&tensors()).iter().map(|g| g.key.clone()).collect();
    assert_eq!(prefixes, vec!["encoder", "segmenter"]);
    assert_eq!(largest_tensors(&tensors(), &vec![0, 1, 2], 2), vec![1, 0]);
}

#[test]
fn reports_tell_the_model() {
    let lines = inspect(&model(), 2_048, Some("encoder"), 5);
    let all = lines.join("\n");
    assert!(all.contains("models/a.gguf"), "{all}");
    assert!(all.contains("2.00 KiB"), "{all}");
    assert!(all.contains("encoder.b.weight"), "{all}");
    assert!(!all.contains("segmenter.weight"), "{all}");
    let summary = summarize(&tensors(), None, 1);
    assert_eq!(display_or_dash(""), "-");
    assert_eq!(display_or_dash("x"), "x");
    let _ = summary;
}

#[test]
fn texts_are_wrapped_at_blanks() {
    assert_eq!(wrap_text("aa bb cc", 5), vec!["aa bb", "cc"]);
    assert_eq!(wrap_text("", 5).concat(), "");
}

fn find<'a>(fields: &'a [Field], key: &str) -> &'a Leaf {
    &fields.iter().find(|f| f.key == key).expect(key).value
}

#[test]
fn documents_hold_the_same_facts() {
    let d = inspect_json_summary(&model(), 2_048, Some("encoder"), 1);
    assert!(d.file.iter().any(|f| matches!(f.value, Leaf::Whole(2_048))));
    assert_eq!(d.tensor_types.len(), 2);
    assert_eq!(d.tensor_prefixes.len(), 2);
    assert_eq!(d.sample_tensors.len(), 1);
    assert!(matches!(find(&d.inference, "audio_sample_rate"), Leaf::Whole(44_100)));
    assert!(matches!(optional_string_json(""), Leaf::Null));
    assert!(matches!(optional_string_json("x"), Leaf::Text(_)));
}
