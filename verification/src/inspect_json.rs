//! The description of a model file as data: named values in named groups.
use vstd::prelude::*;
use vstd::string::*;

use crate::inspect::{
    all_places, all_within, prefix_view, sums_fit, BackboneConfig, GameModelConfig,
    InferenceConfig, LoadedGgufModel, LoadedTensor, PrefixStats, TensorGroup,
};
use crate::inspect_report::{is_summary, summarize, InspectSummary};
use crate::slices::copy_all;
use crate::text::{bytes_text, format_bytes};

verus! {

/// A number with a fraction, by what it is.
#[derive(Debug, Clone, Copy, PartialEq, Eq, Structural)]
pub enum Real {
    Timestep,
    Fmin,
    Fmax,
    MidiMin,
    MidiMax,
    MidiStd,
    EncoderTheta,
    SegmenterTheta,
    EstimatorTheta,
}

/// A value.
#[derive(Debug)]
pub enum Leaf {
    Null,
    Flag(bool),
    Whole(i128),
    Fraction(Real),
    Text(String),
    Sizes(Vec<usize>),
    Numbered(Vec<(String, i32)>),
}

/// A value under its name.
#[derive(Debug)]
pub struct Field {
    pub key: &'static str,
    pub value: Leaf,
}

pub ghost enum LeafView {
    Null,
    Flag(bool),
    Whole(int),
    Fraction(Real),
    Text(Seq<char>),
    Sizes(Seq<usize>),
    Numbered(Seq<(Seq<char>, i32)>),
}

pub open spec fn numbered_view(map: Seq<(String, i32)>) -> Seq<(Seq<char>, i32)> {
    map.map_values(|e: (String, i32)| (e.0@, e.1))
}

impl View for Leaf {
    type V = LeafView;

    open spec fn view(&self) -> LeafView {
        match *self {
            Leaf::Null => LeafView::Null,
            Leaf::Flag(b) => LeafView::Flag(b),
            Leaf::Whole(n) => LeafView::Whole(n as int),
            Leaf::Fraction(r) => LeafView::Fraction(r),
            Leaf::Text(s) => LeafView::Text(s@),
            Leaf::Sizes(v) => LeafView::Sizes(v@),
            Leaf::Numbered(v) => LeafView::Numbered(numbered_view(v@)),
        }
    }
}

pub open spec fn field_views(fields: Seq<Field>) -> Seq<(Seq<char>, LeafView)> {
    fields.map_values(|f: Field| (f.key@, f.value@))
}

/// No values.
pub open spec fn no_fields() -> Seq<(Seq<char>, LeafView)> {
    Seq::empty()
}

/// A text, or nothing where it is empty.
pub open spec fn optional_text(value: Seq<char>) -> LeafView {
    if value.len() == 0 {
        LeafView::Null
    } else {
        LeafView::Text(value)
    }
}

fn push_field(fields: &mut Vec<Field>, key: &'static str, value: Leaf)
    ensures
        field_views(final(fields)@) == field_views(old(fields)@).push((key@, value@)),
{
    fields.push(Field { key, value });
    assert(field_views(fields@) =~= field_views(old(fields)@).push((key@, value@)));
}

fn push_text(fields: &mut Vec<Field>, key: &'static str, value: &str)
    ensures
        field_views(final(fields)@) == field_views(old(fields)@).push(
            (key@, LeafView::Text(value@)),
        ),
{
    push_field(fields, key, Leaf::Text(String::from_str(value)));
}

fn push_whole(fields: &mut Vec<Field>, key: &'static str, value: i128)
    ensures
        field_views(final(fields)@) == field_views(old(fields)@).push(
            (key@, LeafView::Whole(value as int)),
        ),
{
    push_field(fields, key, Leaf::Whole(value));
}

fn push_flag(fields: &mut Vec<Field>, key: &'static str, value: bool)
    ensures
        field_views(final(fields)@) == field_views(old(fields)@).push((key@, LeafView::Flag(value))),
{
    push_field(fields, key, Leaf::Flag(value));
}

fn push_real(fields: &mut Vec<Field>, key: &'static str, value: Real)
    ensures
        field_views(final(fields)@) == field_views(old(fields)@).push(
            (key@, LeafView::Fraction(value)),
        ),
{
    push_field(fields, key, Leaf::Fraction(value));
}

/// The value of a text: nothing where it is empty.
pub fn optional_string_json(value: &str) -> (leaf: Leaf)
    ensures
        leaf@ == optional_text(value@),
{
    if value.is_empty() {
        Leaf::Null
    } else {
        Leaf::Text(String::from_str(value))
    }
}

// ---------------------------------------------------------------------------
// Groups
// ---------------------------------------------------------------------------
pub open spec fn backbone_fields(
    backbone: BackboneConfig,
    theta: Real,
) -> Seq<(Seq<char>, LeafView)> {
    no_fields()
        .push(("cls"@, optional_text(backbone.cls@)))
        .push(("dim"@, LeafView::Whole(backbone.dim as int)))
        .push(("num_layers"@, LeafView::Whole(backbone.num_layers as int)))
        .push(("num_heads"@, LeafView::Whole(backbone.num_heads as int)))
        .push(("head_dim"@, LeafView::Whole(backbone.head_dim as int)))
        .push(("c_kernel_size"@, LeafView::Whole(backbone.c_kernel_size as int)))
        .push(("m_kernel_size"@, LeafView::Whole(backbone.m_kernel_size as int)))
        .push(("ffn_type"@, LeafView::Text(backbone.ffn_type@)))
        .push(("use_ls"@, LeafView::Flag(backbone.use_ls)))
        .push(("use_out_norm"@, LeafView::Flag(backbone.use_out_norm)))
        .push(("skip_first_ffn"@, LeafView::Flag(backbone.skip_first_ffn)))
        .push(("skip_out_ffn"@, LeafView::Flag(backbone.skip_out_ffn)))
        .push(("return_latent"@, LeafView::Flag(backbone.return_latent)))
        .push(("latent_layer_idx"@, LeafView::Whole(backbone.latent_layer_idx as int)))
        .push(("latent_out_dim"@, LeafView::Whole(backbone.latent_out_dim as int)))
        .push(("region_token_num"@, LeafView::Whole(backbone.region_token_num as int)))
        .push(("pool_merge_mode"@, LeafView::Text(backbone.pool_merge_mode@)))
        .push(("attn_type"@, LeafView::Text(backbone.attn_type@)))
        .push(("rope_mode"@, LeafView::Text(backbone.rope_mode@)))
        .push(("qk_norm"@, LeafView::Flag(backbone.qk_norm)))
        .push(("use_region_bias"@, LeafView::Flag(backbone.use_region_bias)))
        .push(("c_kernel_size_pool"@, LeafView::Whole(backbone.c_kernel_size_pool as int)))
        .push(("m_kernel_size_pool"@, LeafView::Whole(backbone.m_kernel_size_pool as int)))
        .push(("c_kernel_size_x"@, LeafView::Whole(backbone.c_kernel_size_x as int)))
        .push(("m_kernel_size_x"@, LeafView::Whole(backbone.m_kernel_size_x as int)))
        .push(("use_rope"@, LeafView::Flag(backbone.use_rope)))
        .push(("use_pool_offset"@, LeafView::Flag(backbone.use_pool_offset)))
        .push(("theta"@, LeafView::Fraction(theta)))
}

/// The values of a network.
fn backbone_json_summary(backbone: &BackboneConfig, theta: Real) -> (fields: Vec<Field>)
    ensures
        field_views(fields@) == backbone_fields(*backbone, theta),
{
    let mut fields: Vec<Field> = Vec::new();
    assert(field_views(fields@) =~= no_fields());
    push_field(&mut fields, "cls", optional_string_json(&backbone.cls));
    push_whole(&mut fields, "dim", backbone.dim as i128);
    push_whole(&mut fields, "num_layers", backbone.num_layers as i128);
    push_whole(&mut fields, "num_heads", backbone.num_heads as i128);
    push_whole(&mut fields, "head_dim", backbone.head_dim as i128);
    push_whole(&mut fields, "c_kernel_size", backbone.c_kernel_size as i128);
    push_whole(&mut fields, "m_kernel_size", backbone.m_kernel_size as i128);
    push_text(&mut fields, "ffn_type", &backbone.ffn_type);
    push_flag(&mut fields, "use_ls", backbone.use_ls);
    push_flag(&mut fields, "use_out_norm", backbone.use_out_norm);
    push_flag(&mut fields, "skip_first_ffn", backbone.skip_first_ffn);
    push_flag(&mut fields, "skip_out_ffn", backbone.skip_out_ffn);
    push_flag(&mut fields, "return_latent", backbone.return_latent);
    push_whole(&mut fields, "latent_layer_idx", backbone.latent_layer_idx as i128);
    push_whole(&mut fields, "latent_out_dim", backbone.latent_out_dim as i128);
    push_whole(&mut fields, "region_token_num", backbone.region_token_num as i128);
    push_text(&mut fields, "pool_merge_mode", &backbone.pool_merge_mode);
    push_text(&mut fields, "attn_type", &backbone.attn_type);
    push_text(&mut fields, "rope_mode", &backbone.rope_mode);
    push_flag(&mut fields, "qk_norm", backbone.qk_norm);
    push_flag(&mut fields, "use_region_bias", backbone.use_region_bias);
    push_whole(&mut fields, "c_kernel_size_pool", backbone.c_kernel_size_pool as i128);
    push_whole(&mut fields, "m_kernel_size_pool", backbone.m_kernel_size_pool as i128);
    push_whole(&mut fields, "c_kernel_size_x", backbone.c_kernel_size_x as i128);
    push_whole(&mut fields, "m_kernel_size_x", backbone.m_kernel_size_x as i128);
    push_flag(&mut fields, "use_rope", backbone.use_rope);
    push_flag(&mut fields, "use_pool_offset", backbone.use_pool_offset);
    push_real(&mut fields, "theta", theta);
    fields
}

pub open spec fn config_fields(config: GameModelConfig) -> Seq<(Seq<char>, LeafView)> {
    no_fields()
        .push(("name"@, optional_text(config.name@)))
        .push(("version"@, optional_text(config.version@)))
        .push(("mode"@, LeafView::Text(config.mode@)))
        .push(("embedding_dim"@, LeafView::Whole(config.embedding_dim as int)))
        .push(("input_dim"@, LeafView::Whole(config.in_dim as int)))
        .push(("estimator_out_dim"@, LeafView::Whole(config.estimator_out_dim as int)))
        .push(("region_cycle_len"@, LeafView::Whole(config.region_cycle_len as int)))
        .push(("use_languages"@, LeafView::Flag(config.use_languages)))
        .push(("num_languages"@, LeafView::Whole(config.num_languages as int)))
}

/// The values of the configuration.
fn config_summary(config: &GameModelConfig) -> (fields: Vec<Field>)
    ensures
        field_views(fields@) == config_fields(*config),
{
    let mut fields: Vec<Field> = Vec::new();
    assert(field_views(fields@) =~= no_fields());
    push_field(&mut fields, "name", optional_string_json(&config.name));
    push_field(&mut fields, "version", optional_string_json(&config.version));
    push_text(&mut fields, "mode", &config.mode);
    push_whole(&mut fields, "embedding_dim", config.embedding_dim as i128);
    push_whole(&mut fields, "input_dim", config.in_dim as i128);
    push_whole(&mut fields, "estimator_out_dim", config.estimator_out_dim as i128);
    push_whole(&mut fields, "region_cycle_len", config.region_cycle_len as i128);
    push_flag(&mut fields, "use_languages", config.use_languages);
    push_whole(&mut fields, "num_languages", config.num_languages as i128);
    fields
}

fn copy_numbered(map: &Vec<(String, i32)>) -> (copy: Vec<(String, i32)>)
    ensures
        numbered_view(copy@) == numbered_view(map@),
{
    let mut copy: Vec<(String, i32)> = Vec::new();
    let mut i: usize = 0;
    while i < map.len()
        invariant
            i <= map.len(),
            copy.len() == i,
            forall|k: int|
                0 <= k < i ==> (#[trigger] copy@[k]).0@ == map@[k].0@ && copy@[k].1 == map@[k].1,
        decreases map.len() - i,
    {
        copy.push((String::from_str(&map[i].0), map[i].1));
        i += 1;
    }
    assert(numbered_view(copy@) =~= numbered_view(map@));
    copy
}

pub open spec fn inference_fields(inference: InferenceConfig) -> Seq<(Seq<char>, LeafView)> {
    no_fields()
        .push(("audio_sample_rate"@, LeafView::Whole(inference.audio_sample_rate as int)))
        .push(("hop_size"@, LeafView::Whole(inference.hop_size as int)))
        .push(("timestep_seconds"@, LeafView::Fraction(Real::Timestep)))
        .push(("fft_size"@, LeafView::Whole(inference.fft_size as int)))
        .push(("win_size"@, LeafView::Whole(inference.win_size as int)))
        .push(("spectrogram_type"@, LeafView::Text(inference.spectrogram_type@)))
        .push(("n_mels"@, LeafView::Whole(inference.n_mels as int)))
        .push(("fmin"@, LeafView::Fraction(Real::Fmin)))
        .push(("fmax"@, LeafView::Fraction(Real::Fmax)))
        .push(("midi_min"@, LeafView::Fraction(Real::MidiMin)))
        .push(("midi_max"@, LeafView::Fraction(Real::MidiMax)))
        .push(("midi_num_bins"@, LeafView::Whole(inference.midi_num_bins as int)))
        .push(("midi_std"@, LeafView::Fraction(Real::MidiStd)))
        .push(("lang_map"@, LeafView::Numbered(numbered_view(inference.lang_map@))))
}

/// The values on the input.
fn inference_summary(inference: &InferenceConfig) -> (fields: Vec<Field>)
    ensures
        field_views(fields@) == inference_fields(*inference),
{
    let mut fields: Vec<Field> = Vec::new();
    assert(field_views(fields@) =~= no_fields());
    push_whole(&mut fields, "audio_sample_rate", inference.audio_sample_rate as i128);
    push_whole(&mut fields, "hop_size", inference.hop_size as i128);
    push_real(&mut fields, "timestep_seconds", Real::Timestep);
    push_whole(&mut fields, "fft_size", inference.fft_size as i128);
    push_whole(&mut fields, "win_size", inference.win_size as i128);
    push_text(&mut fields, "spectrogram_type", &inference.spectrogram_type);
    push_whole(&mut fields, "n_mels", inference.n_mels as i128);
    push_real(&mut fields, "fmin", Real::Fmin);
    push_real(&mut fields, "fmax", Real::Fmax);
    push_real(&mut fields, "midi_min", Real::MidiMin);
    push_real(&mut fields, "midi_max", Real::MidiMax);
    push_whole(&mut fields, "midi_num_bins", inference.midi_num_bins as i128);
    push_real(&mut fields, "midi_std", Real::MidiStd);
    push_field(&mut fields, "lang_map", Leaf::Numbered(copy_numbered(&inference.lang_map)));
    fields
}

pub open spec fn tensor_fields(tensor: LoadedTensor) -> Seq<(Seq<char>, LeafView)> {
    no_fields()
        .push(("name"@, LeafView::Text(tensor.name@)))
        .push(("shape"@, LeafView::Sizes(tensor.shape@)))
        .push(("tensor_type"@, LeafView::Text(tensor.tensor_type@)))
        .push(("num_elements"@, LeafView::Whole(tensor.num_elements as int)))
        .push(("byte_count"@, LeafView::Whole(tensor.byte_len as int)))
        .push(("byte_count_human"@, LeafView::Text(bytes_text(tensor.byte_len as u64))))
}

/// The values of a tensor.
fn tensor_json_summary(tensor: &LoadedTensor) -> (fields: Vec<Field>)
    ensures
        field_views(fields@) == tensor_fields(*tensor),
{
    let mut fields: Vec<Field> = Vec::new();
    assert(field_views(fields@) =~= no_fields());
    push_text(&mut fields, "name", &tensor.name);
    push_field(&mut fields, "shape", Leaf::Sizes(copy_all(&tensor.shape)));
    push_text(&mut fields, "tensor_type", &tensor.tensor_type);
    push_whole(&mut fields, "num_elements", tensor.num_elements as i128);
    push_whole(&mut fields, "byte_count", tensor.byte_len as i128);
    push_text(&mut fields, "byte_count_human", &format_bytes(tensor.byte_len as u64));
    fields
}

pub open spec fn prefix_fields(stats: PrefixStats) -> Seq<(Seq<char>, LeafView)> {
    no_fields()
        .push(("tensor_count"@, LeafView::Whole(stats.tensor_count as int)))
        .push(("parameter_count"@, LeafView::Whole(stats.parameter_count as int)))
        .push(("byte_count"@, LeafView::Whole(stats.byte_count as int)))
        .push(("byte_count_human"@, LeafView::Text(bytes_text(stats.byte_count))))
}

/// The values of the tensors with a common prefix.
fn prefix_summary(stats: PrefixStats) -> (fields: Vec<Field>)
    ensures
        field_views(fields@) == prefix_fields(stats),
{
    let mut fields: Vec<Field> = Vec::new();
    assert(field_views(fields@) =~= no_fields());
    push_whole(&mut fields, "tensor_count", stats.tensor_count as i128);
    push_whole(&mut fields, "parameter_count", stats.parameter_count as i128);
    push_whole(&mut fields, "byte_count", stats.byte_count as i128);
    push_text(&mut fields, "byte_count_human", &format_bytes(stats.byte_count));
    fields
}

pub open spec fn optional_number(value: Option<u32>) -> LeafView {
    match value {
        Some(n) => LeafView::Whole(n as int),
        None => LeafView::Null,
    }
}

fn number_leaf(value: Option<u32>) -> (leaf: Leaf)
    ensures
        leaf@ == optional_number(value),
{
    match value {
        Some(n) => Leaf::Whole(n as i128),
        None => Leaf::Null,
    }
}

pub open spec fn prefix_leaf(prefix: Option<Seq<char>>) -> LeafView {
    match prefix {
        Some(p) => LeafView::Text(p),
        None => LeafView::Null,
    }
}

fn wanted_leaf(prefix: Option<&str>) -> (leaf: Leaf)
    ensures
        leaf@ == prefix_leaf(prefix_view(prefix)),
{
    match prefix {
        Some(p) => Leaf::Text(String::from_str(p)),
        None => Leaf::Null,
    }
}

pub open spec fn file_fields(path: Seq<char>, file_size: u64) -> Seq<(Seq<char>, LeafView)> {
    no_fields()
        .push(("model_path"@, LeafView::Text(path)))
        .push(("file_size_bytes"@, LeafView::Whole(file_size as int)))
        .push(("file_size_human"@, LeafView::Text(bytes_text(file_size))))
}

/// The values of the file.
fn file_summary(path: &str, file_size: u64) -> (fields: Vec<Field>)
    ensures
        field_views(fields@) == file_fields(path@, file_size),
{
    let mut fields: Vec<Field> = Vec::new();
    assert(field_views(fields@) =~= no_fields());
    push_text(&mut fields, "model_path", path);
    push_whole(&mut fields, "file_size_bytes", file_size as i128);
    push_text(&mut fields, "file_size_human", &format_bytes(file_size));
    fields
}

pub open spec fn gguf_fields(
    model: LoadedGgufModel,
    total: PrefixStats,
) -> Seq<(Seq<char>, LeafView)> {
    no_fields()
        .push(("version"@, LeafView::Text(model.gguf_version@)))
        .push(("architecture"@, LeafView::Text(model.config.architecture@)))
        .push(("quantization_version"@, optional_number(model.quantization_version)))
        .push(("metadata_keys"@, LeafView::Whole(model.metadata_count as int)))
        .push(("tensor_count"@, LeafView::Whole(total.tensor_count as int)))
        .push(("parameter_count"@, LeafView::Whole(total.parameter_count as int)))
        .push(("loaded_weights_bytes"@, LeafView::Whole(total.byte_count as int)))
        .push(("loaded_weights_human"@, LeafView::Text(bytes_text(total.byte_count))))
}

/// The values of the container.
fn gguf_summary(model: &LoadedGgufModel, total: PrefixStats) -> (fields: Vec<Field>)
    ensures
        field_views(fields@) == gguf_fields(*model, total),
{
    let mut fields: Vec<Field> = Vec::new();
    assert(field_views(fields@) =~= no_fields());
    push_text(&mut fields, "version", &model.gguf_version);
    push_text(&mut fields, "architecture", &model.config.architecture);
    push_field(&mut fields, "quantization_version", number_leaf(model.quantization_version));
    push_whole(&mut fields, "metadata_keys", model.metadata_count as i128);
    push_whole(&mut fields, "tensor_count", total.tensor_count as i128);
    push_whole(&mut fields, "parameter_count", total.parameter_count as i128);
    push_whole(&mut fields, "loaded_weights_bytes", total.byte_count as i128);
    push_text(&mut fields, "loaded_weights_human", &format_bytes(total.byte_count));
    fields
}

pub open spec fn filter_fields(
    prefix: Option<Seq<char>>,
    stats: PrefixStats,
) -> Seq<(Seq<char>, LeafView)> {
    no_fields()
        .push(("prefix"@, prefix_leaf(prefix)))
        .push(("matched_tensor_count"@, LeafView::Whole(stats.tensor_count as int)))
        .push(("matched_parameter_count"@, LeafView::Whole(stats.parameter_count as int)))
        .push(("matched_byte_count"@, LeafView::Whole(stats.byte_count as int)))
        .push(("matched_byte_count_human"@, LeafView::Text(bytes_text(stats.byte_count))))
}

/// The values of the tensors that are asked for.
fn filter_summary(prefix: Option<&str>, stats: PrefixStats) -> (fields: Vec<Field>)
    ensures
        field_views(fields@) == filter_fields(prefix_view(prefix), stats),
{
    let mut fields: Vec<Field> = Vec::new();
    assert(field_views(fields@) =~= no_fields());
    push_field(&mut fields, "prefix", wanted_leaf(prefix));
    push_whole(&mut fields, "matched_tensor_count", stats.tensor_count as i128);
    push_whole(&mut fields, "matched_parameter_count", stats.parameter_count as i128);
    push_whole(&mut fields, "matched_byte_count", stats.byte_count as i128);
    push_text(&mut fields, "matched_byte_count_human", &format_bytes(stats.byte_count));
    fields
}

// ---------------------------------------------------------------------------
// The whole
// ---------------------------------------------------------------------------
/// The number of tensors of a type.
#[derive(Debug)]
pub struct TypeCount {
    pub name: String,
    pub count: usize,
}

/// The values of a prefix.
#[derive(Debug)]
pub struct PrefixFields {
    pub prefix: String,
    pub fields: Vec<Field>,
}

/// The description of a model file. The values of `file` stand at the top, those of
/// the networks in a group of groups, and all others in groups of the names of the
/// members here.
#[derive(Debug)]
pub struct InspectDocument {
    pub file: Vec<Field>,
    pub gguf: Vec<Field>,
    pub tensor_filter: Vec<Field>,
    pub model_config: Vec<Field>,
    pub inference: Vec<Field>,
    pub encoder: Vec<Field>,
    pub segmenter: Vec<Field>,
    pub estimator: Vec<Field>,
    pub tensor_types: Vec<TypeCount>,
    pub tensor_prefixes: Vec<PrefixFields>,
    pub largest_tensors: Vec<Vec<Field>>,
    pub sample_tensors: Vec<Vec<Field>>,
}

/// The counts are those of the groups.
pub open spec fn are_type_counts(counts: Seq<TypeCount>, groups: Seq<TensorGroup>) -> bool {
    &&& counts.len() == groups.len()
    &&& forall|i: int|
        0 <= i < groups.len() ==> (#[trigger] counts[i]).name@ == groups[i].key@ && counts[i].count
            == groups[i].stats.tensor_count
}

/// The values are those of the groups.
pub open spec fn are_prefix_fields(all: Seq<PrefixFields>, groups: Seq<TensorGroup>) -> bool {
    &&& all.len() == groups.len()
    &&& forall|i: int|
        0 <= i < groups.len() ==> (#[trigger] all[i]).prefix@ == groups[i].key@ && field_views(
            all[i].fields@,
        ) == prefix_fields(groups[i].stats)
}

/// The values are those of the tensors at the places.
pub open spec fn are_tensor_fields(
    all: Seq<Vec<Field>>,
    tensors: Seq<LoadedTensor>,
    places: Seq<usize>,
) -> bool {
    &&& all.len() == places.len()
    &&& forall|i: int|
        0 <= i < places.len() ==> field_views((#[trigger] all[i])@) == tensor_fields(
            tensors[places[i] as int],
        )
}

fn type_counts(groups: &Vec<TensorGroup>) -> (counts: Vec<TypeCount>)
    ensures
        are_type_counts(counts@, groups@),
{
    let mut counts: Vec<TypeCount> = Vec::new();
    let mut i: usize = 0;
    while i < groups.len()
        invariant
            i <= groups.len(),
            are_type_counts(counts@, groups@.take(i as int)),
        decreases groups.len() - i,
    {
        counts.push(
            TypeCount { name: String::from_str(&groups[i].key), count: groups[i].stats.tensor_count },
        );
        i += 1;
    }
    assert(groups@.take(i as int) =~= groups@);
    counts
}

fn all_prefix_fields(groups: &Vec<TensorGroup>) -> (all: Vec<PrefixFields>)
    ensures
        are_prefix_fields(all@, groups@),
{
    let mut all: Vec<PrefixFields> = Vec::new();
    let mut i: usize = 0;
    while i < groups.len()
        invariant
            i <= groups.len(),
            are_prefix_fields(all@, groups@.take(i as int)),
        decreases groups.len() - i,
    {
        all.push(
            PrefixFields {
                prefix: String::from_str(&groups[i].key),
                fields: prefix_summary(groups[i].stats),
            },
        );
        i += 1;
    }
    assert(groups@.take(i as int) =~= groups@);
    all
}

fn all_tensor_fields(tensors: &Vec<LoadedTensor>, places: &Vec<usize>) -> (all: Vec<Vec<Field>>)
    requires
        all_within(places@, tensors.len() as int),
    ensures
        are_tensor_fields(all@, tensors@, places@),
{
    let mut all: Vec<Vec<Field>> = Vec::new();
    let mut i: usize = 0;
    while i < places.len()
        invariant
            i <= places.len(),
            all_within(places@, tensors.len() as int),
            are_tensor_fields(all@, tensors@, places@.take(i as int)),
        decreases places.len() - i,
    {
        all.push(tensor_json_summary(&tensors[places[i]]));
        i += 1;
    }
    assert(places@.take(i as int) =~= places@);
    all
}

/// `d` describes the model whose tensors are summed up as `s`.
pub open spec fn is_document(
    d: InspectDocument,
    model: LoadedGgufModel,
    file_size: u64,
    prefix: Option<Seq<char>>,
    s: InspectSummary,
) -> bool {
    &&& field_views(d.file@) == file_fields(model.path@, file_size)
    &&& field_views(d.gguf@) == gguf_fields(model, s.total)
    &&& field_views(d.tensor_filter@) == filter_fields(prefix, s.matching_stats)
    &&& field_views(d.model_config@) == config_fields(model.config)
    &&& field_views(d.inference@) == inference_fields(model.config.inference)
    &&& field_views(d.encoder@) == backbone_fields(model.config.encoder, Real::EncoderTheta)
    &&& field_views(d.segmenter@) == backbone_fields(model.config.segmenter, Real::SegmenterTheta)
    &&& field_views(d.estimator@) == backbone_fields(model.config.estimator, Real::EstimatorTheta)
    &&& are_type_counts(d.tensor_types@, s.types@)
    &&& are_prefix_fields(d.tensor_prefixes@, s.prefixes@)
    &&& are_tensor_fields(d.largest_tensors@, model.tensors@, s.largest@)
    &&& are_tensor_fields(d.sample_tensors@, model.tensors@, s.sample@)
}

/// Describes a model whose tensors are summed up already.
pub fn document(
    model: &LoadedGgufModel,
    file_size: u64,
    prefix: Option<&str>,
    s: &InspectSummary,
) -> (d:
    InspectDocument)
    requires
        all_within(s.largest@, model.tensors.len() as int),
        all_within(s.sample@, model.tensors.len() as int),
    ensures
        is_document(d, *model, file_size, prefix_view(prefix), *s),
{
    InspectDocument {
        file: file_summary(&model.path, file_size),
        gguf: gguf_summary(model, s.total),
        tensor_filter: filter_summary(prefix, s.matching_stats),
        model_config: config_summary(&model.config),
        inference: inference_summary(&model.config.inference),
        encoder: backbone_json_summary(&model.config.encoder, Real::EncoderTheta),
        segmenter: backbone_json_summary(&model.config.segmenter, Real::SegmenterTheta),
        estimator: backbone_json_summary(&model.config.estimator, Real::EstimatorTheta),
        tensor_types: type_counts(&s.types),
        tensor_prefixes: all_prefix_fields(&s.prefixes),
        largest_tensors: all_tensor_fields(&model.tensors, &s.largest),
        sample_tensors: all_tensor_fields(&model.tensors, &s.sample),
    }
}

/// Describes a model: how its tensors divide up, and up to `show` of them, of those
/// that belong to the wanted prefix.
pub fn inspect_json_summary(
    model: &LoadedGgufModel,
    file_size: u64,
    prefix: Option<&str>,
    show: usize,
) -> (d: InspectDocument)
    requires
        sums_fit(model.tensors@, all_places(model.tensors.len() as int)),
    ensures
        exists|s: InspectSummary| #[trigger]
            is_summary(s, model.tensors@, prefix_view(prefix), show as int) && is_document(
                d,
                *model,
                file_size,
                prefix_view(prefix),
                s,
            ),
{
    let s = summarize(&model.tensors, prefix, show);
    document(model, file_size, prefix, &s)
}

/// There is such a field.
pub open spec fn holds(
    fields: Seq<(Seq<char>, LeafView)>,
    key: Seq<char>,
    value: LeafView,
) -> bool {
    fields.contains((key, value))
}

/// Everything that is known of the file is told, under a key of its own, and nothing else.
pub proof fn law_file_is_described(path: Seq<char>, file_size: u64)
    ensures
        ({
            let fields = file_fields(path, file_size);
            &&& fields.len() == 3
            &&& holds(fields, "model_path"@, LeafView::Text(path))
            &&& holds(fields, "file_size_bytes"@, LeafView::Whole(file_size as int))
            &&& holds(fields, "file_size_human"@, LeafView::Text(bytes_text(file_size)))
        }),
{
    let fields = file_fields(path, file_size);
    assert(fields[0] == ("model_path"@, LeafView::Text(path)));
    assert(fields[1] == ("file_size_bytes"@, LeafView::Whole(file_size as int)));
    assert(fields[2] == ("file_size_human"@, LeafView::Text(bytes_text(file_size))));
}

/// Everything that is known of the container is told, under a key of its own, and nothing else.
pub proof fn law_container_is_described(model: LoadedGgufModel, total: PrefixStats)
    ensures
        ({
            let fields = gguf_fields(model, total);
            &&& fields.len() == 8
            &&& holds(fields, "version"@, LeafView::Text(model.gguf_version@))
            &&& holds(fields, "architecture"@, LeafView::Text(model.config.architecture@))
            &&& holds(fields, "quantization_version"@, optional_number(model.quantization_version))
            &&& holds(fields, "metadata_keys"@, LeafView::Whole(model.metadata_count as int))
            &&& holds(fields, "tensor_count"@, LeafView::Whole(total.tensor_count as int))
            &&& holds(fields, "parameter_count"@, LeafView::Whole(total.parameter_count as int))
            &&& holds(fields, "loaded_weights_bytes"@, LeafView::Whole(total.byte_count as int))
            &&& holds(
                fields,
                "loaded_weights_human"@,
                LeafView::Text(bytes_text(total.byte_count)),
            )
        }),
{
    let fields = gguf_fields(model, total);
    assert(fields[0] == ("version"@, LeafView::Text(model.gguf_version@)));
    assert(fields[1] == ("architecture"@, LeafView::Text(model.config.architecture@)));
    assert(fields[2] == ("quantization_version"@, optional_number(model.quantization_version)));
    assert(fields[3] == ("metadata_keys"@, LeafView::Whole(model.metadata_count as int)));
    assert(fields[4] == ("tensor_count"@, LeafView::Whole(total.tensor_count as int)));
    assert(fields[5] == ("parameter_count"@, LeafView::Whole(total.parameter_count as int)));
    assert(fields[6] == ("loaded_weights_bytes"@, LeafView::Whole(total.byte_count as int)));
    assert(fields[7] == ("loaded_weights_human"@, LeafView::Text(bytes_text(total.byte_count))));
}

/// Everything that is known of the filter is told, under a key of its own, and nothing else.
pub proof fn law_filter_is_described(prefix: Option<Seq<char>>, stats: PrefixStats)
    ensures
        ({
            let fields = filter_fields(prefix, stats);
            &&& fields.len() == 5
            &&& holds(fields, "prefix"@, prefix_leaf(prefix))
            &&& holds(fields, "matched_tensor_count"@, LeafView::Whole(stats.tensor_count as int))
            &&& holds(
                fields,
                "matched_parameter_count"@,
                LeafView::Whole(stats.parameter_count as int),
            )
            &&& holds(fields, "matched_byte_count"@, LeafView::Whole(stats.byte_count as int))
            &&& holds(
                fields,
                "matched_byte_count_human"@,
                LeafView::Text(bytes_text(stats.byte_count)),
            )
        }),
{
    let fields = filter_fields(prefix, stats);
    assert(fields[0] == ("prefix"@, prefix_leaf(prefix)));
    assert(fields[1] == ("matched_tensor_count"@, LeafView::Whole(stats.tensor_count as int)));
    assert(fields[2] == (
        "matched_parameter_count"@,
        LeafView::Whole(stats.parameter_count as int),
    ));
    assert(fields[3] == ("matched_byte_count"@, LeafView::Whole(stats.byte_count as int)));
    assert(fields[4] == (
        "matched_byte_count_human"@,
        LeafView::Text(bytes_text(stats.byte_count)),
    ));
}

/// Everything that is known of the model is told, under a key of its own, and nothing else.
pub proof fn law_model_is_described(config: GameModelConfig)
    ensures
        ({
            let fields = config_fields(config);
            &&& fields.len() == 9
            &&& holds(
                fields,
                "name"@,
                if config.name@.len() == 0 {
                    LeafView::Null
                } else {
                    LeafView::Text(config.name@)
                },
            )
            &&& holds(
                fields,
                "version"@,
                if config.version@.len() == 0 {
                    LeafView::Null
                } else {
                    LeafView::Text(config.version@)
                },
            )
            &&& holds(fields, "mode"@, LeafView::Text(config.mode@))
            &&& holds(fields, "embedding_dim"@, LeafView::Whole(config.embedding_dim as int))
            &&& holds(fields, "input_dim"@, LeafView::Whole(config.in_dim as int))
            &&& holds(
                fields,
                "estimator_out_dim"@,
                LeafView::Whole(config.estimator_out_dim as int),
            )
            &&& holds(fields, "region_cycle_len"@, LeafView::Whole(config.region_cycle_len as int))
            &&& holds(fields, "use_languages"@, LeafView::Flag(config.use_languages))
            &&& holds(fields, "num_languages"@, LeafView::Whole(config.num_languages as int))
        }),
{
    let fields = config_fields(config);
    assert(fields[0] == ("name"@, optional_text(config.name@)));
    assert(fields[1] == ("version"@, optional_text(config.version@)));
    assert(fields[2] == ("mode"@, LeafView::Text(config.mode@)));
    assert(fields[3] == ("embedding_dim"@, LeafView::Whole(config.embedding_dim as int)));
    assert(fields[4] == ("input_dim"@, LeafView::Whole(config.in_dim as int)));
    assert(fields[5] == ("estimator_out_dim"@, LeafView::Whole(config.estimator_out_dim as int)));
    assert(fields[6] == ("region_cycle_len"@, LeafView::Whole(config.region_cycle_len as int)));
    assert(fields[7] == ("use_languages"@, LeafView::Flag(config.use_languages)));
    assert(fields[8] == ("num_languages"@, LeafView::Whole(config.num_languages as int)));
}

/// Everything that is known of inference is told, under a key of its own, and nothing else.
pub proof fn law_inference_is_described(inference: InferenceConfig)
    ensures
        ({
            let fields = inference_fields(inference);
            &&& fields.len() == 14
            &&& holds(
                fields,
                "audio_sample_rate"@,
                LeafView::Whole(inference.audio_sample_rate as int),
            )
            &&& holds(fields, "hop_size"@, LeafView::Whole(inference.hop_size as int))
            &&& holds(fields, "timestep_seconds"@, LeafView::Fraction(Real::Timestep))
            &&& holds(fields, "fft_size"@, LeafView::Whole(inference.fft_size as int))
            &&& holds(fields, "win_size"@, LeafView::Whole(inference.win_size as int))
            &&& holds(fields, "spectrogram_type"@, LeafView::Text(inference.spectrogram_type@))
            &&& holds(fields, "n_mels"@, LeafView::Whole(inference.n_mels as int))
            &&& holds(fields, "fmin"@, LeafView::Fraction(Real::Fmin))
            &&& holds(fields, "fmax"@, LeafView::Fraction(Real::Fmax))
            &&& holds(fields, "midi_min"@, LeafView::Fraction(Real::MidiMin))
            &&& holds(fields, "midi_max"@, LeafView::Fraction(Real::MidiMax))
            &&& holds(fields, "midi_num_bins"@, LeafView::Whole(inference.midi_num_bins as int))
            &&& holds(fields, "midi_std"@, LeafView::Fraction(Real::MidiStd))
            &&& holds(fields, "lang_map"@, LeafView::Numbered(numbered_view(inference.lang_map@)))
        }),
{
    let fields = inference_fields(inference);
    assert(fields[0] == (
        "audio_sample_rate"@,
        LeafView::Whole(inference.audio_sample_rate as int),
    ));
    assert(fields[1] == ("hop_size"@, LeafView::Whole(inference.hop_size as int)));
    assert(fields[2] == ("timestep_seconds"@, LeafView::Fraction(Real::Timestep)));
    assert(fields[3] == ("fft_size"@, LeafView::Whole(inference.fft_size as int)));
    assert(fields[4] == ("win_size"@, LeafView::Whole(inference.win_size as int)));
    assert(fields[5] == ("spectrogram_type"@, LeafView::Text(inference.spectrogram_type@)));
    assert(fields[6] == ("n_mels"@, LeafView::Whole(inference.n_mels as int)));
    assert(fields[7] == ("fmin"@, LeafView::Fraction(Real::Fmin)));
    assert(fields[8] == ("fmax"@, LeafView::Fraction(Real::Fmax)));
    assert(fields[9] == ("midi_min"@, LeafView::Fraction(Real::MidiMin)));
    assert(fields[10] == ("midi_max"@, LeafView::Fraction(Real::MidiMax)));
    assert(fields[11] == ("midi_num_bins"@, LeafView::Whole(inference.midi_num_bins as int)));
    assert(fields[12] == ("midi_std"@, LeafView::Fraction(Real::MidiStd)));
    assert(fields[13] == ("lang_map"@, LeafView::Numbered(numbered_view(inference.lang_map@))));
}

/// Everything that is known of one of the networks is told, under a key of its own, and nothing else.
pub proof fn law_network_is_described(backbone: BackboneConfig, theta: Real)
    ensures
        ({
            let fields = backbone_fields(backbone, theta);
            &&& fields.len() == 28
            &&& holds(
                fields,
                "cls"@,
                if backbone.cls@.len() == 0 {
                    LeafView::Null
                } else {
                    LeafView::Text(backbone.cls@)
                },
            )
            &&& holds(fields, "dim"@, LeafView::Whole(backbone.dim as int))
            &&& holds(fields, "num_layers"@, LeafView::Whole(backbone.num_layers as int))
            &&& holds(fields, "num_heads"@, LeafView::Whole(backbone.num_heads as int))
            &&& holds(fields, "head_dim"@, LeafView::Whole(backbone.head_dim as int))
            &&& holds(fields, "c_kernel_size"@, LeafView::Whole(backbone.c_kernel_size as int))
            &&& holds(fields, "m_kernel_size"@, LeafView::Whole(backbone.m_kernel_size as int))
            &&& holds(fields, "ffn_type"@, LeafView::Text(backbone.ffn_type@))
            &&& holds(fields, "use_ls"@, LeafView::Flag(backbone.use_ls))
            &&& holds(fields, "use_out_norm"@, LeafView::Flag(backbone.use_out_norm))
            &&& holds(fields, "skip_first_ffn"@, LeafView::Flag(backbone.skip_first_ffn))
            &&& holds(fields, "skip_out_ffn"@, LeafView::Flag(backbone.skip_out_ffn))
            &&& holds(fields, "return_latent"@, LeafView::Flag(backbone.return_latent))
            &&& holds(
                fields,
                "latent_layer_idx"@,
                LeafView::Whole(backbone.latent_layer_idx as int),
            )
            &&& holds(fields, "latent_out_dim"@, LeafView::Whole(backbone.latent_out_dim as int))
            &&& holds(
                fields,
                "region_token_num"@,
                LeafView::Whole(backbone.region_token_num as int),
            )
            &&& holds(fields, "pool_merge_mode"@, LeafView::Text(backbone.pool_merge_mode@))
            &&& holds(fields, "attn_type"@, LeafView::Text(backbone.attn_type@))
            &&& holds(fields, "rope_mode"@, LeafView::Text(backbone.rope_mode@))
            &&& holds(fields, "qk_norm"@, LeafView::Flag(backbone.qk_norm))
            &&& holds(fields, "use_region_bias"@, LeafView::Flag(backbone.use_region_bias))
            &&& holds(
                fields,
                "c_kernel_size_pool"@,
                LeafView::Whole(backbone.c_kernel_size_pool as int),
            )
            &&& holds(
                fields,
                "m_kernel_size_pool"@,
                LeafView::Whole(backbone.m_kernel_size_pool as int),
            )
            &&& holds(fields, "c_kernel_size_x"@, LeafView::Whole(backbone.c_kernel_size_x as int))
            &&& holds(fields, "m_kernel_size_x"@, LeafView::Whole(backbone.m_kernel_size_x as int))
            &&& holds(fields, "use_rope"@, LeafView::Flag(backbone.use_rope))
            &&& holds(fields, "use_pool_offset"@, LeafView::Flag(backbone.use_pool_offset))
            &&& holds(fields, "theta"@, LeafView::Fraction(theta))
        }),
{
    let fields = backbone_fields(backbone, theta);
    assert(fields[0] == ("cls"@, optional_text(backbone.cls@)));
    assert(fields[1] == ("dim"@, LeafView::Whole(backbone.dim as int)));
    assert(fields[2] == ("num_layers"@, LeafView::Whole(backbone.num_layers as int)));
    assert(fields[3] == ("num_heads"@, LeafView::Whole(backbone.num_heads as int)));
    assert(fields[4] == ("head_dim"@, LeafView::Whole(backbone.head_dim as int)));
    assert(fields[5] == ("c_kernel_size"@, LeafView::Whole(backbone.c_kernel_size as int)));
    assert(fields[6] == ("m_kernel_size"@, LeafView::Whole(backbone.m_kernel_size as int)));
    assert(fields[7] == ("ffn_type"@, LeafView::Text(backbone.ffn_type@)));
    assert(fields[8] == ("use_ls"@, LeafView::Flag(backbone.use_ls)));
    assert(fields[9] == ("use_out_norm"@, LeafView::Flag(backbone.use_out_norm)));
    assert(fields[10] == ("skip_first_ffn"@, LeafView::Flag(backbone.skip_first_ffn)));
    assert(fields[11] == ("skip_out_ffn"@, LeafView::Flag(backbone.skip_out_ffn)));
    assert(fields[12] == ("return_latent"@, LeafView::Flag(backbone.return_latent)));
    assert(fields[13] == ("latent_layer_idx"@, LeafView::Whole(backbone.latent_layer_idx as int)));
    assert(fields[14] == ("latent_out_dim"@, LeafView::Whole(backbone.latent_out_dim as int)));
    assert(fields[15] == ("region_token_num"@, LeafView::Whole(backbone.region_token_num as int)));
    assert(fields[16] == ("pool_merge_mode"@, LeafView::Text(backbone.pool_merge_mode@)));
    assert(fields[17] == ("attn_type"@, LeafView::Text(backbone.attn_type@)));
    assert(fields[18] == ("rope_mode"@, LeafView::Text(backbone.rope_mode@)));
    assert(fields[19] == ("qk_norm"@, LeafView::Flag(backbone.qk_norm)));
    assert(fields[20] == ("use_region_bias"@, LeafView::Flag(backbone.use_region_bias)));
    assert(fields[21] == (
        "c_kernel_size_pool"@,
        LeafView::Whole(backbone.c_kernel_size_pool as int),
    ));
    assert(fields[22] == (
        "m_kernel_size_pool"@,
        LeafView::Whole(backbone.m_kernel_size_pool as int),
    ));
    assert(fields[23] == ("c_kernel_size_x"@, LeafView::Whole(backbone.c_kernel_size_x as int)));
    assert(fields[24] == ("m_kernel_size_x"@, LeafView::Whole(backbone.m_kernel_size_x as int)));
    assert(fields[25] == ("use_rope"@, LeafView::Flag(backbone.use_rope)));
    assert(fields[26] == ("use_pool_offset"@, LeafView::Flag(backbone.use_pool_offset)));
    assert(fields[27] == ("theta"@, LeafView::Fraction(theta)));
}

/// Everything that is known of a tensor is told, under a key of its own, and nothing else.
pub proof fn law_tensor_is_described(tensor: LoadedTensor)
    ensures
        ({
            let fields = tensor_fields(tensor);
            &&& fields.len() == 6
            &&& holds(fields, "name"@, LeafView::Text(tensor.name@))
            &&& holds(fields, "shape"@, LeafView::Sizes(tensor.shape@))
            &&& holds(fields, "tensor_type"@, LeafView::Text(tensor.tensor_type@))
            &&& holds(fields, "num_elements"@, LeafView::Whole(tensor.num_elements as int))
            &&& holds(fields, "byte_count"@, LeafView::Whole(tensor.byte_len as int))
            &&& holds(
                fields,
                "byte_count_human"@,
                LeafView::Text(bytes_text(tensor.byte_len as u64)),
            )
        }),
{
    let fields = tensor_fields(tensor);
    assert(fields[0] == ("name"@, LeafView::Text(tensor.name@)));
    assert(fields[1] == ("shape"@, LeafView::Sizes(tensor.shape@)));
    assert(fields[2] == ("tensor_type"@, LeafView::Text(tensor.tensor_type@)));
    assert(fields[3] == ("num_elements"@, LeafView::Whole(tensor.num_elements as int)));
    assert(fields[4] == ("byte_count"@, LeafView::Whole(tensor.byte_len as int)));
    assert(fields[5] == ("byte_count_human"@, LeafView::Text(bytes_text(tensor.byte_len as u64))));
}

/// Everything that is known of the tensors under a prefix is told, under a key of its own, and nothing else.
pub proof fn law_prefix_is_described(stats: PrefixStats)
    ensures
        ({
            let fields = prefix_fields(stats);
            &&& fields.len() == 4
            &&& holds(fields, "tensor_count"@, LeafView::Whole(stats.tensor_count as int))
            &&& holds(fields, "parameter_count"@, LeafView::Whole(stats.parameter_count as int))
            &&& holds(fields, "byte_count"@, LeafView::Whole(stats.byte_count as int))
            &&& holds(fields, "byte_count_human"@, LeafView::Text(bytes_text(stats.byte_count)))
        }),
{
    let fields = prefix_fields(stats);
    assert(fields[0] == ("tensor_count"@, LeafView::Whole(stats.tensor_count as int)));
    assert(fields[1] == ("parameter_count"@, LeafView::Whole(stats.parameter_count as int)));
    assert(fields[2] == ("byte_count"@, LeafView::Whole(stats.byte_count as int)));
    assert(fields[3] == ("byte_count_human"@, LeafView::Text(bytes_text(stats.byte_count))));
}

} // verus!
