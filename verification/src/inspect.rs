//! The description of a model file: statistics over its tensors, and the report
//! with its sections.
use vstd::prelude::*;
use vstd::string::*;

use crate::slices::{copy_range, lemma_insert_multiset};
use crate::text::{
    before_char, byte_count, byte_len, char_or_end, chars_of, lemma_text_order, same_text,
    scan_to, stands_at, starts_with, string_of, text_before, text_less, views,
};

verus! {

/// A tensor of a model file.
#[derive(Debug, Clone)]
pub struct LoadedTensor {
    pub name: String,
    pub shape: Vec<usize>,
    pub tensor_type: String,
    pub num_elements: usize,
    pub byte_len: usize,
}

/// One of the networks of a model. Numbers with a fraction are given as text.
#[derive(Debug, Clone)]
pub struct BackboneConfig {
    pub cls: String,
    pub dim: i32,
    pub num_layers: i32,
    pub num_heads: i32,
    pub head_dim: i32,
    pub c_kernel_size: i32,
    pub m_kernel_size: i32,
    pub ffn_type: String,
    pub use_ls: bool,
    pub use_out_norm: bool,
    pub skip_first_ffn: bool,
    pub skip_out_ffn: bool,
    pub return_latent: bool,
    pub latent_layer_idx: i32,
    pub latent_out_dim: i32,
    pub region_token_num: i32,
    pub pool_merge_mode: String,
    pub attn_type: String,
    pub rope_mode: String,
    pub qk_norm: bool,
    pub use_region_bias: bool,
    pub c_kernel_size_pool: i32,
    pub m_kernel_size_pool: i32,
    pub c_kernel_size_x: i32,
    pub m_kernel_size_x: i32,
    pub use_rope: bool,
    pub use_pool_offset: bool,
    pub theta: String,
}

/// What a model expects of its input. Numbers with a fraction are given as text.
#[derive(Debug, Clone)]
pub struct InferenceConfig {
    pub audio_sample_rate: i32,
    pub hop_size: i32,
    /// Seconds from one frame to the next, with six decimals.
    pub timestep: String,
    pub fft_size: i32,
    pub win_size: i32,
    pub spectrogram_type: String,
    pub n_mels: i32,
    pub fmin: String,
    pub fmax: String,
    pub midi_min: String,
    pub midi_max: String,
    pub midi_num_bins: i32,
    pub midi_std: String,
    pub lang_map: Vec<(String, i32)>,
}

#[derive(Debug, Clone)]
pub struct GameModelConfig {
    pub architecture: String,
    pub name: String,
    pub version: String,
    pub mode: String,
    pub embedding_dim: i32,
    pub in_dim: i32,
    pub estimator_out_dim: i32,
    pub region_cycle_len: i32,
    pub use_languages: bool,
    pub num_languages: i32,
    pub encoder: BackboneConfig,
    pub segmenter: BackboneConfig,
    pub estimator: BackboneConfig,
    pub inference: InferenceConfig,
}

/// A model file; its tensors are in the order of their names.
#[derive(Debug, Clone)]
pub struct LoadedGgufModel {
    pub path: String,
    pub gguf_version: String,
    pub quantization_version: Option<u32>,
    pub metadata_count: usize,
    pub config: GameModelConfig,
    pub tensors: Vec<LoadedTensor>,
}

// ---------------------------------------------------------------------------
// Statistics
// ---------------------------------------------------------------------------
/// How much a set of tensors holds.
#[derive(Debug, Clone, Copy, PartialEq, Eq, Structural)]
pub struct PrefixStats {
    pub tensor_count: usize,
    pub parameter_count: u64,
    pub byte_count: u64,
}

/// A tensor belongs to a prefix that is its name, or its name up to a dot.
pub open spec fn has_prefix(name: Seq<char>, prefix: Seq<char>) -> bool {
    name == prefix || (starts_with(name, prefix) && name.len() > prefix.len() && name[prefix.len() as int]
        == '.')
}

/// Whether a tensor belongs to a prefix.
pub fn matches_tensor_prefix(name: &str, prefix: &str) -> (r: bool)
    ensures
        r == has_prefix(name@, prefix@),
{
    if same_text(name, prefix) {
        return true;
    }
    let n = chars_of(name);
    let p = chars_of(prefix);
    stands_at(&n, &p, 0) && n.len() > p.len() && n[p.len()] == '.'
}

pub open spec fn is_kept(tensor: LoadedTensor, prefix: Option<Seq<char>>) -> bool {
    match prefix {
        Some(p) => has_prefix(tensor.name@, p),
        None => true,
    }
}

/// The numbers below `n` that are to be kept, in ascending order.
pub open spec fn chosen(keep: spec_fn(int) -> bool, n: int) -> Seq<usize>
    decreases n,
{
    if n <= 0 {
        Seq::empty()
    } else if keep(n - 1) {
        chosen(keep, n - 1).push((n - 1) as usize)
    } else {
        chosen(keep, n - 1)
    }
}

/// The places, among the first `n` tensors, of those that belong to the prefix.
pub open spec fn kept(tensors: Seq<LoadedTensor>, prefix: Option<Seq<char>>, n: int) -> Seq<usize> {
    chosen(|i: int| is_kept(tensors[i], prefix), n)
}

pub open spec fn prefix_view(prefix: Option<&str>) -> Option<Seq<char>> {
    match prefix {
        Some(p) => Some(p@),
        None => None,
    }
}

pub open spec fn all_within(places: Seq<usize>, len: int) -> bool {
    forall|i: int| 0 <= i < places.len() ==> (#[trigger] places[i] as int) < len
}

/// Picks the tensors that belong to a prefix.
pub fn filtered_tensors(tensors: &Vec<LoadedTensor>, prefix: Option<&str>) -> (places: Vec<usize>)
    ensures
        places@ == kept(tensors@, prefix_view(prefix), tensors.len() as int),
        all_within(places@, tensors.len() as int),
{
    let mut places: Vec<usize> = Vec::new();
    let mut n: usize = 0;
    while n < tensors.len()
        invariant
            n <= tensors.len(),
            places@ == kept(tensors@, prefix_view(prefix), n as int),
            all_within(places@, n as int),
        decreases tensors.len() - n,
    {
        let keep = match prefix {
            Some(p) => matches_tensor_prefix(&tensors[n].name, p),
            None => true,
        };
        if keep {
            places.push(n);
        }
        n += 1;
    }
    places
}

/// The number of parameters of the first `n` of the tensors at the places.
pub open spec fn parameters(tensors: Seq<LoadedTensor>, places: Seq<usize>, n: int) -> int
    decreases n,
{
    if n <= 0 {
        0
    } else {
        parameters(tensors, places, n - 1) + tensors[places[n - 1] as int].num_elements
    }
}

/// The number of bytes of the first `n` of the tensors at the places.
pub open spec fn stored_bytes(tensors: Seq<LoadedTensor>, places: Seq<usize>, n: int) -> int
    decreases n,
{
    if n <= 0 {
        0
    } else {
        stored_bytes(tensors, places, n - 1) + tensors[places[n - 1] as int].byte_len
    }
}

/// The sums over the tensors at the places fit in 64 bits.
pub open spec fn sums_fit(tensors: Seq<LoadedTensor>, places: Seq<usize>) -> bool {
    parameters(tensors, places, places.len() as int) <= u64::MAX && stored_bytes(
        tensors,
        places,
        places.len() as int,
    ) <= u64::MAX
}

pub open spec fn stats_of(tensors: Seq<LoadedTensor>, places: Seq<usize>) -> PrefixStats {
    PrefixStats {
        tensor_count: places.len() as usize,
        parameter_count: parameters(tensors, places, places.len() as int) as u64,
        byte_count: stored_bytes(tensors, places, places.len() as int) as u64,
    }
}

proof fn lemma_sums_grow(tensors: Seq<LoadedTensor>, places: Seq<usize>, n: int, m: int)
    requires
        0 <= n <= m,
    ensures
        0 <= parameters(tensors, places, n) <= parameters(tensors, places, m),
        0 <= stored_bytes(tensors, places, n) <= stored_bytes(tensors, places, m),
    decreases m,
{
    if n < m {
        lemma_sums_grow(tensors, places, n, m - 1);
    } else if n > 0 {
        lemma_sums_grow(tensors, places, n - 1, m - 1);
    }
}

proof fn lemma_sums_push(tensors: Seq<LoadedTensor>, places: Seq<usize>, x: usize, n: int)
    requires
        n <= places.len(),
    ensures
        parameters(tensors, places.push(x), n) == parameters(tensors, places, n),
        stored_bytes(tensors, places.push(x), n) == stored_bytes(tensors, places, n),
    decreases n,
{
    if n > 0 {
        lemma_sums_push(tensors, places, x, n - 1);
    }
}

/// All places below `n`.
pub open spec fn all_places(n: int) -> Seq<usize> {
    chosen(|i: int| true, n)
}

proof fn lemma_chosen(tensors: Seq<LoadedTensor>, keep: spec_fn(int) -> bool, n: int)
    requires
        0 <= n <= usize::MAX,
    ensures
        all_within(chosen(keep, n), n),
        chosen(keep, n).len() <= n,
        parameters(tensors, chosen(keep, n), chosen(keep, n).len() as int) <= parameters(
            tensors,
            all_places(n),
            all_places(n).len() as int,
        ),
        stored_bytes(tensors, chosen(keep, n), chosen(keep, n).len() as int) <= stored_bytes(
            tensors,
            all_places(n),
            all_places(n).len() as int,
        ),
    decreases n,
{
    if n > 0 {
        lemma_chosen(tensors, keep, n - 1);
        let fewer = chosen(keep, n - 1);
        let all = all_places(n - 1);
        lemma_sums_push(tensors, fewer, (n - 1) as usize, fewer.len() as int);
        lemma_sums_push(tensors, all, (n - 1) as usize, all.len() as int);
        assert(all_places(n) =~= all.push((n - 1) as usize));
    }
}

pub(crate) proof fn lemma_all_kept(tensors: Seq<LoadedTensor>, n: int)
    requires
        0 <= n,
    ensures
        kept(tensors, None, n) == all_places(n),
    decreases n,
{
    if n > 0 {
        lemma_all_kept(tensors, n - 1);
    }
}

pub(crate) proof fn lemma_kept(tensors: Seq<LoadedTensor>, prefix: Option<Seq<char>>)
    requires
        tensors.len() <= usize::MAX,
        sums_fit(tensors, all_places(tensors.len() as int)),
    ensures
        sums_fit(tensors, kept(tensors, prefix, tensors.len() as int)),
        distinct(kept(tensors, prefix, tensors.len() as int)),
{
    let keep = |i: int| is_kept(tensors[i], prefix);
    lemma_chosen(tensors, keep, tensors.len() as int);
    lemma_chosen_distinct(tensors, keep, tensors.len() as int);
}

proof fn lemma_chosen_distinct(tensors: Seq<LoadedTensor>, keep: spec_fn(int) -> bool, n: int)
    requires
        0 <= n <= usize::MAX,
    ensures
        distinct(chosen(keep, n)),
    decreases n,
{
    if n > 0 {
        lemma_chosen(tensors, keep, n - 1);
        lemma_chosen_distinct(tensors, keep, n - 1);
    }
}

/// Adds up the tensors at the places.
pub fn tensor_stats(tensors: &Vec<LoadedTensor>, places: &Vec<usize>) -> (stats: PrefixStats)
    requires
        all_within(places@, tensors.len() as int),
        sums_fit(tensors@, places@),
    ensures
        stats == stats_of(tensors@, places@),
{
    let mut parameter_count: u64 = 0;
    let mut byte_count: u64 = 0;
    let mut n: usize = 0;
    while n < places.len()
        invariant
            n <= places.len(),
            all_within(places@, tensors.len() as int),
            sums_fit(tensors@, places@),
            parameter_count == parameters(tensors@, places@, n as int),
            byte_count == stored_bytes(tensors@, places@, n as int),
        decreases places.len() - n,
    {
        proof {
            lemma_sums_grow(tensors@, places@, n + 1, places.len() as int);
        }
        let tensor = &tensors[places[n]];
        parameter_count = parameter_count + tensor.num_elements as u64;
        byte_count = byte_count + tensor.byte_len as u64;
        n += 1;
    }
    PrefixStats { tensor_count: places.len(), parameter_count, byte_count }
}

// ---------------------------------------------------------------------------
// Groups
// ---------------------------------------------------------------------------
/// The names are in the order of dictionaries, none twice.
pub open spec fn ordered(names: Seq<Seq<char>>) -> bool {
    forall|i: int, j: int|
        0 <= i < j < names.len() ==> text_before(#[trigger] names[i], #[trigger] names[j])
}

/// `names` are the different keys among the first `n`, in order.
pub open spec fn are_keys(names: Seq<Seq<char>>, keys: Seq<Seq<char>>, n: int) -> bool {
    &&& ordered(names)
    &&& forall|i: int|
        0 <= i < names.len() ==> keys.take(n).contains(#[trigger] names[i])
    &&& forall|j: int| 0 <= j < n ==> names.contains(#[trigger] keys[j])
}

fn different_keys(keys: &Vec<String>) -> (names: Vec<String>)
    ensures
        are_keys(views(names@), views(keys@), keys.len() as int),
{
    let mut names: Vec<String> = Vec::new();
    let ghost texts = views(keys@);
    let mut n: usize = 0;
    while n < keys.len()
        invariant
            n <= keys.len(),
            texts == views(keys@),
            are_keys(views(names@), texts, n as int),
        decreases keys.len() - n,
    {
        let key: &String = &keys[n];
        let ghost before = views(names@);
        let mut k: usize = 0;
        while k < names.len() && text_less(&names[k], key)
            invariant
                k <= names.len(),
                before == views(names@),
                forall|i: int| 0 <= i < k ==> text_before(#[trigger] before[i], key@),
            decreases names.len() - k,
        {
            assert(before[k as int] == names@[k as int]@);
            k += 1;
        }
        proof {
            assert forall|i: int| 0 <= i < before.len() implies texts.take(n + 1).contains(
                #[trigger] before[i],
            ) by {
                let j = choose|j: int| 0 <= j < n && texts.take(n as int)[j] == before[i];
                assert(texts.take(n as int).contains(before[i]));
                assert(texts.take(n + 1)[j] == before[i]);
            }
            assert(texts.take(n + 1)[n as int] == key@);
        }
        if k < names.len() && same_text(&names[k], key) {
            proof {
                assert(before[k as int] == key@);
                assert(before.contains(key@));
                assert(are_keys(before, texts, n + 1));
            }
        } else {
            names.insert(k, String::from_str(key));
            proof {
                let after = views(names@);
                assert(after =~= before.insert(k as int, key@));
                assert forall|i: int, j: int| 0 <= i < j < after.len() implies text_before(
                    #[trigger] after[i],
                    #[trigger] after[j],
                ) by {
                    if k < before.len() {
                        lemma_text_order(key@, before[k as int], before[k as int]);
                    }
                    if i == k && k < j - 1 {
                        lemma_text_order(key@, before[k as int], before[j - 1]);
                        assert(text_before(before[k as int], before[j - 1]));
                    }
                    if i < k {
                        assert(after[i] == before[i]);
                    }
                    if j > k {
                        assert(after[j] == before[j - 1]);
                    } else if j < k {
                        assert(after[j] == before[j]);
                    }
                    if i > k {
                        assert(after[i] == before[i - 1]);
                    }
                }
                assert forall|i: int| 0 <= i < after.len() implies texts.take(n + 1).contains(
                    #[trigger] after[i],
                ) by {
                    if i < k {
                        assert(after[i] == before[i]);
                    } else if i > k {
                        assert(after[i] == before[i - 1]);
                    }
                }
                assert forall|j: int| 0 <= j < n + 1 implies after.contains(
                    #[trigger] texts[j],
                ) by {
                    if j < n {
                        assert(before.contains(texts[j]));
                        let i = choose|i: int| 0 <= i < before.len() && before[i] == texts[j];
                        if i < k {
                            assert(after[i] == texts[j]);
                        } else {
                            assert(after[i + 1] == texts[j]);
                        }
                    } else {
                        assert(after[k as int] == texts[j]);
                    }
                }
            }
        }
        n += 1;
    }
    names
}

/// Whether the tensor at a place has this key.
pub open spec fn has_key(keys: Seq<Seq<char>>, key: Seq<char>) -> spec_fn(int) -> bool {
    |i: int| keys[i] == key
}

/// The places of the tensors with a key.
pub open spec fn places_of(keys: Seq<Seq<char>>, key: Seq<char>) -> Seq<usize> {
    chosen(has_key(keys, key), keys.len() as int)
}

fn find_places(keys: &Vec<String>, key: &str) -> (places: Vec<usize>)
    ensures
        places@ == places_of(views(keys@), key@),
{
    let mut places: Vec<usize> = Vec::new();
    let ghost texts = views(keys@);
    let ghost keep = has_key(texts, key@);
    let mut n: usize = 0;
    while n < keys.len()
        invariant
            n <= keys.len(),
            texts == views(keys@),
            keep == has_key(texts, key@),
            places@ == chosen(keep, n as int),
        decreases keys.len() - n,
    {
        assert(texts[n as int] == keys@[n as int]@);
        if same_text(&keys[n], key) {
            places.push(n);
        }
        n += 1;
    }
    places
}

/// Tensors with the same key, and how much they hold.
#[derive(Debug, Clone)]
pub struct TensorGroup {
    pub key: String,
    pub stats: PrefixStats,
}

pub open spec fn group_keys(groups: Seq<TensorGroup>) -> Seq<Seq<char>> {
    groups.map_values(|g: TensorGroup| g.key@)
}

/// `groups` are the groups of the tensors by key, in the order of the keys.
pub open spec fn are_groups(
    groups: Seq<TensorGroup>,
    tensors: Seq<LoadedTensor>,
    keys: Seq<Seq<char>>,
) -> bool {
    &&& are_keys(group_keys(groups), keys, keys.len() as int)
    &&& forall|i: int|
        0 <= i < groups.len() ==> (#[trigger] groups[i]).stats == stats_of(
            tensors,
            places_of(keys, groups[i].key@),
        )
}

fn group_tensors(tensors: &Vec<LoadedTensor>, keys: &Vec<String>) -> (groups: Vec<TensorGroup>)
    requires
        keys.len() == tensors.len(),
        sums_fit(tensors@, all_places(tensors.len() as int)),
    ensures
        are_groups(groups@, tensors@, views(keys@)),
{
    let names = different_keys(keys);
    let ghost texts = views(keys@);
    let mut groups: Vec<TensorGroup> = Vec::new();
    let mut n: usize = 0;
    assert(group_keys(groups@) =~= views(names@).take(0));
    while n < names.len()
        invariant
            n <= names.len(),
            keys.len() == tensors.len(),
            texts == views(keys@),
            sums_fit(tensors@, all_places(tensors.len() as int)),
            group_keys(groups@) == views(names@).take(n as int),
            groups.len() == n,
            forall|i: int|
                0 <= i < n ==> (#[trigger] groups@[i]).stats == stats_of(
                    tensors@,
                    places_of(texts, groups@[i].key@),
                ),
        decreases names.len() - n,
    {
        let ghost before = groups@;
        let places = find_places(keys, &names[n]);
        proof {
            lemma_chosen(
                tensors@,
                has_key(texts, names@[n as int]@),
                tensors.len() as int,
            );
        }
        let stats = tensor_stats(tensors, &places);
        groups.push(TensorGroup { key: String::from_str(&names[n]), stats });
        proof {
            assert(group_keys(groups@) =~= group_keys(before).push(names@[n as int]@));
            assert(views(names@).take(n + 1) =~= views(names@).take(n as int).push(
                names@[n as int]@,
            ));
        }
        n += 1;
    }
    assert(views(names@).take(n as int) =~= views(names@));
    groups
}

pub open spec fn type_keys(tensors: Seq<LoadedTensor>) -> Seq<Seq<char>> {
    tensors.map_values(|t: LoadedTensor| t.tensor_type@)
}

/// The part of the name of each tensor before its first dot.
pub open spec fn prefix_keys(tensors: Seq<LoadedTensor>) -> Seq<Seq<char>> {
    tensors.map_values(|t: LoadedTensor| before_char(t.name@, '.'))
}

/// Groups the tensors by their type.
pub fn tensor_type_counts(tensors: &Vec<LoadedTensor>) -> (groups: Vec<TensorGroup>)
    requires
        sums_fit(tensors@, all_places(tensors.len() as int)),
    ensures
        are_groups(groups@, tensors@, type_keys(tensors@)),
{
    let mut keys: Vec<String> = Vec::new();
    let mut n: usize = 0;
    while n < tensors.len()
        invariant
            n <= tensors.len(),
            keys.len() == n,
            forall|i: int|
                0 <= i < n ==> (#[trigger] keys@[i])@ == tensors@[i].tensor_type@,
        decreases tensors.len() - n,
    {
        keys.push(String::from_str(&tensors[n].tensor_type));
        n += 1;
    }
    assert(views(keys@) =~= type_keys(tensors@));
    group_tensors(tensors, &keys)
}

/// Groups the tensors by the first part of their names.
pub fn tensor_prefix_stats(tensors: &Vec<LoadedTensor>) -> (groups: Vec<TensorGroup>)
    requires
        sums_fit(tensors@, all_places(tensors.len() as int)),
    ensures
        are_groups(groups@, tensors@, prefix_keys(tensors@)),
{
    let mut keys: Vec<String> = Vec::new();
    let mut n: usize = 0;
    while n < tensors.len()
        invariant
            n <= tensors.len(),
            keys.len() == n,
            forall|i: int|
                0 <= i < n ==> (#[trigger] keys@[i])@ == before_char(tensors@[i].name@, '.'),
        decreases tensors.len() - n,
    {
        let chars = chars_of(&tensors[n].name);
        let end: usize = scan_to(&chars, '.', 0);
        let key = string_of(&chars, 0, end);
        assert(key@ =~= before_char(chars@, '.'));
        keys.push(key);
        n += 1;
    }
    assert(views(keys@) =~= prefix_keys(tensors@));
    group_tensors(tensors, &keys)
}

// ---------------------------------------------------------------------------
// The largest tensors
// ---------------------------------------------------------------------------
/// The tensor at `i` is listed before the one at `j`: it has more elements, or as
/// many and a name that comes first.
pub open spec fn listed_before(tensors: Seq<LoadedTensor>, i: usize, j: usize) -> bool {
    let a = tensors[i as int];
    let b = tensors[j as int];
    a.num_elements > b.num_elements || (a.num_elements == b.num_elements && (text_before(
        a.name@,
        b.name@,
    ) || (a.name@ == b.name@ && i < j)))
}

pub open spec fn by_size(tensors: Seq<LoadedTensor>, places: Seq<usize>) -> bool {
    forall|i: int, j: int|
        0 <= i < j < places.len() ==> listed_before(tensors, places[i], places[j])
}

/// `list` has the first `limit` of the tensors at the places, the largest first.
pub open spec fn are_largest(
    tensors: Seq<LoadedTensor>,
    places: Seq<usize>,
    limit: int,
    list: Seq<usize>,
) -> bool {
    exists|sorted: Seq<usize>| #[trigger]
        by_size(tensors, sorted) && sorted.to_multiset() == places.to_multiset() && list
            == sorted.take(
            if limit < sorted.len() {
                limit
            } else {
                sorted.len() as int
            },
        )
}

fn is_listed_before(tensors: &Vec<LoadedTensor>, i: usize, j: usize) -> (r: bool)
    requires
        i < tensors.len(),
        j < tensors.len(),
    ensures
        r == listed_before(tensors@, i, j),
{
    let a = &tensors[i];
    let b = &tensors[j];
    a.num_elements > b.num_elements || (a.num_elements == b.num_elements && (text_less(
        &a.name,
        &b.name,
    ) || (same_text(&a.name, &b.name) && i < j)))
}

proof fn lemma_listed_order(tensors: Seq<LoadedTensor>, i: usize, j: usize, k: usize)
    ensures
        i != j ==> listed_before(tensors, i, j) || listed_before(tensors, j, i),
        listed_before(tensors, i, j) && listed_before(tensors, j, k) ==> listed_before(
            tensors,
            i,
            k,
        ),
{
    let (a, b, c) = (tensors[i as int].name@, tensors[j as int].name@, tensors[k as int].name@);
    lemma_text_order(a, b, c);
}

/// Different places.
pub open spec fn distinct(places: Seq<usize>) -> bool {
    forall|i: int, j: int| 0 <= i < j < places.len() ==> places[i] != places[j]
}

/// Lists the tensors at the places, the largest first, up to a limit.
pub fn largest_tensors(tensors: &Vec<LoadedTensor>, places: &Vec<usize>, limit: usize) -> (list:
    Vec<usize>)
    requires
        all_within(places@, tensors.len() as int),
        distinct(places@),
    ensures
        are_largest(tensors@, places@, limit as int, list@),
        all_within(list@, tensors.len() as int),
{
    let mut sorted: Vec<usize> = Vec::new();
    let mut n: usize = 0;
    proof {
        assert(places@.take(0) =~= Seq::<usize>::empty());
        assert(sorted@ =~= places@.take(0));
    }
    while n < places.len()
        invariant
            n <= places.len(),
            all_within(places@, tensors.len() as int),
            distinct(places@),
            all_within(sorted@, tensors.len() as int),
            sorted.len() == n,
            by_size(tensors@, sorted@),
            sorted@.to_multiset() == places@.take(n as int).to_multiset(),
        decreases places.len() - n,
    {
        let x: usize = places[n];
        let ghost before = sorted@;
        let mut k: usize = 0;
        while k < sorted.len() && is_listed_before(tensors, sorted[k], x)
            invariant
                k <= sorted.len(),
                before == sorted@,
                x < tensors.len(),
                all_within(sorted@, tensors.len() as int),
                forall|i: int| 0 <= i < k ==> listed_before(tensors@, #[trigger] before[i], x),
            decreases sorted.len() - k,
        {
            k += 1;
        }
        sorted.insert(k, x);
        proof {
            let after = sorted@;
            assert(after =~= before.insert(k as int, x));
            assert(forall|i: int| 0 <= i < before.len() ==> before[i] != x) by {
                before.to_multiset_ensures();
                places@.take(n as int).to_multiset_ensures();
                if before.contains(x) {
                    assert(before.to_multiset().count(x) > 0);
                    assert(places@.take(n as int).to_multiset().count(x) > 0);
                    assert(places@.take(n as int).contains(x));
                    let j = choose|j: int| 0 <= j < n && places@.take(n as int)[j] == x;
                    assert(places@[j] == x && places@[n as int] == x);
                }
            }
            assert forall|i: int, j: int| 0 <= i < j < after.len() implies listed_before(
                tensors@,
                after[i],
                after[j],
            ) by {
                if k < before.len() {
                    lemma_listed_order(tensors@, x, before[k as int], before[k as int]);
                }
                if i == k && k < j - 1 {
                    lemma_listed_order(tensors@, x, before[k as int], before[j - 1]);
                }
            }
            assert forall|i: int| 0 <= i < after.len() implies (#[trigger] after[i] as int)
                < tensors.len() by {
                if i < k {
                    assert(after[i] == before[i]);
                } else if i > k {
                    assert(after[i] == before[i - 1]);
                }
            }
            lemma_insert_multiset(before, k as int, x);
            assert(places@.take(n + 1) =~= places@.take(n as int).push(x));
            vstd::seq_lib::to_multiset_build(places@.take(n as int), x);
        }
        n += 1;
    }
    assert(places@.take(n as int) =~= places@);
    let end: usize = if limit < sorted.len() {
        limit
    } else {
        sorted.len()
    };
    let list = copy_range(&sorted, 0, end);
    proof {
        assert(list@ =~= sorted@.take(end as int));
        assert(by_size(tensors@, sorted@));
    }
    list
}

// ---------------------------------------------------------------------------
// What the statistics say
// ---------------------------------------------------------------------------
/// The places are those of `0..n` for which `keep` holds, in ascending order.
pub open spec fn are_places_of(places: Seq<usize>, keep: spec_fn(int) -> bool, n: int) -> bool {
    &&& forall|i: int, j: int| 0 <= i < j < places.len() ==> places[i] < places[j]
    &&& forall|p: usize| #[trigger] places.contains(p) <==> p < n && keep(p as int)
}

proof fn lemma_chosen_are(keep: spec_fn(int) -> bool, n: int)
    requires
        0 <= n <= usize::MAX,
    ensures
        are_places_of(chosen(keep, n), keep, n),
    decreases n,
{
    if n > 0 {
        lemma_chosen_are(keep, n - 1);
        let fewer = chosen(keep, n - 1);
        let places = chosen(keep, n);
        let last = (n - 1) as usize;
        assert forall|i: int| 0 <= i < fewer.len() implies #[trigger] fewer[i] < last by {
            assert(fewer.contains(fewer[i]));
        }
        assert forall|p: usize| #[trigger] places.contains(p) <==> p < n && keep(p as int) by {
            if keep(n - 1) {
                assert(places[fewer.len() as int] == last);
                if fewer.contains(p) {
                    let i = choose|i: int| 0 <= i < fewer.len() && fewer[i] == p;
                    assert(places[i] == p);
                }
                if places.contains(p) {
                    let i = choose|i: int| 0 <= i < places.len() && places[i] == p;
                    if i < fewer.len() {
                        assert(fewer[i] == p);
                    }
                }
            }
            assert(fewer.contains(p) <==> p < n - 1 && keep(p as int));
        }
    }
}

/// The tensors of a prefix are the tensor of that name and those whose names go on behind
/// a dot; without a prefix they are all tensors. They stay in their order.
pub proof fn law_prefix_names_its_tensors(
    tensors: Seq<LoadedTensor>,
    prefix: Option<Seq<char>>,
)
    requires
        tensors.len() <= usize::MAX,
    ensures
        ({
            let places = kept(tensors, prefix, tensors.len() as int);
            &&& forall|i: int, j: int| 0 <= i < j < places.len() ==> places[i] < places[j]
            &&& forall|p: usize| #[trigger]
                places.contains(p) <==> p < tensors.len() && (prefix matches Some(start) ==> {
                    let name = tensors[p as int].name@;
                    name == start || is_behind_dot(name, start)
                })
        }),
{
    let n = tensors.len() as int;
    let keep = |i: int| is_kept(tensors[i], prefix);
    lemma_chosen_are(keep, n);
    let places = kept(tensors, prefix, n);
    assert forall|p: usize| p < n implies (#[trigger] keep(p as int) <==> (prefix matches Some(start)
        ==> {
        let name = tensors[p as int].name@;
        name == start || is_behind_dot(name, start)
    })) by {
        if prefix is Some {
            let start = prefix->0;
            let name = tensors[p as int].name@;
            if has_prefix(name, start) && name != start {
                let rest = name.skip(start.len() as int + 1);
                assert(name.subrange(0, start.len() as int) == start);
                assert(name =~= start.push('.') + rest);
            }
            if is_behind_dot(name, start) {
                let rest = choose|rest: Seq<char>| name == #[trigger] (start.push('.') + rest);
                assert(name.subrange(0, start.len() as int) =~= start);
            }
        }
    }
    assert forall|p: usize| #[trigger]
        places.contains(p) <==> p < tensors.len() && (prefix matches Some(start) ==> {
            let name = tensors[p as int].name@;
            name == start || is_behind_dot(name, start)
        }) by {
        assert(places.contains(p) <==> p < n && keep(p as int));
    }
}

/// The name is the prefix, a dot and more.
pub open spec fn is_behind_dot(name: Seq<char>, prefix: Seq<char>) -> bool {
    exists|rest: Seq<char>| name == #[trigger] (prefix.push('.') + rest)
}

/// Statistics add up: those of no tensors are zero, and one more tensor adds one to the
/// count, its elements to the parameters and its length to the bytes.
pub proof fn law_statistics_add_up(tensors: Seq<LoadedTensor>, places: Seq<usize>, place: usize)
    requires
        place < tensors.len(),
        places.len() < usize::MAX,
        sums_fit(tensors, places.push(place)),
    ensures
        stats_of(tensors, Seq::empty()) == (PrefixStats {
            tensor_count: 0,
            parameter_count: 0,
            byte_count: 0,
        }),
        ({
            let a = stats_of(tensors, places);
            let b = stats_of(tensors, places.push(place));
            let t = tensors[place as int];
            &&& b.tensor_count == a.tensor_count + 1
            &&& b.parameter_count == a.parameter_count + t.num_elements
            &&& b.byte_count == a.byte_count + t.byte_len
        }),
{
    let n = places.len() as int;
    lemma_sums_push(tensors, places, place, n);
    lemma_sums_grow(tensors, places, 0, n);
}

/// The statistics are those of the tensors with this key, of which there are some.
pub open spec fn counts_key(
    stats: PrefixStats,
    tensors: Seq<LoadedTensor>,
    keys: Seq<Seq<char>>,
    key: Seq<char>,
) -> bool {
    exists|places: Seq<usize>|
        {
            &&& stats == #[trigger] stats_of(tensors, places)
            &&& places.len() > 0
            &&& forall|a: int, b: int| 0 <= a < b < places.len() ==> places[a] < places[b]
            &&& forall|p: usize| #[trigger]
                places.contains(p) <==> p < keys.len() && keys[p as int] == key
        }
}

proof fn lemma_places_of(keys: Seq<Seq<char>>, key: Seq<char>)
    requires
        keys.len() <= usize::MAX,
    ensures
        forall|a: int, b: int|
            0 <= a < b < places_of(keys, key).len() ==> places_of(keys, key)[a] < places_of(
                keys,
                key,
            )[b],
        forall|p: usize| #[trigger]
            places_of(keys, key).contains(p) <==> p < keys.len() && keys[p as int] == key,
{
    let keep = has_key(keys, key);
    lemma_chosen_are(keep, keys.len() as int);
    let places = places_of(keys, key);
    assert forall|p: usize| #[trigger]
        places.contains(p) <==> p < keys.len() && keys[p as int] == key by {
        assert(places.contains(p) <==> p < keys.len() && keep(p as int));
    }
}

/// Groups share the tensors out: every tensor is counted in the group of its key, and in no
/// other; a group holds the tensors of its key, and there is no group without tensors. The
/// groups stand in the order of their keys.
pub proof fn law_groups_share_out_the_tensors(
    groups: Seq<TensorGroup>,
    tensors: Seq<LoadedTensor>,
    keys: Seq<Seq<char>>,
)
    requires
        are_groups(groups, tensors, keys),
        keys.len() == tensors.len(),
        tensors.len() <= usize::MAX,
    ensures
        forall|i: int, j: int|
            0 <= i < j < groups.len() ==> text_before(
                (#[trigger] groups[i]).key@,
                (#[trigger] groups[j]).key@,
            ),
        forall|k: int|
            0 <= k < keys.len() ==> exists|i: int|
                0 <= i < groups.len() && #[trigger] groups[i].key@ == #[trigger] keys[k],
        forall|i: int|
            0 <= i < groups.len() ==> counts_key(
                (#[trigger] groups[i]).stats,
                tensors,
                keys,
                groups[i].key@,
            ),
{
    let names = group_keys(groups);
    let n = keys.len() as int;
    assert(keys.take(n) =~= keys);
    assert forall|i: int, j: int| 0 <= i < j < groups.len() implies text_before(
        (#[trigger] groups[i]).key@,
        (#[trigger] groups[j]).key@,
    ) by {
        assert(text_before(names[i], names[j]));
    }
    assert forall|k: int| 0 <= k < keys.len() implies exists|i: int|
        0 <= i < groups.len() && #[trigger] groups[i].key@ == #[trigger] keys[k] by {
        assert(names.contains(keys[k]));
        let i = choose|i: int| 0 <= i < names.len() && names[i] == keys[k];
        assert(groups[i].key@ == keys[k]);
    }
    assert forall|i: int| 0 <= i < groups.len() implies counts_key(
        (#[trigger] groups[i]).stats,
        tensors,
        keys,
        groups[i].key@,
    ) by {
        let key = groups[i].key@;
        let places = places_of(keys, key);
        lemma_places_of(keys, key);
        assert(names[i] == key);
        assert(keys.take(n).contains(names[i]));
        let k = choose|k: int| 0 <= k < keys.len() && keys[k] == key;
        assert(places.contains(k as usize));
        assert(groups[i].stats == stats_of(tensors, places));
    }
}

/// The keys of tensors: by type, the type; by prefix, the name up to its first dot.
pub proof fn law_keys_of_tensors(tensors: Seq<LoadedTensor>, i: int)
    requires
        0 <= i < tensors.len(),
    ensures
        type_keys(tensors).len() == tensors.len(),
        type_keys(tensors)[i] == tensors[i].tensor_type@,
        prefix_keys(tensors).len() == tensors.len(),
        !prefix_keys(tensors)[i].contains('.'),
        prefix_keys(tensors)[i] == tensors[i].name@ || is_behind_dot(
            tensors[i].name@,
            prefix_keys(tensors)[i],
        ),
{
    let name = tensors[i].name@;
    lemma_before_dot(name, 0);
    let end = char_or_end(name, '.', 0);
    let key = prefix_keys(tensors)[i];
    assert(key == name.take(end));
    if key.contains('.') {
        let k = choose|k: int| 0 <= k < key.len() && key[k] == '.';
        assert(name[k] == '.');
    }
    if end < name.len() {
        assert(name =~= key.push('.') + name.skip(end + 1));
    } else {
        assert(key =~= name);
    }
}

proof fn lemma_before_dot(name: Seq<char>, i: int)
    requires
        0 <= i <= name.len(),
    ensures
        i <= char_or_end(name, '.', i) <= name.len(),
        forall|k: int| i <= k < char_or_end(name, '.', i) ==> #[trigger] name[k] != '.',
        char_or_end(name, '.', i) < name.len() ==> name[char_or_end(name, '.', i)] == '.',
    decreases name.len() - i,
{
    if i < name.len() && name[i] != '.' {
        lemma_before_dot(name, i + 1);
    }
}

/// The largest tensors: as many as are wanted and there are, each once, none smaller than a
/// tensor that is left out, larger ones first and equal ones by name.
pub proof fn law_largest_come_first(
    tensors: Seq<LoadedTensor>,
    places: Seq<usize>,
    limit: int,
    list: Seq<usize>,
)
    requires
        are_largest(tensors, places, limit, list),
        0 <= limit,
    ensures
        list.len() == if limit < places.len() {
            limit
        } else {
            places.len() as int
        },
        forall|i: int| 0 <= i < list.len() ==> places.contains(#[trigger] list[i]),
        forall|i: int, j: int|
            0 <= i < j < list.len() ==> {
                let a = tensors[#[trigger] list[i] as int];
                let b = tensors[#[trigger] list[j] as int];
                &&& list[i] != list[j]
                &&& a.num_elements >= b.num_elements
                &&& a.num_elements == b.num_elements ==> a.name@ == b.name@ || text_before(
                    a.name@,
                    b.name@,
                )
            },
        forall|p: usize, i: int|
            places.contains(p) && !list.contains(p) && 0 <= i < list.len()
                ==> #[trigger] tensors[list[i] as int].num_elements >= (
            #[trigger] tensors[p as int]).num_elements,
{
    let sorted = choose|sorted: Seq<usize>| #[trigger]
        by_size(tensors, sorted) && sorted.to_multiset() == places.to_multiset() && list
            == sorted.take(
            if limit < sorted.len() {
                limit
            } else {
                sorted.len() as int
            },
        );
    places.to_multiset_ensures();
    sorted.to_multiset_ensures();
    assert forall|i: int, j: int| 0 <= i < j < sorted.len() implies sorted[i] != sorted[j] by {
        lemma_text_order(
            tensors[sorted[i] as int].name@,
            tensors[sorted[j] as int].name@,
            tensors[sorted[i] as int].name@,
        );
        assert(listed_before(tensors, sorted[i], sorted[j]));
    }
    assert forall|i: int| 0 <= i < list.len() implies places.contains(#[trigger] list[i]) by {
        assert(list[i] == sorted[i]);
        assert(sorted.contains(sorted[i]));
        assert(sorted.to_multiset().count(sorted[i]) > 0);
        assert(places.to_multiset().count(list[i]) > 0);
    }
    assert forall|i: int, j: int| 0 <= i < j < list.len() implies {
        let a = tensors[#[trigger] list[i] as int];
        let b = tensors[#[trigger] list[j] as int];
        &&& list[i] != list[j]
        &&& a.num_elements >= b.num_elements
        &&& a.num_elements == b.num_elements ==> a.name@ == b.name@ || text_before(a.name@, b.name@)
    } by {
        assert(listed_before(tensors, sorted[i], sorted[j]));
    }
    assert forall|p: usize, i: int|
        places.contains(p) && !list.contains(p) && 0 <= i < list.len() implies
        #[trigger] tensors[list[i] as int].num_elements >= (
    #[trigger] tensors[p as int]).num_elements by {
        assert(places.to_multiset().count(p) > 0);
        assert(sorted.contains(p));
        let j = choose|j: int| 0 <= j < sorted.len() && sorted[j] == p;
        if j < list.len() {
            assert(list[j] == p);
        }
        assert(listed_before(tensors, sorted[i], sorted[j]));
    }
}

} // verus!
