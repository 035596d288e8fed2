//! The report on a model file, section by section.
use vstd::prelude::*;
use vstd::string::*;

use crate::inspect::{
    all_places, all_within, are_groups, are_largest, filtered_tensors, kept, largest_tensors,
    prefix_keys, prefix_view, stats_of, sums_fit, tensor_prefix_stats, tensor_stats,
    tensor_type_counts, type_keys, BackboneConfig, GameModelConfig, InferenceConfig,
    LoadedGgufModel, LoadedTensor, PrefixStats, TensorGroup,
};
use crate::text::{
    byte_count, byte_len, bytes_text, count_text, decimal, decimal_string, format_bytes,
    format_count, join, join_strings, list_text, push_list, push_repeated, push_signed, repeated,
    signed_decimal, split_words, starts_with, views, words,
};

verus! {

pub const INSPECT_LABEL_WIDTH: usize = 18;

pub const INSPECT_VALUE_WIDTH: usize = 52;

// ---------------------------------------------------------------------------
// Lines
// ---------------------------------------------------------------------------
/// The lines that take up the words from word `i` on, behind what the current line
/// holds already.
pub open spec fn wrapped_from(ws: Seq<Seq<char>>, i: int, current: Seq<char>, width: int) -> Seq<
    Seq<char>,
>
    decreases ws.len() - i,
{
    if i < 0 || i >= ws.len() {
        seq![current]
    } else if current.len() == 0 {
        wrapped_from(ws, i + 1, ws[i], width)
    } else if byte_count(current) + 1 + byte_count(ws[i]) > width {
        seq![current] + wrapped_from(ws, i + 1, ws[i], width)
    } else {
        wrapped_from(ws, i + 1, current + " "@ + ws[i], width)
    }
}

/// A text in lines of at most `width` bytes, broken between words; a longer word
/// has a line of its own, and a text without words stays as it is.
pub open spec fn wrapped(text: Seq<char>, width: int) -> Seq<Seq<char>> {
    if width == 0 || words(text).len() == 0 {
        seq![text]
    } else {
        wrapped_from(words(text), 0, Seq::empty(), width)
    }
}

/// Breaks a text into lines.
pub fn wrap_text(text: &str, width: usize) -> (lines: Vec<String>)
    ensures
        views(lines@) == wrapped(text@, width as int),
{
    let mut lines: Vec<String> = Vec::new();
    let parts = split_words(text);
    assert(parts.len() == words(text@).len());
    if width == 0 || parts.len() == 0 {
        lines.push(String::from_str(text));
        assert(views(lines@) =~= seq![text@]);
        return lines;
    }
    let ghost ws = words(text@);
    let mut current = String::new();
    let mut i: usize = 0;
    proof {
        assert(current@ =~= Seq::<char>::empty());
        assert(views(lines@) + wrapped_from(ws, 0, current@, width as int) =~= wrapped(
            text@,
            width as int,
        ));
    }
    while i < parts.len()
        invariant
            i <= parts.len(),
            ws == words(text@),
            views(parts@) == ws,
            views(lines@) + wrapped_from(ws, i as int, current@, width as int) == wrapped(
                text@,
                width as int,
            ),
        decreases parts.len() - i,
    {
        assert(ws[i as int] == parts@[i as int]@);
        let word: &str = parts[i].as_str();
        let ghost before = lines@;
        if current.as_str().is_empty() {
            current = String::from_str(word);
        } else {
            let used: usize = byte_len(&current);
            let more: usize = byte_len(word);
            if used >= width || more >= width - used {
                proof {
                    assert(views(before.push(current)) =~= views(before).push(current@));
                    assert(views(before) + (seq![current@] + wrapped_from(
                        ws,
                        i + 1,
                        word@,
                        width as int,
                    )) =~= views(before).push(current@) + wrapped_from(
                        ws,
                        i + 1,
                        word@,
                        width as int,
                    ));
                }
                lines.push(current);
                current = String::from_str(word);
            } else {
                current.append(" ");
                current.append(word);
            }
        }
        i += 1;
    }
    let ghost before = lines@;
    let ghost last = current@;
    lines.push(current);
    assert(views(lines@) =~= views(before) + seq![last]);
    lines
}

/// Every word has a character.
proof fn lemma_words_not_empty(s: Seq<char>, i: int)
    requires
        0 <= i,
    ensures
        forall|k: int|
            0 <= k < crate::text::words_from(s, i).len() ==> (#[trigger] crate::text::words_from(
                s,
                i,
            )[k]).len() > 0,
    decreases s.len() - i,
{
    if i < s.len() {
        let a = crate::text::word_start(s, i);
        let b = crate::text::word_end(s, a);
        if i <= a < b <= s.len() {
            lemma_words_not_empty(s, b);
            let rest = crate::text::words_from(s, b);
            let all = crate::text::words_from(s, i);
            assert(all == seq![s.subrange(a, b)] + rest);
            assert forall|k: int| 0 <= k < all.len() implies (#[trigger] all[k]).len() > 0 by {
                if k > 0 {
                    assert(all[k] == rest[k - 1]);
                }
            }
        }
    }
}

proof fn lemma_join_first(a: Seq<char>, rest: Seq<Seq<char>>, sep: Seq<char>)
    requires
        rest.len() > 0,
    ensures
        join(seq![a] + rest, sep) == a + sep + join(rest, sep),
    decreases rest.len(),
{
    let all = seq![a] + rest;
    assert(all.drop_last() =~= seq![a] + rest.drop_last());
    assert(all.last() == rest.last());
    if rest.len() == 1 {
        reveal_with_fuel(join, 2);
        assert(all.drop_last() =~= seq![a]);
        assert(join(all, sep) =~= a + sep + rest[0]);
    } else {
        lemma_join_first(a, rest.drop_last(), sep);
        assert(join(all, sep) =~= a + sep + join(rest, sep));
    }
}

proof fn lemma_wrapped(ws: Seq<Seq<char>>, i: int, current: Seq<char>, width: int)
    requires
        0 <= i <= ws.len(),
        current.len() > 0,
        forall|k: int| 0 <= k < ws.len() ==> (#[trigger] ws[k]).len() > 0,
        byte_count(current) <= width || ws.contains(current),
    ensures
        wrapped_from(ws, i, current, width).len() > 0,
        join(wrapped_from(ws, i, current, width), " "@) == if i < ws.len() {
            current + " "@ + join(ws.skip(i), " "@)
        } else {
            current
        },
        forall|k: int|
            0 <= k < wrapped_from(ws, i, current, width).len() ==> byte_count(
                #[trigger] wrapped_from(ws, i, current, width)[k],
            ) <= width || ws.contains(wrapped_from(ws, i, current, width)[k]),
    decreases ws.len() - i,
{
    if i < ws.len() {
        let w = ws[i];
        assert(ws.contains(w));
        assert(ws.skip(i) =~= seq![w] + ws.skip(i + 1));
        if i + 1 < ws.len() {
            lemma_join_first(w, ws.skip(i + 1), " "@);
        } else {
            assert(ws.skip(i) =~= seq![w]);
        }
        if byte_count(current) + 1 + byte_count(w) > width {
            lemma_wrapped(ws, i + 1, w, width);
            let rest = wrapped_from(ws, i + 1, w, width);
            lemma_join_first(current, rest, " "@);
            assert forall|k: int| 0 <= k < (seq![current] + rest).len() implies byte_count(
                #[trigger] (seq![current] + rest)[k],
            ) <= width || ws.contains((seq![current] + rest)[k]) by {
                if k > 0 {
                    assert((seq![current] + rest)[k] == rest[k - 1]);
                }
            }
        } else {
            lemma_byte_count_sum(current, " "@);
            lemma_byte_count_sum(current + " "@, w);
            lemma_blank_is_one_byte();
            lemma_wrapped(ws, i + 1, current + " "@ + w, width);
            assert(current + " "@ + w + " "@ + join(ws.skip(i + 1), " "@) =~= current + " "@ + (w
                + " "@ + join(ws.skip(i + 1), " "@)));
        }
    }
}

proof fn lemma_byte_count_sum(a: Seq<char>, b: Seq<char>)
    ensures
        byte_count(a + b) == byte_count(a) + byte_count(b),
    decreases a.len(),
{
    if a.len() == 0 {
        assert(a + b =~= b);
    } else {
        lemma_byte_count_sum(a.drop_first(), b);
        assert((a + b).drop_first() =~= a.drop_first() + b);
    }
}

proof fn lemma_blank_is_one_byte()
    ensures
        byte_count(" "@) == 1,
{
    reveal_strlit(" ");
    reveal_with_fuel(vstd::utf8::encode_utf8, 2);
    assert(" "@.drop_first() =~= Seq::<char>::empty());
}

/// Breaking a text into lines loses no word and keeps their order: the lines with
/// blanks between them are the words with blanks between them.
pub proof fn law_wrapping_keeps_words(text: Seq<char>, width: int)
    requires
        width > 0,
        words(text).len() > 0,
    ensures
        join(wrapped(text, width), " "@) == join(words(text), " "@),
{
    lemma_words_not_empty(text, 0);
    let ws = words(text);
    assert(ws.contains(ws[0]));
    lemma_wrapped(ws, 1, ws[0], width);
    if ws.len() > 1 {
        assert(ws =~= seq![ws[0]] + ws.skip(1));
        lemma_join_first(ws[0], ws.skip(1), " "@);
    }
}

/// A line is longer than the width only where it is a single word.
pub proof fn law_wrapped_lines_fit(text: Seq<char>, width: int, k: int)
    requires
        width > 0,
        words(text).len() > 0,
        0 <= k < wrapped(text, width).len(),
    ensures
        byte_count(wrapped(text, width)[k]) <= width || words(text).contains(
            wrapped(text, width)[k],
        ),
{
    lemma_words_not_empty(text, 0);
    let ws = words(text);
    assert(ws.contains(ws[0]));
    lemma_wrapped(ws, 1, ws[0], width);
}

/// A heading and the rule under it.
pub open spec fn section_added(lines: Seq<Seq<char>>, title: Seq<char>) -> Seq<Seq<char>> {
    let rule = if byte_count(title) > INSPECT_LABEL_WIDTH {
        byte_count(title)
    } else {
        INSPECT_LABEL_WIDTH as int
    };
    lines.push(title + ":"@).push(repeated('─', rule))
}

/// A labelled line.
pub open spec fn labelled(label: Seq<char>, line: Seq<char>) -> Seq<char> {
    "  "@ + label + repeated(' ', INSPECT_LABEL_WIDTH - byte_count(label)) + " "@ + line
}

/// A further line of a labelled value.
pub open spec fn indented(line: Seq<char>) -> Seq<char> {
    "  "@ + repeated(' ', INSPECT_LABEL_WIDTH as int) + " "@ + line
}

/// The first `n` lines of a labelled value.
pub open spec fn value_lines(label: Seq<char>, parts: Seq<Seq<char>>, n: int) -> Seq<Seq<char>> {
    Seq::new(
        n as nat,
        |i: int|
            if i == 0 {
                labelled(label, parts[0])
            } else {
                indented(parts[i])
            },
    )
}

/// A label and its value, which takes as many lines as it needs.
pub open spec fn kv_added(lines: Seq<Seq<char>>, label: Seq<char>, value: Seq<char>) -> Seq<
    Seq<char>,
> {
    let parts = wrapped(value, INSPECT_VALUE_WIDTH as int);
    lines + value_lines(label, parts, parts.len() as int)
}

fn push_line(lines: &mut Vec<String>, line: String)
    ensures
        views(final(lines)@) == views(old(lines)@).push(line@),
{
    lines.push(line);
    assert(views(lines@) =~= views(old(lines)@).push(line@));
}

fn push_section(lines: &mut Vec<String>, title: &str)
    ensures
        views(final(lines)@) == section_added(views(old(lines)@), title@),
{
    let mut head = String::from_str(title);
    head.append(":");
    push_line(lines, head);
    let length: usize = byte_len(title);
    let width: usize = if length > INSPECT_LABEL_WIDTH {
        length
    } else {
        INSPECT_LABEL_WIDTH
    };
    let mut rule = String::new();
    push_repeated(&mut rule, '─', width);
    assert(rule@ =~= repeated('─', width as int));
    push_line(lines, rule);
}

fn push_kv(lines: &mut Vec<String>, label: &str, value: &str)
    ensures
        views(final(lines)@) == kv_added(views(old(lines)@), label@, value@),
{
    let parts = wrap_text(value, INSPECT_VALUE_WIDTH);
    let ghost texts = wrapped(value@, INSPECT_VALUE_WIDTH as int);
    let padding: usize = INSPECT_LABEL_WIDTH.saturating_sub(byte_len(label));
    let mut i: usize = 0;
    assert(views(lines@) =~= views(old(lines)@) + value_lines(label@, texts, 0));
    while i < parts.len()
        invariant
            i <= parts.len(),
            texts == views(parts@),
            repeated(' ', padding as int) == repeated(
                ' ',
                INSPECT_LABEL_WIDTH - byte_count(label@),
            ),
            views(lines@) == views(old(lines)@) + value_lines(label@, texts, i as int),
        decreases parts.len() - i,
    {
        assert(texts[i as int] == parts@[i as int]@);
        let mut line = String::from_str("  ");
        if i == 0 {
            line.append(label);
            push_repeated(&mut line, ' ', padding);
        } else {
            push_repeated(&mut line, ' ', INSPECT_LABEL_WIDTH);
        }
        line.append(" ");
        line.append(&parts[i]);
        assert(line@ == value_lines(label@, texts, i + 1)[i as int]);
        push_line(lines, line);
        proof {
            assert(value_lines(label@, texts, i + 1) =~= value_lines(label@, texts, i as int).push(
                line@,
            ));
            assert(views(lines@) =~= views(old(lines)@) + value_lines(label@, texts, i + 1));
        }
        i += 1;
    }
}

pub open spec fn bool_text(b: bool) -> Seq<char> {
    if b {
        "true"@
    } else {
        "false"@
    }
}

fn bool_name(b: bool) -> (s: &'static str)
    ensures
        s@ == bool_text(b),
{
    if b {
        "true"
    } else {
        "false"
    }
}

/// A text, or a dash in place of an empty one.
pub open spec fn dash_text(value: Seq<char>) -> Seq<char> {
    if value.len() == 0 {
        "-"@
    } else {
        value
    }
}

/// Shows a text, or a dash in place of an empty one.
pub fn display_or_dash(value: &str) -> (s: String)
    ensures
        s@ == dash_text(value@),
{
    if value.is_empty() {
        String::from_str("-")
    } else {
        String::from_str(value)
    }
}

fn signed_string(n: i32) -> (s: String)
    ensures
        s@ == signed_decimal(n as int),
{
    let mut s = String::new();
    push_signed(&mut s, n as i64);
    assert(s@ =~= signed_decimal(n as int));
    s
}

// ---------------------------------------------------------------------------
// The summary
// ---------------------------------------------------------------------------
/// The statistics that a report shows.
#[derive(Debug, Clone)]
pub struct InspectSummary {
    /// All tensors together.
    pub total: PrefixStats,
    /// The places of the tensors that belong to the wanted prefix.
    pub matching: Vec<usize>,
    pub matching_stats: PrefixStats,
    pub types: Vec<TensorGroup>,
    pub prefixes: Vec<TensorGroup>,
    /// The places of the largest tensors that belong to the wanted prefix.
    pub largest: Vec<usize>,
    /// The places of the first tensors that belong to the wanted prefix.
    pub sample: Vec<usize>,
}

pub open spec fn least(a: int, b: int) -> int {
    if a <= b {
        a
    } else {
        b
    }
}

/// `s` sums up the tensors for a wanted prefix, with up to `show` in the lists.
pub open spec fn is_summary(
    s: InspectSummary,
    tensors: Seq<LoadedTensor>,
    prefix: Option<Seq<char>>,
    show: int,
) -> bool {
    &&& s.total == stats_of(tensors, all_places(tensors.len() as int))
    &&& s.matching@ == kept(tensors, prefix, tensors.len() as int)
    &&& s.matching_stats == stats_of(tensors, s.matching@)
    &&& are_groups(s.types@, tensors, type_keys(tensors))
    &&& are_groups(s.prefixes@, tensors, prefix_keys(tensors))
    &&& are_largest(tensors, s.matching@, show, s.largest@)
    &&& s.sample@ == s.matching@.take(least(show, s.matching.len() as int))
}

/// Sums up the tensors of a model.
pub fn summarize(tensors: &Vec<LoadedTensor>, prefix: Option<&str>, show: usize) -> (s:
    InspectSummary)
    requires
        sums_fit(tensors@, all_places(tensors.len() as int)),
    ensures
        is_summary(s, tensors@, prefix_view(prefix), show as int),
        all_within(s.matching@, tensors.len() as int),
        all_within(s.largest@, tensors.len() as int),
        all_within(s.sample@, tensors.len() as int),
{
    let everything = filtered_tensors(tensors, None);
    proof {
        crate::inspect::lemma_all_kept(tensors@, tensors.len() as int);
        crate::inspect::lemma_kept(tensors@, prefix_view(prefix));
    }
    let total = tensor_stats(tensors, &everything);
    let matching = filtered_tensors(tensors, prefix);
    let matching_stats = tensor_stats(tensors, &matching);
    let types = tensor_type_counts(tensors);
    let prefixes = tensor_prefix_stats(tensors);
    let largest = largest_tensors(tensors, &matching, show);
    let end: usize = if show < matching.len() {
        show
    } else {
        matching.len()
    };
    let sample = crate::slices::copy_range(&matching, 0, end);
    proof {
        assert(sample@ =~= matching@.take(least(show as int, matching.len() as int)));
        assert forall|i: int| 0 <= i < sample.len() implies (#[trigger] sample@[i] as int)
            < tensors.len() by {
            assert(sample@[i] == matching@[i]);
        }
    }
    InspectSummary { total, matching, matching_stats, types, prefixes, largest, sample }
}

// ---------------------------------------------------------------------------
// Sections
// ---------------------------------------------------------------------------
pub open spec fn quantization_text(version: Option<u32>) -> Seq<char> {
    match version {
        Some(v) => decimal(v as nat),
        None => "none"@,
    }
}

/// The section about the file.
pub open spec fn gguf_section(
    lines: Seq<Seq<char>>,
    model: LoadedGgufModel,
    total: PrefixStats,
) -> Seq<Seq<char>> {
    let lines = section_added(lines, "gguf"@);
    let lines = kv_added(lines, "version"@, model.gguf_version@);
    let lines = kv_added(lines, "architecture"@, model.config.architecture@);
    let lines = kv_added(
        lines,
        "quantization"@,
        quantization_text(model.quantization_version),
    );
    let lines = kv_added(lines, "metadata keys"@, count_text(model.metadata_count as nat));
    let lines = kv_added(lines, "tensor count"@, count_text(model.tensors.len() as nat));
    let lines = kv_added(lines, "parameter count"@, count_text(total.parameter_count as nat));
    let lines = kv_added(
        lines,
        "loaded weights"@,
        count_text(total.byte_count as nat) + " bytes ("@ + bytes_text(total.byte_count) + ")"@,
    );
    lines
}

fn push_gguf(lines: &mut Vec<String>, model: &LoadedGgufModel, total: PrefixStats)
    ensures
        views(final(lines)@) == gguf_section(views(old(lines)@), *model, total),
{
    push_section(lines, "gguf");
    push_kv(lines, "version", &String::from_str(&model.gguf_version));
    push_kv(lines, "architecture", &String::from_str(&model.config.architecture));
    let quantization = match model.quantization_version {
        Some(v) => decimal_string(v as u64),
        None => String::from_str("none"),
    };
    push_kv(lines, "quantization", &quantization);
    push_kv(lines, "metadata keys", &format_count(model.metadata_count as u64));
    push_kv(lines, "tensor count", &format_count(model.tensors.len() as u64));
    push_kv(lines, "parameter count", &format_count(total.parameter_count as u64));
    let mut text = format_count(total.byte_count as u64);
    text.append(" bytes (");
    text.append(&format_bytes(total.byte_count));
    text.append(")");
    push_kv(lines, "loaded weights", &text);
}

/// The section about the model.
pub open spec fn config_section(lines: Seq<Seq<char>>, config: GameModelConfig) -> Seq<Seq<char>> {
    let lines = section_added(lines, "model_config"@);
    let lines = kv_added(lines, "name"@, dash_text(config.name@));
    let lines = kv_added(lines, "version"@, dash_text(config.version@));
    let lines = kv_added(lines, "mode"@, config.mode@);
    let lines = kv_added(lines, "embedding dim"@, signed_decimal(config.embedding_dim as int));
    let lines = kv_added(lines, "input dim"@, signed_decimal(config.in_dim as int));
    let lines = kv_added(lines, "estimator out"@, signed_decimal(config.estimator_out_dim as int));
    let lines = kv_added(lines, "region cycle"@, signed_decimal(config.region_cycle_len as int));
    let lines = kv_added(lines, "use languages"@, bool_text(config.use_languages));
    let lines = kv_added(lines, "num languages"@, signed_decimal(config.num_languages as int));
    lines
}

fn push_config(lines: &mut Vec<String>, config: &GameModelConfig)
    ensures
        views(final(lines)@) == config_section(views(old(lines)@), *config),
{
    push_section(lines, "model_config");
    push_kv(lines, "name", &display_or_dash(&config.name));
    push_kv(lines, "version", &display_or_dash(&config.version));
    push_kv(lines, "mode", &String::from_str(&config.mode));
    push_kv(lines, "embedding dim", &signed_string(config.embedding_dim));
    push_kv(lines, "input dim", &signed_string(config.in_dim));
    push_kv(lines, "estimator out", &signed_string(config.estimator_out_dim));
    push_kv(lines, "region cycle", &signed_string(config.region_cycle_len));
    push_kv(lines, "use languages", &String::from_str(bool_name(config.use_languages)));
    push_kv(lines, "num languages", &signed_string(config.num_languages));
}

/// `language=id` for the first `n` languages.
pub open spec fn language_texts(map: Seq<(String, i32)>, n: int) -> Seq<Seq<char>> {
    Seq::new(n as nat, |i: int| map[i].0@ + "="@ + signed_decimal(map[i].1 as int))
}

pub open spec fn languages_text(map: Seq<(String, i32)>) -> Seq<char> {
    if map.len() == 0 {
        "none"@
    } else {
        join(language_texts(map, map.len() as int), ", "@)
    }
}

fn languages(map: &Vec<(String, i32)>) -> (s: String)
    ensures
        s@ == languages_text(map@),
{
    if map.len() == 0 {
        return String::from_str("none");
    }
    let mut parts: Vec<String> = Vec::new();
    let mut i: usize = 0;
    assert(views(parts@) =~= language_texts(map@, 0));
    while i < map.len()
        invariant
            i <= map.len(),
            views(parts@) == language_texts(map@, i as int),
        decreases map.len() - i,
    {
        let mut part = String::from_str(&map[i].0);
        part.append("=");
        push_signed(&mut part, map[i].1 as i64);
        push_line(&mut parts, part);
        assert(views(parts@) =~= language_texts(map@, i + 1));
        i += 1;
    }
    join_strings(&parts, ", ")
}

/// The section about the input.
pub open spec fn inference_section(
    lines: Seq<Seq<char>>,
    inference: InferenceConfig,
) -> Seq<Seq<char>> {
    let lines = section_added(lines, "inference"@);
    let lines = kv_added(lines, "sample rate"@, signed_decimal(inference.audio_sample_rate as int));
    let lines = kv_added(lines, "hop size"@, signed_decimal(inference.hop_size as int));
    let lines = kv_added(lines, "timestep"@, inference.timestep@ + "s"@);
    let lines = kv_added(lines, "fft size"@, signed_decimal(inference.fft_size as int));
    let lines = kv_added(lines, "win size"@, signed_decimal(inference.win_size as int));
    let lines = kv_added(
        lines,
        "spectrogram"@,
        "type="@ + inference.spectrogram_type@ + " bins="@
            + signed_decimal(inference.n_mels as int) + " fmin="@ + inference.fmin@ + " fmax="@
            + inference.fmax@,
    );
    let lines = kv_added(
        lines,
        "midi"@,
        "min="@ + inference.midi_min@ + " max="@ + inference.midi_max@ + " bins="@
            + signed_decimal(inference.midi_num_bins as int) + " std="@ + inference.midi_std@,
    );
    let lines = kv_added(lines, "lang map"@, languages_text(inference.lang_map@));
    lines
}

fn push_inference(lines: &mut Vec<String>, inference: &InferenceConfig)
    ensures
        views(final(lines)@) == inference_section(views(old(lines)@), *inference),
{
    push_section(lines, "inference");
    push_kv(lines, "sample rate", &signed_string(inference.audio_sample_rate));
    push_kv(lines, "hop size", &signed_string(inference.hop_size));
    let mut text = String::from_str(&inference.timestep);
    text.append("s");
    push_kv(lines, "timestep", &text);
    push_kv(lines, "fft size", &signed_string(inference.fft_size));
    push_kv(lines, "win size", &signed_string(inference.win_size));
    let mut text = String::from_str("type=");
    text.append(&inference.spectrogram_type);
    text.append(" bins=");
    push_signed(&mut text, inference.n_mels as i64);
    text.append(" fmin=");
    text.append(&inference.fmin);
    text.append(" fmax=");
    text.append(&inference.fmax);
    push_kv(lines, "spectrogram", &text);
    let mut text = String::from_str("min=");
    text.append(&inference.midi_min);
    text.append(" max=");
    text.append(&inference.midi_max);
    text.append(" bins=");
    push_signed(&mut text, inference.midi_num_bins as i64);
    text.append(" std=");
    text.append(&inference.midi_std);
    push_kv(lines, "midi", &text);
    push_kv(lines, "lang map", &languages(&inference.lang_map));
}

/// The section about the tensors that belong to the wanted prefix.
pub open spec fn filter_section(lines: Seq<Seq<char>>, prefix: Seq<char>, stats: PrefixStats) -> Seq<
    Seq<char>,
> {
    let lines = section_added(lines, "tensor_filter"@);
    let lines = kv_added(lines, "prefix"@, prefix);
    let lines = kv_added(lines, "matched tensors"@, count_text(stats.tensor_count as nat));
    let lines = kv_added(lines, "matched parameters"@, count_text(stats.parameter_count as nat));
    let lines = kv_added(lines, "matched bytes"@, bytes_text(stats.byte_count));
    lines
}

fn push_filter(lines: &mut Vec<String>, prefix: &str, stats: PrefixStats)
    ensures
        views(final(lines)@) == filter_section(views(old(lines)@), prefix@, stats),
{
    push_section(lines, "tensor_filter");
    push_kv(lines, "prefix", prefix);
    push_kv(lines, "matched tensors", &format_count(stats.tensor_count as u64));
    push_kv(lines, "matched parameters", &format_count(stats.parameter_count));
    push_kv(lines, "matched bytes", &format_bytes(stats.byte_count));
}

/// What every network has.
pub open spec fn backbone_head_section(
    lines: Seq<Seq<char>>,
    name: Seq<char>,
    backbone: BackboneConfig,
) -> Seq<Seq<char>> {
    let lines = kv_added(
        lines,
        name,
        "cls="@ + dash_text(backbone.cls@) + " dim="@ + signed_decimal(backbone.dim as int)
            + " layers="@ + signed_decimal(backbone.num_layers as int) + " heads="@
            + signed_decimal(backbone.num_heads as int) + " head_dim="@
            + signed_decimal(backbone.head_dim as int) + " ffn_type="@ + backbone.ffn_type@,
    );
    let lines = kv_added(
        lines,
        "conv"@,
        "c_kernel="@ + signed_decimal(backbone.c_kernel_size as int) + " m_kernel="@
            + signed_decimal(backbone.m_kernel_size as int) + " use_ls="@
            + bool_text(backbone.use_ls) + " use_out_norm="@ + bool_text(backbone.use_out_norm)
            + " skip_first_ffn="@ + bool_text(backbone.skip_first_ffn) + " skip_out_ffn="@
            + bool_text(backbone.skip_out_ffn),
    );
    lines
}

fn push_backbone_head(lines: &mut Vec<String>, name: &str, backbone: &BackboneConfig)
    ensures
        views(final(lines)@) == backbone_head_section(views(old(lines)@), name@, *backbone),
{
    let mut text = String::from_str("cls=");
    text.append(&display_or_dash(&backbone.cls));
    text.append(" dim=");
    push_signed(&mut text, backbone.dim as i64);
    text.append(" layers=");
    push_signed(&mut text, backbone.num_layers as i64);
    text.append(" heads=");
    push_signed(&mut text, backbone.num_heads as i64);
    text.append(" head_dim=");
    push_signed(&mut text, backbone.head_dim as i64);
    text.append(" ffn_type=");
    text.append(&backbone.ffn_type);
    push_kv(lines, name, &text);
    let mut text = String::from_str("c_kernel=");
    push_signed(&mut text, backbone.c_kernel_size as i64);
    text.append(" m_kernel=");
    push_signed(&mut text, backbone.m_kernel_size as i64);
    text.append(" use_ls=");
    text.append(bool_name(backbone.use_ls));
    text.append(" use_out_norm=");
    text.append(bool_name(backbone.use_out_norm));
    text.append(" skip_first_ffn=");
    text.append(bool_name(backbone.skip_first_ffn));
    text.append(" skip_out_ffn=");
    text.append(bool_name(backbone.skip_out_ffn));
    push_kv(lines, "conv", &text);
}

/// What a network with a latent output has.
pub open spec fn latent_section(lines: Seq<Seq<char>>, backbone: BackboneConfig) -> Seq<Seq<char>> {
    let lines = kv_added(
        lines,
        "latent"@,
        "enabled=true layer_idx="@ + signed_decimal(backbone.latent_layer_idx as int)
            + " out_dim="@ + signed_decimal(backbone.latent_out_dim as int),
    );
    lines
}

fn push_latent(lines: &mut Vec<String>, backbone: &BackboneConfig)
    ensures
        views(final(lines)@) == latent_section(views(old(lines)@), *backbone),
{
    let mut text = String::from_str("enabled=true layer_idx=");
    push_signed(&mut text, backbone.latent_layer_idx as i64);
    text.append(" out_dim=");
    push_signed(&mut text, backbone.latent_out_dim as i64);
    push_kv(lines, "latent", &text);
}

/// What a network with joint attention has.
pub open spec fn joint_section(lines: Seq<Seq<char>>, backbone: BackboneConfig) -> Seq<Seq<char>> {
    let lines = kv_added(
        lines,
        "joint"@,
        "region_tokens="@ + signed_decimal(backbone.region_token_num as int) + " merge="@
            + backbone.pool_merge_mode@ + " attn_type="@ + backbone.attn_type@ + " rope_mode="@
            + backbone.rope_mode@ + " qk_norm="@ + bool_text(backbone.qk_norm) + " region_bias="@
            + bool_text(backbone.use_region_bias) + " use_rope="@ + bool_text(backbone.use_rope)
            + " use_pool_offset="@ + bool_text(backbone.use_pool_offset) + " theta="@
            + backbone.theta@,
    );
    let lines = kv_added(
        lines,
        "joint_conv"@,
        "pool(c="@ + signed_decimal(backbone.c_kernel_size_pool as int) + ", m="@
            + signed_decimal(backbone.m_kernel_size_pool as int) + ") x(c="@
            + signed_decimal(backbone.c_kernel_size_x as int) + ", m="@
            + signed_decimal(backbone.m_kernel_size_x as int) + ")"@,
    );
    lines
}

fn push_joint(lines: &mut Vec<String>, backbone: &BackboneConfig)
    ensures
        views(final(lines)@) == joint_section(views(old(lines)@), *backbone),
{
    let mut text = String::from_str("region_tokens=");
    push_signed(&mut text, backbone.region_token_num as i64);
    text.append(" merge=");
    text.append(&backbone.pool_merge_mode);
    text.append(" attn_type=");
    text.append(&backbone.attn_type);
    text.append(" rope_mode=");
    text.append(&backbone.rope_mode);
    text.append(" qk_norm=");
    text.append(bool_name(backbone.qk_norm));
    text.append(" region_bias=");
    text.append(bool_name(backbone.use_region_bias));
    text.append(" use_rope=");
    text.append(bool_name(backbone.use_rope));
    text.append(" use_pool_offset=");
    text.append(bool_name(backbone.use_pool_offset));
    text.append(" theta=");
    text.append(&backbone.theta);
    push_kv(lines, "joint", &text);
    let mut text = String::from_str("pool(c=");
    push_signed(&mut text, backbone.c_kernel_size_pool as i64);
    text.append(", m=");
    push_signed(&mut text, backbone.m_kernel_size_pool as i64);
    text.append(") x(c=");
    push_signed(&mut text, backbone.c_kernel_size_x as i64);
    text.append(", m=");
    push_signed(&mut text, backbone.m_kernel_size_x as i64);
    text.append(")");
    push_kv(lines, "joint_conv", &text);
}

pub open spec fn is_joint(backbone: BackboneConfig) -> bool {
    backbone.region_token_num != 1 || backbone.c_kernel_size_pool != 0
        || backbone.m_kernel_size_pool != 0 || backbone.c_kernel_size_x != 0
        || backbone.m_kernel_size_x != 0
}

/// All that is said of a network.
pub open spec fn backbone_section(
    lines: Seq<Seq<char>>,
    name: Seq<char>,
    backbone: BackboneConfig,
) -> Seq<Seq<char>> {
    let lines = backbone_head_section(lines, name, backbone);
    let lines = if backbone.return_latent {
        latent_section(lines, backbone)
    } else {
        lines
    };
    if is_joint(backbone) {
        joint_section(lines, backbone)
    } else {
        lines
    }
}

fn push_backbone(lines: &mut Vec<String>, name: &str, backbone: &BackboneConfig)
    ensures
        views(final(lines)@) == backbone_section(views(old(lines)@), name@, *backbone),
{
    push_backbone_head(lines, name, backbone);
    if backbone.return_latent {
        push_latent(lines, backbone);
    }
    if backbone.region_token_num != 1 || backbone.c_kernel_size_pool != 0
        || backbone.m_kernel_size_pool != 0 || backbone.c_kernel_size_x != 0
        || backbone.m_kernel_size_x != 0 {
        push_joint(lines, backbone);
    }
}

/// The lines for the first `n` types.
pub open spec fn types_added(lines: Seq<Seq<char>>, groups: Seq<TensorGroup>, n: int) -> Seq<
    Seq<char>,
>
    decreases n,
{
    if n <= 0 {
        lines
    } else {
        kv_added(
            types_added(lines, groups, n - 1),
            groups[n - 1].key@,
            count_text(groups[n - 1].stats.tensor_count as nat),
        )
    }
}

fn push_types(lines: &mut Vec<String>, groups: &Vec<TensorGroup>)
    ensures
        views(final(lines)@) == types_added(views(old(lines)@), groups@, groups.len() as int),
{
    let mut n: usize = 0;
    while n < groups.len()
        invariant
            n <= groups.len(),
            views(lines@) == types_added(views(old(lines)@), groups@, n as int),
        decreases groups.len() - n,
    {
        push_kv(
            lines,
            &groups[n].key,
            &format_count(groups[n].stats.tensor_count as u64),
        );
        n += 1;
    }
}

pub open spec fn stats_text(stats: PrefixStats) -> Seq<char> {
    "tensors="@ + count_text(stats.tensor_count as nat) + " params="@ + count_text(
        stats.parameter_count as nat,
    ) + " bytes="@ + bytes_text(stats.byte_count)
}

/// The lines for the first `n` prefixes.
pub open spec fn prefixes_added(lines: Seq<Seq<char>>, groups: Seq<TensorGroup>, n: int) -> Seq<
    Seq<char>,
>
    decreases n,
{
    if n <= 0 {
        lines
    } else {
        kv_added(
            prefixes_added(lines, groups, n - 1),
            groups[n - 1].key@,
            stats_text(groups[n - 1].stats),
        )
    }
}

fn push_prefixes(lines: &mut Vec<String>, groups: &Vec<TensorGroup>)
    ensures
        views(final(lines)@) == prefixes_added(views(old(lines)@), groups@, groups.len() as int),
{
    let mut n: usize = 0;
    while n < groups.len()
        invariant
            n <= groups.len(),
            views(lines@) == prefixes_added(views(old(lines)@), groups@, n as int),
        decreases groups.len() - n,
    {
        let stats = groups[n].stats;
        let mut text = String::from_str("tensors=");
        text.append(&format_count(stats.tensor_count as u64));
        text.append(" params=");
        text.append(&format_count(stats.parameter_count));
        text.append(" bytes=");
        text.append(&format_bytes(stats.byte_count));
        push_kv(lines, &groups[n].key, &text);
        n += 1;
    }
}

pub open spec fn tensor_text(tensor: LoadedTensor) -> Seq<char> {
    "shape="@ + list_text(tensor.shape@) + " type="@ + tensor.tensor_type@ + " numel="@
        + count_text(tensor.num_elements as nat) + " bytes="@ + bytes_text(tensor.byte_len as u64)
}

/// The label of the tensor in row `row` of a list, which may have numbers.
pub open spec fn tensor_label(numbered: bool, row: int, name: Seq<char>) -> Seq<char> {
    if numbered {
        decimal((row + 1) as nat) + ". "@ + name
    } else {
        name
    }
}

/// The lines for the first `n` tensors of a list.
pub open spec fn tensors_added(
    lines: Seq<Seq<char>>,
    tensors: Seq<LoadedTensor>,
    list: Seq<usize>,
    numbered: bool,
    n: int,
) -> Seq<Seq<char>>
    decreases n,
{
    if n <= 0 {
        lines
    } else {
        let tensor = tensors[list[n - 1] as int];
        kv_added(
            tensors_added(lines, tensors, list, numbered, n - 1),
            tensor_label(numbered, n - 1, tensor.name@),
            tensor_text(tensor),
        )
    }
}

fn push_tensors(
    lines: &mut Vec<String>,
    tensors: &Vec<LoadedTensor>,
    list: &Vec<usize>,
    numbered: bool,
)
    requires
        all_within(list@, tensors.len() as int),
    ensures
        views(final(lines)@) == tensors_added(
            views(old(lines)@),
            tensors@,
            list@,
            numbered,
            list.len() as int,
        ),
{
    let mut n: usize = 0;
    while n < list.len()
        invariant
            n <= list.len(),
            all_within(list@, tensors.len() as int),
            views(lines@) == tensors_added(views(old(lines)@), tensors@, list@, numbered, n as int),
        decreases list.len() - n,
    {
        let tensor = &tensors[list[n]];
        let label = if numbered {
            let mut label = decimal_string((n + 1) as u64);
            label.append(". ");
            label.append(&tensor.name);
            label
        } else {
            String::from_str(&tensor.name)
        };
        let mut text = String::from_str("shape=");
        push_list(&mut text, &tensor.shape);
        text.append(" type=");
        text.append(&tensor.tensor_type);
        text.append(" numel=");
        text.append(&format_count(tensor.num_elements as u64));
        text.append(" bytes=");
        text.append(&format_bytes(tensor.byte_len as u64));
        push_kv(lines, &label, &text);
        n += 1;
    }
}

// ---------------------------------------------------------------------------
// The report
// ---------------------------------------------------------------------------
pub open spec fn opening_lines(path: Seq<char>, file_size: u64) -> Seq<Seq<char>> {
    Seq::<Seq<char>>::empty().push("model: "@ + path).push(
        "file_size: "@ + count_text(file_size as nat) + " bytes ("@ + bytes_text(file_size) + ")"@,
    ).push(""@)
}

/// The sections before the lists of tensors.
pub open spec fn overview(
    model: LoadedGgufModel,
    file_size: u64,
    prefix: Option<Seq<char>>,
    s: InspectSummary,
) -> Seq<Seq<char>> {
    let lines = opening_lines(model.path@, file_size);
    let lines = gguf_section(lines, model, s.total);
    let lines = match prefix {
        Some(p) => filter_section(lines, p, s.matching_stats),
        None => lines,
    };
    let lines = config_section(lines, model.config);
    let lines = inference_section(lines, model.config.inference);
    let lines = section_added(lines, "backbones"@);
    let lines = backbone_section(lines, "encoder"@, model.config.encoder);
    let lines = backbone_section(lines, "segmenter"@, model.config.segmenter);
    let lines = backbone_section(lines, "estimator"@, model.config.estimator);
    let lines = section_added(lines, "tensor_types"@);
    let lines = types_added(lines, s.types@, s.types.len() as int);
    let lines = section_added(lines, "tensor_prefixes"@);
    prefixes_added(lines, s.prefixes@, s.prefixes.len() as int)
}

/// The lists of tensors.
pub open spec fn lists_added(
    lines: Seq<Seq<char>>,
    tensors: Seq<LoadedTensor>,
    filtered: bool,
    s: InspectSummary,
) -> Seq<Seq<char>> {
    let lines = section_added(
        lines,
        if filtered {
            "largest_matching_tensors"@
        } else {
            "largest_tensors"@
        },
    );
    let lines = tensors_added(lines, tensors, s.largest@, true, s.largest.len() as int);
    let lines = section_added(
        lines,
        if filtered {
            "sample_matching_tensors"@
        } else {
            "sample_tensors"@
        },
    );
    tensors_added(lines, tensors, s.sample@, false, s.sample.len() as int)
}

/// The whole report.
pub open spec fn report(
    model: LoadedGgufModel,
    file_size: u64,
    prefix: Option<Seq<char>>,
    show: int,
    s: InspectSummary,
) -> Seq<Seq<char>> {
    let lines = overview(model, file_size, prefix, s);
    if show > 0 {
        lists_added(lines, model.tensors@, prefix is Some, s)
    } else {
        lines
    }
}

/// Writes the report on a model whose tensors are summed up already.
pub fn report_lines(
    model: &LoadedGgufModel,
    file_size: u64,
    prefix: Option<&str>,
    show: usize,
    s: &InspectSummary,
) -> (lines: Vec<String>)
    requires
        all_within(s.largest@, model.tensors.len() as int),
        all_within(s.sample@, model.tensors.len() as int),
    ensures
        views(lines@) == report(*model, file_size, prefix_view(prefix), show as int, *s),
{
    let mut lines: Vec<String> = Vec::new();
    assert(views(lines@) =~= Seq::empty());
    let mut text = String::from_str("model: ");
    text.append(&model.path);
    push_line(&mut lines, text);
    let mut text = String::from_str("file_size: ");
    text.append(&format_count(file_size));
    text.append(" bytes (");
    text.append(&format_bytes(file_size));
    text.append(")");
    push_line(&mut lines, text);
    push_line(&mut lines, String::from_str(""));
    push_gguf(&mut lines, model, s.total);
    if let Some(p) = prefix {
        push_filter(&mut lines, p, s.matching_stats);
    }
    push_config(&mut lines, &model.config);
    push_inference(&mut lines, &model.config.inference);
    push_section(&mut lines, "backbones");
    push_backbone(&mut lines, "encoder", &model.config.encoder);
    push_backbone(&mut lines, "segmenter", &model.config.segmenter);
    push_backbone(&mut lines, "estimator", &model.config.estimator);
    push_section(&mut lines, "tensor_types");
    push_types(&mut lines, &s.types);
    push_section(&mut lines, "tensor_prefixes");
    push_prefixes(&mut lines, &s.prefixes);
    assert(views(lines@) == overview(*model, file_size, prefix_view(prefix), *s));
    if show > 0 {
        let filtered = prefix.is_some();
        push_section(
            &mut lines,
            if filtered {
                "largest_matching_tensors"
            } else {
                "largest_tensors"
            },
        );
        push_tensors(&mut lines, &model.tensors, &s.largest, true);
        push_section(
            &mut lines,
            if filtered {
                "sample_matching_tensors"
            } else {
                "sample_tensors"
            },
        );
        push_tensors(&mut lines, &model.tensors, &s.sample, false);
    }
    lines
}

/// Writes the report on a model: how its tensors divide up, and up to `show` of
/// them, of those that belong to the wanted prefix.
pub fn inspect(model: &LoadedGgufModel, file_size: u64, prefix: Option<&str>, show: usize) -> (lines:
    Vec<String>)
    requires
        sums_fit(model.tensors@, all_places(model.tensors.len() as int)),
    ensures
        exists|s: InspectSummary| #[trigger]
            is_summary(s, model.tensors@, prefix_view(prefix), show as int) && views(lines@)
                == report(*model, file_size, prefix_view(prefix), show as int, s),
{
    let s = summarize(&model.tensors, prefix, show);
    report_lines(model, file_size, prefix, show, &s)
}

// ---------------------------------------------------------------------------
// What a report says
// ---------------------------------------------------------------------------
/// From line `p` on, the lines show the value under its label: the label in a column of
/// eighteen bytes, and the value behind it, wrapped at fifty-two.
pub open spec fn shows_at(
    lines: Seq<Seq<char>>,
    label: Seq<char>,
    value: Seq<char>,
    p: int,
) -> bool {
    let parts = wrapped(value, 52);
    &&& 0 <= p
    &&& p + parts.len() <= lines.len()
    &&& forall|i: int|
        0 <= i < parts.len() ==> #[trigger] lines[p + i] == if i == 0 {
            "  "@ + label + repeated(' ', 18 - byte_count(label)) + " "@ + parts[0]
        } else {
            "  "@ + repeated(' ', 18) + " "@ + parts[i]
        }
}

/// The lines show the value under its label somewhere.
pub open spec fn says(lines: Seq<Seq<char>>, label: Seq<char>, value: Seq<char>) -> bool {
    exists|p: int| #[trigger] shows_at(lines, label, value, p)
}

proof fn lemma_says_more(a: Seq<Seq<char>>, b: Seq<Seq<char>>)
    requires
        a.is_prefix_of(b),
    ensures
        forall|label: Seq<char>, value: Seq<char>|
            says(a, label, value) ==> #[trigger] says(b, label, value),
{
    assert forall|label: Seq<char>, value: Seq<char>| says(a, label, value) implies #[trigger] says(
        b,
        label,
        value,
    ) by {
        let p = choose|p: int| #[trigger] shows_at(a, label, value, p);
        let parts = wrapped(value, 52);
        assert forall|i: int| 0 <= i < parts.len() implies #[trigger] b[p + i] == a[p + i] by {
            assert(b.subrange(0, a.len() as int)[p + i] == a[p + i]);
        }
        assert(shows_at(b, label, value, p));
    }
}

proof fn lemma_kv(lines: Seq<Seq<char>>, label: Seq<char>, value: Seq<char>)
    ensures
        lines.is_prefix_of(kv_added(lines, label, value)),
        says(kv_added(lines, label, value), label, value),
        forall|l: Seq<char>, v: Seq<char>|
            says(lines, l, v) ==> #[trigger] says(kv_added(lines, label, value), l, v),
{
    let all = kv_added(lines, label, value);
    let parts = wrapped(value, 52);
    assert(all.subrange(0, lines.len() as int) =~= lines);
    lemma_says_more(lines, all);
    let p = lines.len() as int;
    let added = value_lines(label, parts, parts.len() as int);
    assert(all == lines + added);
    assert forall|i: int| 0 <= i < parts.len() implies #[trigger] all[p + i] == if i == 0 {
        "  "@ + label + repeated(' ', 18 - byte_count(label)) + " "@ + parts[0]
    } else {
        "  "@ + repeated(' ', 18) + " "@ + parts[i]
    } by {
        assert(all[p + i] == added[i]);
    }
    assert(shows_at(all, label, value, p));
}

proof fn lemma_heading(lines: Seq<Seq<char>>, title: Seq<char>)
    ensures
        lines.is_prefix_of(section_added(lines, title)),
        section_added(lines, title)[lines.len() as int] == title + ":"@,
        forall|l: Seq<char>, v: Seq<char>|
            says(lines, l, v) ==> #[trigger] says(section_added(lines, title), l, v),
{
    let all = section_added(lines, title);
    assert(all.subrange(0, lines.len() as int) =~= lines);
    lemma_says_more(lines, all);
}

proof fn lemma_gguf_section(lines: Seq<Seq<char>>, model: LoadedGgufModel, total: PrefixStats)
    ensures
        ({
            let all = gguf_section(lines, model, total);
            &&& says(all, "version"@, model.gguf_version@)
            &&& says(all, "architecture"@, model.config.architecture@)
            &&& says(all, "quantization"@, quantization_text(model.quantization_version))
            &&& says(all, "metadata keys"@, count_text(model.metadata_count as nat))
            &&& says(all, "tensor count"@, count_text(model.tensors.len() as nat))
            &&& says(all, "parameter count"@, count_text(total.parameter_count as nat))
            &&& says(
                all,
                "loaded weights"@,
                count_text(total.byte_count as nat) + " bytes ("@ + bytes_text(total.byte_count)
                    + ")"@,
            )
            &&& forall|l: Seq<char>, v: Seq<char>|
                says(lines, l, v) ==> #[trigger] says(all, l, v)
        }),
{
    lemma_heading(lines, "gguf"@);
    let l1 = section_added(lines, "gguf"@);
    lemma_kv(l1, "version"@, model.gguf_version@);
    let l2 = kv_added(l1, "version"@, model.gguf_version@);
    lemma_kv(l2, "architecture"@, model.config.architecture@);
    let l3 = kv_added(l2, "architecture"@, model.config.architecture@);
    lemma_kv(l3, "quantization"@, quantization_text(model.quantization_version));
    let l4 = kv_added(l3, "quantization"@, quantization_text(model.quantization_version));
    lemma_kv(l4, "metadata keys"@, count_text(model.metadata_count as nat));
    let l5 = kv_added(l4, "metadata keys"@, count_text(model.metadata_count as nat));
    lemma_kv(l5, "tensor count"@, count_text(model.tensors.len() as nat));
    let l6 = kv_added(l5, "tensor count"@, count_text(model.tensors.len() as nat));
    lemma_kv(l6, "parameter count"@, count_text(total.parameter_count as nat));
    let l7 = kv_added(l6, "parameter count"@, count_text(total.parameter_count as nat));
    lemma_kv(
        l7,
        "loaded weights"@,
        count_text(total.byte_count as nat) + " bytes ("@ + bytes_text(total.byte_count) + ")"@,
    );
    let l8 = kv_added(
        l7,
        "loaded weights"@,
        count_text(total.byte_count as nat) + " bytes ("@ + bytes_text(total.byte_count) + ")"@,
    );
}

proof fn lemma_config_section(lines: Seq<Seq<char>>, config: GameModelConfig)
    ensures
        ({
            let all = config_section(lines, config);
            &&& says(all, "name"@, dash_text(config.name@))
            &&& says(all, "version"@, dash_text(config.version@))
            &&& says(all, "mode"@, config.mode@)
            &&& says(all, "embedding dim"@, signed_decimal(config.embedding_dim as int))
            &&& says(all, "input dim"@, signed_decimal(config.in_dim as int))
            &&& says(all, "estimator out"@, signed_decimal(config.estimator_out_dim as int))
            &&& says(all, "region cycle"@, signed_decimal(config.region_cycle_len as int))
            &&& says(all, "use languages"@, bool_text(config.use_languages))
            &&& says(all, "num languages"@, signed_decimal(config.num_languages as int))
            &&& forall|l: Seq<char>, v: Seq<char>|
                says(lines, l, v) ==> #[trigger] says(all, l, v)
        }),
{
    lemma_heading(lines, "model_config"@);
    let l1 = section_added(lines, "model_config"@);
    lemma_kv(l1, "name"@, dash_text(config.name@));
    let l2 = kv_added(l1, "name"@, dash_text(config.name@));
    lemma_kv(l2, "version"@, dash_text(config.version@));
    let l3 = kv_added(l2, "version"@, dash_text(config.version@));
    lemma_kv(l3, "mode"@, config.mode@);
    let l4 = kv_added(l3, "mode"@, config.mode@);
    lemma_kv(l4, "embedding dim"@, signed_decimal(config.embedding_dim as int));
    let l5 = kv_added(l4, "embedding dim"@, signed_decimal(config.embedding_dim as int));
    lemma_kv(l5, "input dim"@, signed_decimal(config.in_dim as int));
    let l6 = kv_added(l5, "input dim"@, signed_decimal(config.in_dim as int));
    lemma_kv(l6, "estimator out"@, signed_decimal(config.estimator_out_dim as int));
    let l7 = kv_added(l6, "estimator out"@, signed_decimal(config.estimator_out_dim as int));
    lemma_kv(l7, "region cycle"@, signed_decimal(config.region_cycle_len as int));
    let l8 = kv_added(l7, "region cycle"@, signed_decimal(config.region_cycle_len as int));
    lemma_kv(l8, "use languages"@, bool_text(config.use_languages));
    let l9 = kv_added(l8, "use languages"@, bool_text(config.use_languages));
    lemma_kv(l9, "num languages"@, signed_decimal(config.num_languages as int));
    let l10 = kv_added(l9, "num languages"@, signed_decimal(config.num_languages as int));
}

proof fn lemma_inference_section(lines: Seq<Seq<char>>, inference: InferenceConfig)
    ensures
        ({
            let all = inference_section(lines, inference);
            &&& says(all, "sample rate"@, signed_decimal(inference.audio_sample_rate as int))
            &&& says(all, "hop size"@, signed_decimal(inference.hop_size as int))
            &&& says(all, "timestep"@, inference.timestep@ + "s"@)
            &&& says(all, "fft size"@, signed_decimal(inference.fft_size as int))
            &&& says(all, "win size"@, signed_decimal(inference.win_size as int))
            &&& says(
                all,
                "spectrogram"@,
                "type="@ + inference.spectrogram_type@ + " bins="@
                    + signed_decimal(inference.n_mels as int) + " fmin="@ + inference.fmin@
                    + " fmax="@ + inference.fmax@,
            )
            &&& says(
                all,
                "midi"@,
                "min="@ + inference.midi_min@ + " max="@ + inference.midi_max@ + " bins="@
                    + signed_decimal(inference.midi_num_bins as int) + " std="@
                    + inference.midi_std@,
            )
            &&& says(all, "lang map"@, languages_text(inference.lang_map@))
            &&& forall|l: Seq<char>, v: Seq<char>|
                says(lines, l, v) ==> #[trigger] says(all, l, v)
        }),
{
    lemma_heading(lines, "inference"@);
    let l1 = section_added(lines, "inference"@);
    lemma_kv(l1, "sample rate"@, signed_decimal(inference.audio_sample_rate as int));
    let l2 = kv_added(l1, "sample rate"@, signed_decimal(inference.audio_sample_rate as int));
    lemma_kv(l2, "hop size"@, signed_decimal(inference.hop_size as int));
    let l3 = kv_added(l2, "hop size"@, signed_decimal(inference.hop_size as int));
    lemma_kv(l3, "timestep"@, inference.timestep@ + "s"@);
    let l4 = kv_added(l3, "timestep"@, inference.timestep@ + "s"@);
    lemma_kv(l4, "fft size"@, signed_decimal(inference.fft_size as int));
    let l5 = kv_added(l4, "fft size"@, signed_decimal(inference.fft_size as int));
    lemma_kv(l5, "win size"@, signed_decimal(inference.win_size as int));
    let l6 = kv_added(l5, "win size"@, signed_decimal(inference.win_size as int));
    lemma_kv(
        l6,
        "spectrogram"@,
        "type="@ + inference.spectrogram_type@ + " bins="@
            + signed_decimal(inference.n_mels as int) + " fmin="@ + inference.fmin@ + " fmax="@
            + inference.fmax@,
    );
    let l7 = kv_added(
        l6,
        "spectrogram"@,
        "type="@ + inference.spectrogram_type@ + " bins="@
            + signed_decimal(inference.n_mels as int) + " fmin="@ + inference.fmin@ + " fmax="@
            + inference.fmax@,
    );
    lemma_kv(
        l7,
        "midi"@,
        "min="@ + inference.midi_min@ + " max="@ + inference.midi_max@ + " bins="@
            + signed_decimal(inference.midi_num_bins as int) + " std="@ + inference.midi_std@,
    );
    let l8 = kv_added(
        l7,
        "midi"@,
        "min="@ + inference.midi_min@ + " max="@ + inference.midi_max@ + " bins="@
            + signed_decimal(inference.midi_num_bins as int) + " std="@ + inference.midi_std@,
    );
    lemma_kv(l8, "lang map"@, languages_text(inference.lang_map@));
    let l9 = kv_added(l8, "lang map"@, languages_text(inference.lang_map@));
}

proof fn lemma_filter_section(lines: Seq<Seq<char>>, prefix: Seq<char>, stats: PrefixStats)
    ensures
        ({
            let all = filter_section(lines, prefix, stats);
            &&& says(all, "prefix"@, prefix)
            &&& says(all, "matched tensors"@, count_text(stats.tensor_count as nat))
            &&& says(all, "matched parameters"@, count_text(stats.parameter_count as nat))
            &&& says(all, "matched bytes"@, bytes_text(stats.byte_count))
            &&& forall|l: Seq<char>, v: Seq<char>|
                says(lines, l, v) ==> #[trigger] says(all, l, v)
        }),
{
    lemma_heading(lines, "tensor_filter"@);
    let l1 = section_added(lines, "tensor_filter"@);
    lemma_kv(l1, "prefix"@, prefix);
    let l2 = kv_added(l1, "prefix"@, prefix);
    lemma_kv(l2, "matched tensors"@, count_text(stats.tensor_count as nat));
    let l3 = kv_added(l2, "matched tensors"@, count_text(stats.tensor_count as nat));
    lemma_kv(l3, "matched parameters"@, count_text(stats.parameter_count as nat));
    let l4 = kv_added(l3, "matched parameters"@, count_text(stats.parameter_count as nat));
    lemma_kv(l4, "matched bytes"@, bytes_text(stats.byte_count));
    let l5 = kv_added(l4, "matched bytes"@, bytes_text(stats.byte_count));
}

proof fn lemma_backbone_head_section(
    lines: Seq<Seq<char>>,
    name: Seq<char>,
    backbone: BackboneConfig,
)
    ensures
        ({
            let all = backbone_head_section(lines, name, backbone);
            &&& says(
                all,
                name,
                "cls="@ + dash_text(backbone.cls@) + " dim="@
                    + signed_decimal(backbone.dim as int) + " layers="@
                    + signed_decimal(backbone.num_layers as int) + " heads="@
                    + signed_decimal(backbone.num_heads as int) + " head_dim="@
                    + signed_decimal(backbone.head_dim as int) + " ffn_type="@
                    + backbone.ffn_type@,
            )
            &&& says(
                all,
                "conv"@,
                "c_kernel="@ + signed_decimal(backbone.c_kernel_size as int) + " m_kernel="@
                    + signed_decimal(backbone.m_kernel_size as int) + " use_ls="@
                    + bool_text(backbone.use_ls) + " use_out_norm="@
                    + bool_text(backbone.use_out_norm) + " skip_first_ffn="@
                    + bool_text(backbone.skip_first_ffn) + " skip_out_ffn="@
                    + bool_text(backbone.skip_out_ffn),
            )
            &&& forall|l: Seq<char>, v: Seq<char>|
                says(lines, l, v) ==> #[trigger] says(all, l, v)
        }),
{
    lemma_kv(
        lines,
        name,
        "cls="@ + dash_text(backbone.cls@) + " dim="@ + signed_decimal(backbone.dim as int)
            + " layers="@ + signed_decimal(backbone.num_layers as int) + " heads="@
            + signed_decimal(backbone.num_heads as int) + " head_dim="@
            + signed_decimal(backbone.head_dim as int) + " ffn_type="@ + backbone.ffn_type@,
    );
    let l1 = kv_added(
        lines,
        name,
        "cls="@ + dash_text(backbone.cls@) + " dim="@ + signed_decimal(backbone.dim as int)
            + " layers="@ + signed_decimal(backbone.num_layers as int) + " heads="@
            + signed_decimal(backbone.num_heads as int) + " head_dim="@
            + signed_decimal(backbone.head_dim as int) + " ffn_type="@ + backbone.ffn_type@,
    );
    lemma_kv(
        l1,
        "conv"@,
        "c_kernel="@ + signed_decimal(backbone.c_kernel_size as int) + " m_kernel="@
            + signed_decimal(backbone.m_kernel_size as int) + " use_ls="@
            + bool_text(backbone.use_ls) + " use_out_norm="@ + bool_text(backbone.use_out_norm)
            + " skip_first_ffn="@ + bool_text(backbone.skip_first_ffn) + " skip_out_ffn="@
            + bool_text(backbone.skip_out_ffn),
    );
    let l2 = kv_added(
        l1,
        "conv"@,
        "c_kernel="@ + signed_decimal(backbone.c_kernel_size as int) + " m_kernel="@
            + signed_decimal(backbone.m_kernel_size as int) + " use_ls="@
            + bool_text(backbone.use_ls) + " use_out_norm="@ + bool_text(backbone.use_out_norm)
            + " skip_first_ffn="@ + bool_text(backbone.skip_first_ffn) + " skip_out_ffn="@
            + bool_text(backbone.skip_out_ffn),
    );
}

proof fn lemma_latent_section(lines: Seq<Seq<char>>, backbone: BackboneConfig)
    ensures
        ({
            let all = latent_section(lines, backbone);
            &&& says(
                all,
                "latent"@,
                "enabled=true layer_idx="@ + signed_decimal(backbone.latent_layer_idx as int)
                    + " out_dim="@ + signed_decimal(backbone.latent_out_dim as int),
            )
            &&& forall|l: Seq<char>, v: Seq<char>|
                says(lines, l, v) ==> #[trigger] says(all, l, v)
        }),
{
    lemma_kv(
        lines,
        "latent"@,
        "enabled=true layer_idx="@ + signed_decimal(backbone.latent_layer_idx as int)
            + " out_dim="@ + signed_decimal(backbone.latent_out_dim as int),
    );
    let l1 = kv_added(
        lines,
        "latent"@,
        "enabled=true layer_idx="@ + signed_decimal(backbone.latent_layer_idx as int)
            + " out_dim="@ + signed_decimal(backbone.latent_out_dim as int),
    );
}

proof fn lemma_joint_section(lines: Seq<Seq<char>>, backbone: BackboneConfig)
    ensures
        ({
            let all = joint_section(lines, backbone);
            &&& says(
                all,
                "joint"@,
                "region_tokens="@ + signed_decimal(backbone.region_token_num as int) + " merge="@
                    + backbone.pool_merge_mode@ + " attn_type="@ + backbone.attn_type@
                    + " rope_mode="@ + backbone.rope_mode@ + " qk_norm="@
                    + bool_text(backbone.qk_norm) + " region_bias="@
                    + bool_text(backbone.use_region_bias) + " use_rope="@
                    + bool_text(backbone.use_rope) + " use_pool_offset="@
                    + bool_text(backbone.use_pool_offset) + " theta="@ + backbone.theta@,
            )
            &&& says(
                all,
                "joint_conv"@,
                "pool(c="@ + signed_decimal(backbone.c_kernel_size_pool as int) + ", m="@
                    + signed_decimal(backbone.m_kernel_size_pool as int) + ") x(c="@
                    + signed_decimal(backbone.c_kernel_size_x as int) + ", m="@
                    + signed_decimal(backbone.m_kernel_size_x as int) + ")"@,
            )
            &&& forall|l: Seq<char>, v: Seq<char>|
                says(lines, l, v) ==> #[trigger] says(all, l, v)
        }),
{
    lemma_kv(
        lines,
        "joint"@,
        "region_tokens="@ + signed_decimal(backbone.region_token_num as int) + " merge="@
            + backbone.pool_merge_mode@ + " attn_type="@ + backbone.attn_type@ + " rope_mode="@
            + backbone.rope_mode@ + " qk_norm="@ + bool_text(backbone.qk_norm) + " region_bias="@
            + bool_text(backbone.use_region_bias) + " use_rope="@ + bool_text(backbone.use_rope)
            + " use_pool_offset="@ + bool_text(backbone.use_pool_offset) + " theta="@
            + backbone.theta@,
    );
    let l1 = kv_added(
        lines,
        "joint"@,
        "region_tokens="@ + signed_decimal(backbone.region_token_num as int) + " merge="@
            + backbone.pool_merge_mode@ + " attn_type="@ + backbone.attn_type@ + " rope_mode="@
            + backbone.rope_mode@ + " qk_norm="@ + bool_text(backbone.qk_norm) + " region_bias="@
            + bool_text(backbone.use_region_bias) + " use_rope="@ + bool_text(backbone.use_rope)
            + " use_pool_offset="@ + bool_text(backbone.use_pool_offset) + " theta="@
            + backbone.theta@,
    );
    lemma_kv(
        l1,
        "joint_conv"@,
        "pool(c="@ + signed_decimal(backbone.c_kernel_size_pool as int) + ", m="@
            + signed_decimal(backbone.m_kernel_size_pool as int) + ") x(c="@
            + signed_decimal(backbone.c_kernel_size_x as int) + ", m="@
            + signed_decimal(backbone.m_kernel_size_x as int) + ")"@,
    );
    let l2 = kv_added(
        l1,
        "joint_conv"@,
        "pool(c="@ + signed_decimal(backbone.c_kernel_size_pool as int) + ", m="@
            + signed_decimal(backbone.m_kernel_size_pool as int) + ") x(c="@
            + signed_decimal(backbone.c_kernel_size_x as int) + ", m="@
            + signed_decimal(backbone.m_kernel_size_x as int) + ")"@,
    );
}

/// The lines tell what is known of one of the networks.
pub open spec fn tells_backbone(
    lines: Seq<Seq<char>>,
    name: Seq<char>,
    backbone: BackboneConfig,
) -> bool {
    &&& says(
        lines,
        name,
        "cls="@ + dash_text(backbone.cls@) + " dim="@ + signed_decimal(backbone.dim as int)
            + " layers="@ + signed_decimal(backbone.num_layers as int) + " heads="@
            + signed_decimal(backbone.num_heads as int) + " head_dim="@
            + signed_decimal(backbone.head_dim as int) + " ffn_type="@ + backbone.ffn_type@,
    )
    &&& says(
        lines,
        "conv"@,
        "c_kernel="@ + signed_decimal(backbone.c_kernel_size as int) + " m_kernel="@
            + signed_decimal(backbone.m_kernel_size as int) + " use_ls="@
            + bool_text(backbone.use_ls) + " use_out_norm="@ + bool_text(backbone.use_out_norm)
            + " skip_first_ffn="@ + bool_text(backbone.skip_first_ffn) + " skip_out_ffn="@
            + bool_text(backbone.skip_out_ffn),
    )
    &&& backbone.return_latent ==> {
        &&& says(
            lines,
            "latent"@,
            "enabled=true layer_idx="@ + signed_decimal(backbone.latent_layer_idx as int)
                + " out_dim="@ + signed_decimal(backbone.latent_out_dim as int),
        )
    }
    &&& backbone.region_token_num != 1 || backbone.c_kernel_size_pool != 0
        || backbone.m_kernel_size_pool != 0 || backbone.c_kernel_size_x != 0
        || backbone.m_kernel_size_x != 0 ==> {
        &&& says(
            lines,
            "joint"@,
            "region_tokens="@ + signed_decimal(backbone.region_token_num as int) + " merge="@
                + backbone.pool_merge_mode@ + " attn_type="@ + backbone.attn_type@
                + " rope_mode="@ + backbone.rope_mode@ + " qk_norm="@
                + bool_text(backbone.qk_norm) + " region_bias="@
                + bool_text(backbone.use_region_bias) + " use_rope="@
                + bool_text(backbone.use_rope) + " use_pool_offset="@
                + bool_text(backbone.use_pool_offset) + " theta="@ + backbone.theta@,
        )
        &&& says(
            lines,
            "joint_conv"@,
            "pool(c="@ + signed_decimal(backbone.c_kernel_size_pool as int) + ", m="@
                + signed_decimal(backbone.m_kernel_size_pool as int) + ") x(c="@
                + signed_decimal(backbone.c_kernel_size_x as int) + ", m="@
                + signed_decimal(backbone.m_kernel_size_x as int) + ")"@,
        )
    }
}

proof fn lemma_backbone(lines: Seq<Seq<char>>, name: Seq<char>, backbone: BackboneConfig)
    ensures
        tells_backbone(backbone_section(lines, name, backbone), name, backbone),
        forall|l: Seq<char>, v: Seq<char>|
            says(lines, l, v) ==> #[trigger] says(backbone_section(lines, name, backbone), l, v),
{
    lemma_backbone_head_section(lines, name, backbone);
    let l1 = backbone_head_section(lines, name, backbone);
    lemma_latent_section(l1, backbone);
    let l2 = if backbone.return_latent {
        latent_section(l1, backbone)
    } else {
        l1
    };
    lemma_joint_section(l2, backbone);
}

proof fn lemma_types(lines: Seq<Seq<char>>, groups: Seq<TensorGroup>, n: int)
    requires
        0 <= n <= groups.len(),
    ensures
        forall|i: int|
            0 <= i < n ==> says(
                types_added(lines, groups, n),
                (#[trigger] groups[i]).key@,
                count_text(groups[i].stats.tensor_count as nat),
            ),
        forall|l: Seq<char>, v: Seq<char>|
            says(lines, l, v) ==> #[trigger] says(types_added(lines, groups, n), l, v),
    decreases n,
{
    if n > 0 {
        lemma_types(lines, groups, n - 1);
        lemma_kv(
            types_added(lines, groups, n - 1),
            groups[n - 1].key@,
            count_text(groups[n - 1].stats.tensor_count as nat),
        );
    }
}

proof fn lemma_prefixes(lines: Seq<Seq<char>>, groups: Seq<TensorGroup>, n: int)
    requires
        0 <= n <= groups.len(),
    ensures
        forall|i: int|
            0 <= i < n ==> says(
                prefixes_added(lines, groups, n),
                (#[trigger] groups[i]).key@,
                stats_text(groups[i].stats),
            ),
        forall|l: Seq<char>, v: Seq<char>|
            says(lines, l, v) ==> #[trigger] says(prefixes_added(lines, groups, n), l, v),
    decreases n,
{
    if n > 0 {
        lemma_prefixes(lines, groups, n - 1);
        lemma_kv(
            prefixes_added(lines, groups, n - 1),
            groups[n - 1].key@,
            stats_text(groups[n - 1].stats),
        );
    }
}

proof fn lemma_tensors(
    lines: Seq<Seq<char>>,
    tensors: Seq<LoadedTensor>,
    list: Seq<usize>,
    numbered: bool,
    n: int,
)
    requires
        0 <= n <= list.len(),
    ensures
        forall|i: int|
            0 <= i < n ==> says(
                tensors_added(lines, tensors, list, numbered, n),
                tensor_label(numbered, i, tensors[#[trigger] list[i] as int].name@),
                tensor_text(tensors[list[i] as int]),
            ),
        forall|l: Seq<char>, v: Seq<char>|
            says(lines, l, v) ==> #[trigger] says(
                tensors_added(lines, tensors, list, numbered, n),
                l,
                v,
            ),
    decreases n,
{
    if n > 0 {
        lemma_tensors(lines, tensors, list, numbered, n - 1);
        let tensor = tensors[list[n - 1] as int];
        lemma_kv(
            tensors_added(lines, tensors, list, numbered, n - 1),
            tensor_label(numbered, n - 1, tensor.name@),
            tensor_text(tensor),
        );
    }
}

/// The overview says everything that is known of the file, of the model and of its
/// networks, and how many tensors there are of every type and under every prefix.
pub proof fn law_overview_says_everything(
    model: LoadedGgufModel,
    file_size: u64,
    prefix: Option<Seq<char>>,
    s: InspectSummary,
)
    ensures
        ({
            let all = overview(model, file_size, prefix, s);
            let config = model.config;
            let inference = model.config.inference;
            let total = s.total;
            &&& says(all, "version"@, model.gguf_version@)
            &&& says(all, "architecture"@, model.config.architecture@)
            &&& says(all, "quantization"@, quantization_text(model.quantization_version))
            &&& says(all, "metadata keys"@, count_text(model.metadata_count as nat))
            &&& says(all, "tensor count"@, count_text(model.tensors.len() as nat))
            &&& says(all, "parameter count"@, count_text(total.parameter_count as nat))
            &&& says(
                all,
                "loaded weights"@,
                count_text(total.byte_count as nat) + " bytes ("@ + bytes_text(total.byte_count)
                    + ")"@,
            )
            &&& says(all, "name"@, dash_text(config.name@))
            &&& says(all, "version"@, dash_text(config.version@))
            &&& says(all, "mode"@, config.mode@)
            &&& says(all, "embedding dim"@, signed_decimal(config.embedding_dim as int))
            &&& says(all, "input dim"@, signed_decimal(config.in_dim as int))
            &&& says(all, "estimator out"@, signed_decimal(config.estimator_out_dim as int))
            &&& says(all, "region cycle"@, signed_decimal(config.region_cycle_len as int))
            &&& says(all, "use languages"@, bool_text(config.use_languages))
            &&& says(all, "num languages"@, signed_decimal(config.num_languages as int))
            &&& says(all, "sample rate"@, signed_decimal(inference.audio_sample_rate as int))
            &&& says(all, "hop size"@, signed_decimal(inference.hop_size as int))
            &&& says(all, "timestep"@, inference.timestep@ + "s"@)
            &&& says(all, "fft size"@, signed_decimal(inference.fft_size as int))
            &&& says(all, "win size"@, signed_decimal(inference.win_size as int))
            &&& says(
                all,
                "spectrogram"@,
                "type="@ + inference.spectrogram_type@ + " bins="@
                    + signed_decimal(inference.n_mels as int) + " fmin="@ + inference.fmin@
                    + " fmax="@ + inference.fmax@,
            )
            &&& says(
                all,
                "midi"@,
                "min="@ + inference.midi_min@ + " max="@ + inference.midi_max@ + " bins="@
                    + signed_decimal(inference.midi_num_bins as int) + " std="@
                    + inference.midi_std@,
            )
            &&& says(all, "lang map"@, languages_text(inference.lang_map@))
            &&& prefix matches Some(prefix) ==> {
                let stats = s.matching_stats;
                &&& says(all, "prefix"@, prefix)
                &&& says(all, "matched tensors"@, count_text(stats.tensor_count as nat))
                &&& says(all, "matched parameters"@, count_text(stats.parameter_count as nat))
                &&& says(all, "matched bytes"@, bytes_text(stats.byte_count))
            }
            &&& tells_backbone(all, "encoder"@, config.encoder)
            &&& tells_backbone(all, "segmenter"@, config.segmenter)
            &&& tells_backbone(all, "estimator"@, config.estimator)
            &&& forall|i: int|
                0 <= i < s.types@.len() ==> says(
                    all,
                    (#[trigger] s.types@[i]).key@,
                    count_text(s.types@[i].stats.tensor_count as nat),
                )
            &&& forall|i: int|
                0 <= i < s.prefixes@.len() ==> says(
                    all,
                    (#[trigger] s.prefixes@[i]).key@,
                    "tensors="@ + count_text(s.prefixes@[i].stats.tensor_count as nat)
                        + " params="@ + count_text(s.prefixes@[i].stats.parameter_count as nat)
                        + " bytes="@ + bytes_text(s.prefixes@[i].stats.byte_count),
                )
        }),
{
    let l0 = opening_lines(model.path@, file_size);
    lemma_gguf_section(l0, model, s.total);
    let l1 = gguf_section(l0, model, s.total);
    let l2 = match prefix {
        Some(p) => filter_section(l1, p, s.matching_stats),
        None => l1,
    };
    if prefix is Some {
        lemma_filter_section(l1, prefix->0, s.matching_stats);
    }
    lemma_config_section(l2, model.config);
    let l3 = config_section(l2, model.config);
    lemma_inference_section(l3, model.config.inference);
    let l4 = inference_section(l3, model.config.inference);
    lemma_heading(l4, "backbones"@);
    let l5 = section_added(l4, "backbones"@);
    lemma_backbone(l5, "encoder"@, model.config.encoder);
    let l6 = backbone_section(l5, "encoder"@, model.config.encoder);
    lemma_backbone(l6, "segmenter"@, model.config.segmenter);
    let l7 = backbone_section(l6, "segmenter"@, model.config.segmenter);
    lemma_backbone(l7, "estimator"@, model.config.estimator);
    let l8 = backbone_section(l7, "estimator"@, model.config.estimator);
    lemma_heading(l8, "tensor_types"@);
    let l9 = section_added(l8, "tensor_types"@);
    lemma_types(l9, s.types@, s.types@.len() as int);
    let l10 = types_added(l9, s.types@, s.types@.len() as int);
    lemma_heading(l10, "tensor_prefixes"@);
    let l11 = section_added(l10, "tensor_prefixes"@);
    lemma_prefixes(l11, s.prefixes@, s.prefixes@.len() as int);
}

/// Where tensors are to be shown, the report lists the largest under their ranks and a
/// sample under their names, each with its shape, type and size; whatever the overview says
/// it says as well.
pub proof fn law_report_lists_tensors(
    model: LoadedGgufModel,
    file_size: u64,
    prefix: Option<Seq<char>>,
    show: int,
    s: InspectSummary,
)
    ensures
        ({
            let all = report(model, file_size, prefix, show, s);
            let tensors = model.tensors@;
            &&& forall|l: Seq<char>, v: Seq<char>|
                says(overview(model, file_size, prefix, s), l, v) ==> #[trigger] says(all, l, v)
            &&& show > 0 ==> forall|i: int|
                0 <= i < s.largest@.len() ==> {
                    let t = tensors[#[trigger] s.largest@[i] as int];
                    says(
                        all,
                        decimal((i + 1) as nat) + ". "@ + t.name@,
                        "shape="@ + list_text(t.shape@) + " type="@ + t.tensor_type@ + " numel="@
                            + count_text(t.num_elements as nat) + " bytes="@ + bytes_text(
                            t.byte_len as u64,
                        ),
                    )
                }
            &&& show > 0 ==> forall|i: int|
                0 <= i < s.sample@.len() ==> {
                    let t = tensors[#[trigger] s.sample@[i] as int];
                    says(
                        all,
                        t.name@,
                        "shape="@ + list_text(t.shape@) + " type="@ + t.tensor_type@ + " numel="@
                            + count_text(t.num_elements as nat) + " bytes="@ + bytes_text(
                            t.byte_len as u64,
                        ),
                    )
                }
        }),
{
    if show > 0 {
        let l0 = overview(model, file_size, prefix, s);
        let tensors = model.tensors@;
        let largest = if prefix is Some {
            "largest_matching_tensors"@
        } else {
            "largest_tensors"@
        };
        let sample = if prefix is Some {
            "sample_matching_tensors"@
        } else {
            "sample_tensors"@
        };
        lemma_heading(l0, largest);
        let l1 = section_added(l0, largest);
        lemma_tensors(l1, tensors, s.largest@, true, s.largest@.len() as int);
        let l2 = tensors_added(l1, tensors, s.largest@, true, s.largest@.len() as int);
        lemma_heading(l2, sample);
        let l3 = section_added(l2, sample);
        lemma_tensors(l3, tensors, s.sample@, false, s.sample@.len() as int);
    }
}

proof fn lemma_wrapped_is_full(
    ws: Seq<Seq<char>>,
    i: int,
    current: Seq<char>,
    first: Seq<char>,
    width: int,
)
    requires
        0 <= i <= ws.len(),
        current.len() > 0,
        starts_with(current, first),
        forall|k: int| 0 <= k < ws.len() ==> (#[trigger] ws[k]).len() > 0,
    ensures
        wrapped_from(ws, i, current, width).len() > 0,
        starts_with(wrapped_from(ws, i, current, width)[0], first),
        forall|k: int|
            0 < k < wrapped_from(ws, i, current, width).len() ==> would_not_fit(
                wrapped_from(ws, i, current, width)[k - 1],
                #[trigger] wrapped_from(ws, i, current, width)[k],
                width,
            ),
    decreases ws.len() - i,
{
    let lines = wrapped_from(ws, i, current, width);
    if i < ws.len() {
        if byte_count(current) + 1 + byte_count(ws[i]) > width {
            assert(ws[i].subrange(0, ws[i].len() as int) =~= ws[i]);
            lemma_wrapped_is_full(ws, i + 1, ws[i], ws[i], width);
            let rest = wrapped_from(ws, i + 1, ws[i], width);
            assert(lines == seq![current] + rest);
            assert(would_not_fit(current, rest[0], width));
            assert forall|k: int| 0 < k < lines.len() implies would_not_fit(
                lines[k - 1],
                #[trigger] lines[k],
                width,
            ) by {
                assert(lines[k] == rest[k - 1]);
                if k > 1 {
                    assert(lines[k - 1] == rest[k - 2]);
                    assert(would_not_fit(rest[(k - 1) - 1], rest[k - 1], width));
                }
            }
        } else {
            let more = current + " "@ + ws[i];
            assert(more.subrange(0, first.len() as int) =~= current.subrange(
                0,
                first.len() as int,
            ));
            lemma_wrapped_is_full(ws, i + 1, more, first, width);
        }
    }
}

/// The line begins with a word for which the line before it has no room.
pub open spec fn would_not_fit(before: Seq<char>, line: Seq<char>, width: int) -> bool {
    exists|word: Seq<char>| #[trigger]
        starts_with(line, word) && word.len() > 0 && byte_count(before) + 1 + byte_count(word)
            > width
}

/// A line is broken only where the next word does not fit on it. Text that is not wrapped,
/// and text without words, stays one line.
pub proof fn law_wrapped_lines_are_full(text: Seq<char>, width: int, k: int)
    requires
        0 <= width,
    ensures
        width == 0 || words(text).len() == 0 ==> wrapped(text, width) == seq![text],
        width > 0 && words(text).len() > 0 && 0 < k < wrapped(text, width).len() ==> would_not_fit(
            wrapped(text, width)[k - 1],
            wrapped(text, width)[k],
            width,
        ),
{
    let ws = words(text);
    if width > 0 && ws.len() > 0 && 0 < k < wrapped(text, width).len() {
        lemma_words_not_empty(text, 0);
        assert(ws[0].subrange(0, ws[0].len() as int) =~= ws[0]);
        lemma_wrapped_is_full(ws, 1, ws[0], ws[0], width);
        let lines = wrapped_from(ws, 1, ws[0], width);
        assert(wrapped(text, width) == lines);
        assert(would_not_fit(lines[k - 1], lines[k], width));
    }
}

} // verus!
