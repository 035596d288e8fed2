//! Preparing and slicing mono waveforms.
//!
//! Samples are of any copyable type. What is computed on their values (mixing
//! a frame down, blending two neighbours, the level of a window) is a function
//! that the caller hands in; everything that decides where those functions are
//! applied and what becomes of their results stands here.
use vstd::prelude::*;
use vstd::string::*;

use crate::error::Error;
use crate::float_order::{is_nan, less, less_bits};
use crate::slices::{copy_all, copy_range};
use crate::text::{decimal, push_decimal, push_signed, signed_decimal};

verus! {

/// A waveform in mono at the rate that the model wants.
#[derive(Debug, Clone)]
pub struct PreparedWaveform<T> {
    pub samples: Vec<T>,
    pub sample_rate: usize,
    pub source_sample_rate: usize,
    pub source_channels: usize,
}

impl<T> PreparedWaveform<T> {
    /// Whether the rate was changed.
    pub fn was_resampled(&self) -> (b: bool)
        ensures
            b == (self.sample_rate != self.source_sample_rate),
    {
        self.sample_rate != self.source_sample_rate
    }

    /// Whether the source was anything but mono.
    pub fn was_downmixed(&self) -> (b: bool)
        ensures
            b == (self.source_channels != 1),
    {
        self.source_channels != 1
    }
}

/// A contiguous part of a waveform. Its first sample is number
/// `slice_start + split_start` of the waveform: `slice_start` is where the slice
/// begins that silence detection cut out, `split_start` how far into that slice
/// this part begins.
#[derive(Debug, Clone)]
pub struct SliceChunk<T> {
    pub slice_start: usize,
    pub split_start: usize,
    pub waveform: Vec<T>,
}

/// What a [`SliceChunk`] holds.
pub ghost struct ChunkView<T> {
    pub slice_start: int,
    pub split_start: int,
    pub waveform: Seq<T>,
}

impl<T> View for SliceChunk<T> {
    type V = ChunkView<T>;

    open spec fn view(&self) -> ChunkView<T> {
        ChunkView {
            slice_start: self.slice_start as int,
            split_start: self.split_start as int,
            waveform: self.waveform@,
        }
    }
}

pub open spec fn chunk_views<T>(chunks: Seq<SliceChunk<T>>) -> Seq<ChunkView<T>> {
    chunks.map_values(|c: SliceChunk<T>| c@)
}

/// How silence is recognised and how much of it is kept. `threshold_db` is the
/// bit pattern of a single-precision level in decibels.
#[derive(Debug, Clone, Copy, PartialEq, Eq, Structural)]
pub struct SlicerConfig {
    pub sample_rate: usize,
    pub threshold_db: u32,
    pub min_length_ms: usize,
    pub min_interval_ms: usize,
    pub hop_ms: usize,
    pub max_sil_kept_ms: usize,
}

impl Default for SlicerConfig {
    /// 44.1 kHz, -40 dB (0xc220_0000), five seconds at least between cuts.
    fn default() -> (cfg: Self)
        ensures
            cfg == (SlicerConfig {
                sample_rate: 44_100,
                threshold_db: 0xc220_0000,
                min_length_ms: 5_000,
                min_interval_ms: 300,
                hop_ms: 20,
                max_sil_kept_ms: 5_000,
            }),
    {
        SlicerConfig {
            sample_rate: 44_100,
            threshold_db: 0xc220_0000,
            min_length_ms: 5_000,
            min_interval_ms: 300,
            hop_ms: 20,
            max_sil_kept_ms: 5_000,
        }
    }
}

// ---------------------------------------------------------------------------
// Rates and lengths
// ---------------------------------------------------------------------------
/// The sample rate to prepare for: the target, or the fallback when it is zero.
pub fn resolve_target_sample_rate(target_sample_rate: i32, fallback_sample_rate: usize) -> (r:
    Result<usize, Error>)
    ensures
        match r {
            Ok(rate) => target_sample_rate >= 0 && rate == if target_sample_rate == 0 {
                fallback_sample_rate as int
            } else {
                target_sample_rate as int
            },
            Err(e) => target_sample_rate < 0 && e@ == "target sample rate must be >= 0, got "@
                + signed_decimal(target_sample_rate as int),
        },
{
    if target_sample_rate < 0 {
        let mut text = String::from_str("target sample rate must be >= 0, got ");
        push_signed(&mut text, target_sample_rate as i64);
        return Err(Error::from_text(text));
    }
    if target_sample_rate == 0 {
        Ok(fallback_sample_rate)
    } else {
        Ok(target_sample_rate as usize)
    }
}

/// `a / b` rounded to the nearest integer, halves up.
pub open spec fn rounded(a: int, b: int) -> int {
    (2 * a + b) / (2 * b)
}

/// The number of samples after a change of rate: proportional, rounded to the
/// nearest, and at least one.
pub open spec fn resampled_count(input_len: int, src: int, dst: int) -> int {
    let n = (input_len * dst + src / 2) / src;
    if n < 1 {
        1
    } else {
        n
    }
}

/// Computes [`resampled_count`], or fails where it does not fit.
pub fn resampled_length(
    input_len: usize,
    src_sample_rate: usize,
    dst_sample_rate: usize,
) -> (r: Result<usize, Error>)
    requires
        src_sample_rate > 0,
    ensures
        match r {
            Ok(n) => n == resampled_count(
                input_len as int,
                src_sample_rate as int,
                dst_sample_rate as int,
            ),
            Err(e) => resampled_count(
                input_len as int,
                src_sample_rate as int,
                dst_sample_rate as int,
            ) > usize::MAX && e@ == "resampled output length overflow"@,
        },
{
    assert(0 <= input_len as int * dst_sample_rate as int <= usize::MAX * usize::MAX)
        by (nonlinear_arith)
        requires
            input_len <= usize::MAX,
            dst_sample_rate <= usize::MAX,
            0 <= input_len,
            0 <= dst_sample_rate,
    ;
    assert(usize::MAX as int * usize::MAX as int + usize::MAX as int <= u128::MAX as int)
        by (nonlinear_arith)
        requires
            usize::MAX as int <= u64::MAX as int,
    ;
    let numerator: u128 = input_len as u128 * dst_sample_rate as u128;
    let length: u128 = (numerator + src_sample_rate as u128 / 2) / src_sample_rate as u128;
    let length: u128 = if length < 1 {
        1
    } else {
        length
    };
    if length > usize::MAX as u128 {
        return Err(Error::message("resampled output length overflow"));
    }
    Ok(length as usize)
}

// ---------------------------------------------------------------------------
// Mixing down and changing the rate
// ---------------------------------------------------------------------------
/// Mixes interleaved frames down to mono. `mix` is applied to the samples of
/// each frame, given by their range; audio that is mono already is copied.
pub fn interleaved_to_mono<T: Copy, M: Fn(&[T], usize, usize) -> T>(
    interleaved: &[T],
    channels: usize,
    mix: M,
) -> (r: Result<Vec<T>, Error>)
    requires
        forall|from: usize, to: usize|
            from <= to <= interleaved.len() ==> call_requires(mix, (interleaved, from, to)),
    ensures
        match r {
            Ok(mono) => channels > 0 && interleaved.len() as int % channels as int == 0 && if channels
                == 1 {
                mono@ == interleaved@
            } else {
                &&& mono.len() == interleaved.len() as int / channels as int
                &&& forall|f: int|
                    0 <= f < mono.len() ==> call_ensures(
                        mix,
                        (interleaved, (f * channels) as usize, ((f + 1) * channels) as usize),
                        #[trigger] mono@[f],
                    )
            },
            Err(e) => if channels == 0 {
                e@ == "cannot mix down zero-channel audio"@
            } else {
                interleaved.len() as int % channels as int != 0 && e@
                    == "interleaved sample count "@ + decimal(interleaved.len() as nat)
                    + " is not divisible by channel count "@ + decimal(channels as nat)
            },
        },
{
    if channels == 0 {
        return Err(Error::message("cannot mix down zero-channel audio"));
    }
    if interleaved.len() % channels != 0 {
        let mut text = String::from_str("interleaved sample count ");
        push_decimal(&mut text, interleaved.len() as u64);
        text.append(" is not divisible by channel count ");
        push_decimal(&mut text, channels as u64);
        return Err(Error::from_text(text));
    }
    if channels == 1 {
        return Ok(copy_all(interleaved));
    }
    let frames: usize = interleaved.len() / channels;
    proof {
        vstd::arithmetic::div_mod::lemma_fundamental_div_mod(
            interleaved.len() as int,
            channels as int,
        );
    }
    assert(frames * channels == interleaved.len()) by (nonlinear_arith)
        requires
            interleaved.len() as int == channels as int * frames as int + 0,
    ;
    let mut mono: Vec<T> = Vec::new();
    let mut start: usize = 0;
    let mut f: usize = 0;
    while f < frames
        invariant
            f <= frames,
            channels > 1,
            frames * channels == interleaved.len(),
            start == f * channels,
            mono.len() == f,
            forall|from: usize, to: usize|
                from <= to <= interleaved.len() ==> call_requires(mix, (interleaved, from, to)),
            forall|g: int|
                0 <= g < f ==> call_ensures(
                    mix,
                    (interleaved, (g * channels) as usize, ((g + 1) * channels) as usize),
                    #[trigger] mono@[g],
                ),
        decreases frames - f,
    {
        assert((f + 1) * channels == f * channels + channels && (f + 1) * channels <= frames
            * channels) by (nonlinear_arith)
            requires
                f + 1 <= frames,
                channels > 1,
        ;
        let end: usize = start + channels;
        mono.push(mix(interleaved, start, end));
        start = end;
        f += 1;
    }
    Ok(mono)
}

/// The neighbour to the right of sample `left`, or the last sample itself.
pub open spec fn right_neighbour(left: int, len: int) -> int {
    if left + 1 < len {
        left + 1
    } else {
        len - 1
    }
}

/// `value` is a blend at output `i` of the samples next to a position that `left` gives.
pub open spec fn is_blend<
    T,
    P: Fn(usize, usize, usize, usize) -> usize,
    B: Fn(T, T, usize, usize, usize) -> T,
>(samples: Seq<T>, src: usize, dst: usize, left: P, blend: B, i: int, l: usize, value: T) -> bool {
    &&& call_ensures(left, (i as usize, samples.len() as usize, src, dst), l)
    &&& l < samples.len()
    &&& call_ensures(
        blend,
        (
            samples[l as int],
            samples[right_neighbour(l as int, samples.len() as int)],
            i as usize,
            src,
            dst,
        ),
        value,
    )
}

/// `value` can be output sample `i`.
pub open spec fn is_resampled<
    T,
    P: Fn(usize, usize, usize, usize) -> usize,
    B: Fn(T, T, usize, usize, usize) -> T,
>(samples: Seq<T>, src: usize, dst: usize, left: P, blend: B, i: int, value: T) -> bool {
    if samples.len() == 1 {
        value == samples[0]
    } else {
        exists|l: usize| #[trigger] is_blend(samples, src, dst, left, blend, i, l, value)
    }
}

/// `out` can be the samples at the other rate.
pub open spec fn are_resampled<
    T,
    P: Fn(usize, usize, usize, usize) -> usize,
    B: Fn(T, T, usize, usize, usize) -> T,
>(samples: Seq<T>, src: usize, dst: usize, left: P, blend: B, out: Seq<T>) -> bool {
    if src == dst || samples.len() == 0 {
        out == samples
    } else {
        &&& out.len() == resampled_count(samples.len() as int, src as int, dst as int)
        &&& forall|i: int|
            0 <= i < out.len() ==> #[trigger] is_resampled(
                samples,
                src,
                dst,
                left,
                blend,
                i,
                out[i],
            )
    }
}

/// `left` gives samples that there are.
pub open spec fn stays_inside<P: Fn(usize, usize, usize, usize) -> usize>(left: P) -> bool {
    forall|i: usize, len: usize, src: usize, dst: usize, l: usize|
        len > 0 && #[trigger] call_ensures(left, (i, len, src, dst), l) ==> l < len
}

/// The message on a rate of zero.
pub open spec fn zero_rate_text(src: nat, dst: nat) -> Seq<char> {
    "resample requires positive sample rates, got src="@ + decimal(src) + " dst="@ + decimal(dst)
}

/// What is wrong with a change of rate.
pub open spec fn resample_error(len: int, src: int, dst: int) -> Option<Seq<char>> {
    if src == 0 || dst == 0 {
        Some(zero_rate_text(src as nat, dst as nat))
    } else if src != dst && len > 0 && resampled_count(len, src, dst) > usize::MAX {
        Some("resampled output length overflow"@)
    } else {
        None
    }
}

/// Changes the rate by linear interpolation. For an output sample, the number of
/// samples and the two rates, `left` gives the sample at or before its position;
/// `blend` gives its value from the two samples next to its position.
pub fn resample_linear<
    T: Copy,
    P: Fn(usize, usize, usize, usize) -> usize,
    B: Fn(T, T, usize, usize, usize) -> T,
>(samples: &[T], src_sample_rate: usize, dst_sample_rate: usize, left: &P, blend: &B) -> (r: Result<
    Vec<T>,
    Error,
>)
    requires
        forall|i: usize, n: usize|
            call_requires(*left, (i, n, src_sample_rate, dst_sample_rate)),
        stays_inside(*left),
        forall|a: T, b: T, i: usize|
            call_requires(*blend, (a, b, i, src_sample_rate, dst_sample_rate)),
    ensures
        match r {
            Ok(out) => resample_error(
                samples.len() as int,
                src_sample_rate as int,
                dst_sample_rate as int,
            ) is None && are_resampled(
                samples@,
                src_sample_rate,
                dst_sample_rate,
                *left,
                *blend,
                out@,
            ),
            Err(e) => resample_error(
                samples.len() as int,
                src_sample_rate as int,
                dst_sample_rate as int,
            ) == Some(e@),
        },
{
    if src_sample_rate == 0 || dst_sample_rate == 0 {
        let mut text = String::from_str("resample requires positive sample rates, got src=");
        push_decimal(&mut text, src_sample_rate as u64);
        text.append(" dst=");
        push_decimal(&mut text, dst_sample_rate as u64);
        return Err(Error::from_text(text));
    }
    if src_sample_rate == dst_sample_rate || samples.len() == 0 {
        return Ok(copy_all(samples));
    }
    let dst_len: usize = match resampled_length(samples.len(), src_sample_rate, dst_sample_rate) {
        Ok(n) => n,
        Err(e) => {
            return Err(e);
        },
    };
    let last: usize = samples.len() - 1;
    let (src, dst): (usize, usize) = (src_sample_rate, dst_sample_rate);
    let mut out: Vec<T> = Vec::new();
    let mut i: usize = 0;
    while i < dst_len
        invariant
            i <= dst_len,
            out.len() == i,
            last + 1 == samples.len(),
            dst_len == resampled_count(samples.len() as int, src as int, dst as int),
            forall|j: usize, n: usize| call_requires(*left, (j, n, src, dst)),
            stays_inside(*left),
            forall|a: T, b: T, j: usize| call_requires(*blend, (a, b, j, src, dst)),
            forall|j: int|
                0 <= j < i ==> #[trigger] is_resampled(
                    samples@,
                    src,
                    dst,
                    *left,
                    *blend,
                    j,
                    out@[j],
                ),
        decreases dst_len - i,
    {
        if samples.len() == 1 {
            out.push(samples[0]);
            assert(is_resampled(samples@, src, dst, *left, *blend, i as int, samples@[0]));
        } else {
            let l: usize = left(i, samples.len(), src, dst);
            let right: usize = if l < last {
                l + 1
            } else {
                last
            };
            let value: T = blend(samples[l], samples[right], i, src, dst);
            assert(is_blend(samples@, src, dst, *left, *blend, i as int, l, value));
            assert(is_resampled(samples@, src, dst, *left, *blend, i as int, value));
            out.push(value);
        }
        i += 1;
    }
    Ok(out)
}

/// The rate to prepare for.
pub open spec fn target_rate(target: i32, source: usize) -> int {
    if target == 0 {
        source as int
    } else {
        target as int
    }
}

/// What is wrong with preparing a waveform of this length and rate.
pub open spec fn prepare_error(len: int, source: usize, target: i32) -> Option<Seq<char>> {
    if target < 0 {
        Some("target sample rate must be >= 0, got "@ + signed_decimal(target as int))
    } else if target_rate(target, source) == source {
        None
    } else {
        resample_error(len, source as int, target_rate(target, source))
    }
}

/// Brings a waveform to the rate of the model; zero stands for the rate it has.
pub fn prepare_waveform<
    T: Copy,
    P: Fn(usize, usize, usize, usize) -> usize,
    B: Fn(T, T, usize, usize, usize) -> T,
>(source: &PreparedWaveform<T>, target_sample_rate: i32, left: &P, blend: &B) -> (r: Result<
    PreparedWaveform<T>,
    Error,
>)
    requires
        forall|i: usize, n: usize, src: usize, dst: usize|
            call_requires(*left, (i, n, src, dst)),
        stays_inside(*left),
        forall|a: T, b: T, i: usize, src: usize, dst: usize|
            call_requires(*blend, (a, b, i, src, dst)),
    ensures
        match r {
            Ok(w) => {
                &&& prepare_error(
                    source.samples.len() as int,
                    source.sample_rate,
                    target_sample_rate,
                ) is None
                &&& w.sample_rate == target_rate(target_sample_rate, source.sample_rate)
                &&& w.source_sample_rate == source.sample_rate
                &&& w.source_channels == source.source_channels
                &&& are_resampled(
                    source.samples@,
                    source.sample_rate,
                    w.sample_rate,
                    *left,
                    *blend,
                    w.samples@,
                )
            },
            Err(e) => prepare_error(
                source.samples.len() as int,
                source.sample_rate,
                target_sample_rate,
            ) == Some(e@),
        },
{
    let rate: usize = match resolve_target_sample_rate(target_sample_rate, source.sample_rate) {
        Ok(rate) => rate,
        Err(e) => {
            return Err(e);
        },
    };
    let samples: Vec<T> = if source.sample_rate == rate {
        copy_all(&source.samples)
    } else {
        match resample_linear(&source.samples, source.sample_rate, rate, left, blend) {
            Ok(samples) => samples,
            Err(e) => {
                return Err(e);
            },
        }
    };
    Ok(
        PreparedWaveform {
            samples,
            sample_rate: rate,
            source_sample_rate: source.sample_rate,
            source_channels: source.source_channels,
        },
    )
}

/// `value` is blended from the sample at the position of output `i` and the sample behind
/// it, or the last sample and itself.
pub open spec fn lies_between<
    T,
    P: Fn(usize, usize, usize, usize) -> usize,
    B: Fn(T, T, usize, usize, usize) -> T,
>(samples: Seq<T>, src: usize, dst: usize, left: P, blend: B, i: int, value: T) -> bool {
    exists|l: usize, r: int|
        {
            &&& #[trigger] call_ensures(left, (i as usize, samples.len() as usize, src, dst), l)
            &&& l <= r < samples.len()
            &&& r == l + 1 || (r == l && l + 1 == samples.len())
            &&& #[trigger] call_ensures(
                blend,
                (samples[l as int], samples[r], i as usize, src, dst),
                value,
            )
        }
}

/// A change of rate keeps the duration: the number of samples over the new rate is the
/// nearest to that over the old rate, and every sample lies between its neighbours. At the
/// same rate, and without samples, nothing changes; a single sample is repeated.
pub proof fn law_resampling_keeps_the_duration<
    T,
    P: Fn(usize, usize, usize, usize) -> usize,
    B: Fn(T, T, usize, usize, usize) -> T,
>(samples: Seq<T>, src: usize, dst: usize, left: P, blend: B, out: Seq<T>)
    requires
        src > 0,
        dst > 0,
        are_resampled(samples, src, dst, left, blend, out),
    ensures
        src == dst || samples.len() == 0 ==> out == samples,
        src != dst && samples.len() > 0 ==> {
            &&& out.len() >= 1
            &&& out.len() > 1 ==> 2 * (out.len() * src) <= 2 * (samples.len() * dst) + src
            &&& 2 * (samples.len() * dst) < 2 * (out.len() * src) + src
            &&& forall|i: int|
                0 <= i < out.len() ==> if samples.len() == 1 {
                    #[trigger] out[i] == samples[0]
                } else {
                    lies_between(samples, src, dst, left, blend, i, out[i])
                }
        },
{
    if src != dst && samples.len() > 0 {
        let total = samples.len() * dst + src as int / 2;
        let q = total / src as int;
        vstd::arithmetic::div_mod::lemma_fundamental_div_mod(total, src as int);
        let rest = total % src as int;
        assert(q * src == src * q) by (nonlinear_arith);
        assert(0 <= rest < src) by (nonlinear_arith)
            requires
                src > 0,
                rest == total % src as int,
        ;
        assert(samples.len() * dst >= 1) by (nonlinear_arith)
            requires
                samples.len() > 0,
                dst > 0,
        ;
        if q < 1 {
            assert(q <= 0);
            assert(q * src <= 0) by (nonlinear_arith)
                requires
                    q <= 0,
                    src > 0,
            ;
            assert(out.len() == 1);
            assert(out.len() * src == src);
        } else {
            assert(out.len() == q);
            assert(out.len() * src == q * src);
        }
        assert forall|i: int| 0 <= i < out.len() implies if samples.len() == 1 {
            #[trigger] out[i] == samples[0]
        } else {
            lies_between(samples, src, dst, left, blend, i, out[i])
        } by {
            assert(is_resampled(samples, src, dst, left, blend, i, out[i]));
            if samples.len() != 1 {
                let l = choose|l: usize| #[trigger]
                    is_blend(samples, src, dst, left, blend, i, l, out[i]);
                let r = right_neighbour(l as int, samples.len() as int);
                assert(call_ensures(
                    blend,
                    (samples[l as int], samples[r], i as usize, src, dst),
                    out[i],
                ));
            }
        }
    }
}

/// A waveform cannot be prepared for a rate below zero; for zero and for the rate that it
/// has it always can; for another rate it can where its own rate is not zero and the
/// samples can be counted.
pub proof fn law_waveforms_that_can_be_prepared(len: int, source: usize, target: i32)
    requires
        0 <= len <= usize::MAX,
    ensures
        target == 0 ==> target_rate(target, source) == source,
        target != 0 ==> target_rate(target, source) == target,
        prepare_error(len, source, target) is None <==> {
            &&& target >= 0
            &&& target == 0 || target == source || {
                &&& source > 0
                &&& len * target + source as int / 2 < (usize::MAX + 1) * source
            }
        },
{
    if target > 0 && source > 0 && target != source {
        let total = len * target + source as int / 2;
        let q = total / source as int;
        vstd::arithmetic::div_mod::lemma_fundamental_div_mod(total, source as int);
        let rest = total % source as int;
        assert(0 <= rest < source) by (nonlinear_arith)
            requires
                source > 0,
                rest == total % source as int,
        ;
        assert(q <= usize::MAX <==> total < (usize::MAX + 1) * source) by (nonlinear_arith)
            requires
                total == source * q + rest,
                0 <= rest < source,
        ;
        if len == 0 {
            assert(len * target == 0) by (nonlinear_arith)
                requires
                    len == 0,
            ;
            assert(source as int / 2 < (usize::MAX + 1) * source) by (nonlinear_arith)
                requires
                    source > 0,
                    source as int / 2 <= source,
            ;
        }
    }
}

// ---------------------------------------------------------------------------
// Slicing on silence
// ---------------------------------------------------------------------------
/// The geometry of slicing: the hop between windows and their size in samples,
/// and the lengths of the rules in hops.
#[derive(Debug, Clone, Copy, PartialEq, Eq, Structural)]
pub struct FrameRules {
    pub hop_size: usize,
    pub win_size: usize,
    pub min_length: usize,
    pub min_interval: usize,
    pub max_sil_kept: usize,
}

pub open spec fn at_least(n: int, low: int) -> int {
    if n < low {
        low
    } else {
        n
    }
}

pub open spec fn at_most_int(n: int, high: int) -> int {
    if n > high {
        high
    } else {
        n
    }
}

/// The samples from one window to the next: at least one.
pub open spec fn hop_size_of(cfg: SlicerConfig) -> int {
    at_least(cfg.sample_rate * cfg.hop_ms / 1_000, 1)
}

/// Products of a rate and a duration below this are rounded exactly, which is also what
/// double precision gives: no rounding on the way reaches as far as the next half.
pub const EXACT_BELOW: u64 = 1_125_899_906_842_624;

/// `n` is a duration of `ms` milliseconds in stretches of `hop` samples, to the nearest
/// and as far as it fits. Beyond exact products it is what `wide` makes of rate, duration
/// and stretch.
pub open spec fn is_ms_in_hops<W: Fn(usize, usize, usize) -> usize>(
    rate: usize,
    ms: usize,
    hop: usize,
    wide: W,
    n: usize,
) -> bool {
    if rate * ms < EXACT_BELOW {
        n == at_most_int(rounded(rate * ms, 1_000 * hop), usize::MAX as int)
    } else {
        call_ensures(wide, (rate, ms, hop), n)
    }
}

/// `win` is the window: as long as the shortest silence, but no longer than four hops.
pub open spec fn is_window<W: Fn(usize, usize, usize) -> usize>(
    cfg: SlicerConfig,
    wide: W,
    win: usize,
) -> bool {
    exists|n: usize| #[trigger]
        is_ms_in_hops(cfg.sample_rate, cfg.min_interval_ms, 1, wide, n) && win == at_least(
            at_most_int(n as int, 4 * hop_size_of(cfg)),
            1,
        )
}

/// `rules` are the rules of a configuration, in hops.
pub open spec fn are_rules<W: Fn(usize, usize, usize) -> usize>(
    cfg: SlicerConfig,
    wide: W,
    rules: FrameRules,
) -> bool {
    let rate = cfg.sample_rate;
    let hop = rules.hop_size;
    &&& hop == hop_size_of(cfg)
    &&& is_window(cfg, wide, rules.win_size)
    &&& is_ms_in_hops(rate, cfg.min_length_ms, hop, wide, rules.min_length)
    &&& is_ms_in_hops(rate, cfg.min_interval_ms, hop, wide, rules.min_interval)
    &&& is_ms_in_hops(rate, cfg.max_sil_kept_ms, hop, wide, rules.max_sil_kept)
}

/// `wide` can be asked about stretches of at least a sample.
pub open spec fn takes_stretches<W: Fn(usize, usize, usize) -> usize>(wide: W) -> bool {
    forall|rate: usize, ms: usize, hop: usize|
        hop >= 1 ==> #[trigger] call_requires(wide, (rate, ms, hop))
}

proof fn lemma_rounded_by_remainder(a: int, b: int)
    requires
        a >= 0,
        b > 0,
    ensures
        rounded(a, b) == a / b + (if a % b >= b - a % b {
            1int
        } else {
            0int
        }),
        0 <= rounded(a, b) <= a / b + 1,
{
    let q = a / b;
    let m = a % b;
    vstd::arithmetic::div_mod::lemma_fundamental_div_mod(a, b);
    assert(0 <= m < b) by (nonlinear_arith)
        requires
            b > 0,
            m == a % b,
    ;
    assert(q >= 0) by (nonlinear_arith)
        requires
            a >= 0,
            b > 0,
            q == a / b,
    ;
    let up: int = if m >= b - m {
        1
    } else {
        0
    };
    let rest = 2 * m + b - 2 * b * up;
    assert(2 * a + b == (q + up) * (2 * b) + rest) by (nonlinear_arith)
        requires
            a == b * q + m,
            rest == 2 * m + b - 2 * b * up,
    ;
    assert(0 <= rest < 2 * b);
    vstd::arithmetic::div_mod::lemma_fundamental_div_mod_converse(
        2 * a + b,
        2 * b,
        q + up,
        rest,
    );
}

/// `a / b` to the nearest integer, halves up, as far as it fits.
fn round_div(a: u128, b: u128) -> (r: usize)
    requires
        b > 0,
    ensures
        r == at_most_int(rounded(a as int, b as int), usize::MAX as int),
{
    proof {
        lemma_rounded_by_remainder(a as int, b as int);
    }
    let quotient: u128 = a / b;
    let remainder: u128 = a % b;
    if quotient >= usize::MAX as u128 {
        return usize::MAX;
    }
    let rounded_up: u128 = if remainder >= b - remainder {
        quotient + 1
    } else {
        quotient
    };
    rounded_up as usize
}

/// A duration in stretches of `hop` samples.
fn ms_in_hops<W: Fn(usize, usize, usize) -> usize>(
    rate: usize,
    ms: usize,
    hop: usize,
    wide: &W,
) -> (n: usize)
    requires
        hop >= 1,
        takes_stretches(*wide),
    ensures
        is_ms_in_hops(rate, ms, hop, *wide, n),
{
    proof {
        lemma_product_fits(rate, ms);
    }
    let product: u128 = rate as u128 * ms as u128;
    if product < EXACT_BELOW as u128 {
        round_div(product, 1_000 * hop as u128)
    } else {
        wide(rate, ms, hop)
    }
}

/// Works out the rules of a configuration. `sample_rate * hop_ms` and four hops
/// have to fit in a machine word. `wide` gives `rate * ms / 1000 / hop` in double
/// precision, rounded.
pub fn frame_rules<W: Fn(usize, usize, usize) -> usize>(cfg: &SlicerConfig, wide: &W) -> (rules:
    FrameRules)
    requires
        cfg.sample_rate * cfg.hop_ms <= usize::MAX,
        4 * hop_size_of(*cfg) <= usize::MAX,
        takes_stretches(*wide),
    ensures
        are_rules(*cfg, *wide, rules),
        rules.hop_size >= 1,
        1 <= rules.win_size <= 4 * rules.hop_size,
{
    let rate: usize = cfg.sample_rate;
    let mut hop_size: usize = (rate * cfg.hop_ms) / 1_000;
    if hop_size < 1 {
        hop_size = 1;
    }
    let interval: usize = ms_in_hops(rate, cfg.min_interval_ms, 1, wide);
    let mut win_size: usize = interval;
    if win_size > 4 * hop_size {
        win_size = 4 * hop_size;
    }
    if win_size < 1 {
        win_size = 1;
    }
    assert(is_window(*cfg, *wide, win_size)) by {
        assert(is_ms_in_hops(rate, cfg.min_interval_ms, 1, *wide, interval));
    }
    FrameRules {
        hop_size,
        win_size,
        min_length: ms_in_hops(rate, cfg.min_length_ms, hop_size, wide),
        min_interval: ms_in_hops(rate, cfg.min_interval_ms, hop_size, wide),
        max_sil_kept: ms_in_hops(rate, cfg.max_sil_kept_ms, hop_size, wide),
    }
}

proof fn lemma_product_fits(a: usize, b: usize)
    ensures
        0 <= a as int * b as int <= u128::MAX as int,
{
    assert(0 <= a as int * b as int <= u64::MAX as int * u64::MAX as int) by (nonlinear_arith)
        requires
            0 <= a <= u64::MAX,
            0 <= b <= u64::MAX,
    ;
}

/// The number of windows over a waveform of `len` samples that is padded with
/// half a window of silence at both ends.
pub open spec fn frame_count(len: int, win: int, hop: int) -> int {
    (len + 2 * (win / 2) - win) / hop + 1
}

/// The first sample that window `i` covers.
pub open spec fn window_from(i: int, win: int, hop: int) -> int {
    at_least(i * hop - win / 2, 0)
}

/// The end of the samples that window `i` covers.
pub open spec fn window_to(i: int, len: int, win: int, hop: int) -> int {
    at_most_int(i * hop - win / 2 + win, len)
}

/// Every window begins within the waveform and covers a valid range of it.
pub proof fn lemma_windows(len: int, win: int, hop: int, i: int)
    requires
        len >= 1,
        win >= 1,
        hop >= 1,
        0 <= i < frame_count(len, win, hop),
    ensures
        0 <= i * hop <= len,
        0 <= window_from(i, win, hop) <= window_to(i, len, win, hop) <= len,
        frame_count(len, win, hop) <= len + win - 1,
{
    let total = len + 2 * (win / 2) - win;
    let n = total / hop;
    vstd::arithmetic::div_mod::lemma_fundamental_div_mod(total, hop);
    assert(i * hop <= n * hop) by (nonlinear_arith)
        requires
            i <= n,
            hop >= 1,
    ;
    assert(0 <= total % hop) by (nonlinear_arith)
        requires
            hop >= 1,
    ;
    assert(n * hop == hop * n) by (nonlinear_arith);
    assert(0 <= i * hop) by (nonlinear_arith)
        requires
            0 <= i,
            hop >= 1,
    ;
    assert(n <= hop * n) by (nonlinear_arith)
        requires
            hop >= 1,
            n >= 0,
    ;
}

/// The levels that `meter` gives on the windows. `meter` takes the samples, the
/// range that the window covers and the size of the window.
pub open spec fn metered<T, M: Fn(&[T], usize, usize, usize) -> u32>(
    samples: &[T],
    win: int,
    hop: int,
    meter: M,
    levels: Seq<u32>,
) -> bool {
    &&& levels.len() == frame_count(samples.len() as int, win, hop)
    &&& forall|i: int|
        0 <= i < levels.len() ==> call_ensures(
            meter,
            (
                samples,
                window_from(i, win, hop) as usize,
                window_to(i, samples.len() as int, win, hop) as usize,
                win as usize,
            ),
            #[trigger] levels[i],
        )
}

/// Measures the level of each window.
pub fn frame_rms<T: Copy, M: Fn(&[T], usize, usize, usize) -> u32>(
    samples: &[T],
    frame_len: usize,
    hop_len: usize,
    meter: M,
) -> (levels: Vec<u32>)
    requires
        samples.len() >= 1,
        frame_len >= 1,
        hop_len >= 1,
        samples.len() + frame_len <= usize::MAX,
        forall|from: usize, to: usize|
            from <= to <= samples.len() ==> call_requires(meter, (samples, from, to, frame_len)),
    ensures
        metered(samples, frame_len as int, hop_len as int, meter, levels@),
{
    let pad: usize = frame_len / 2;
    let n_frames: usize = (samples.len() + 2 * pad - frame_len) / hop_len + 1;
    let mut levels: Vec<u32> = Vec::new();
    let mut start: usize = 0;
    let mut i: usize = 0;
    while i < n_frames
        invariant
            i <= n_frames,
            n_frames == frame_count(samples.len() as int, frame_len as int, hop_len as int),
            levels.len() == i,
            pad == frame_len / 2,
            samples.len() >= 1,
            frame_len >= 1,
            hop_len >= 1,
            samples.len() + frame_len <= usize::MAX,
            i < n_frames ==> start == i * hop_len,
            forall|from: usize, to: usize|
                from <= to <= samples.len() ==> call_requires(
                    meter,
                    (samples, from, to, frame_len),
                ),
            forall|j: int|
                0 <= j < levels.len() ==> call_ensures(
                    meter,
                    (
                        samples,
                        window_from(j, frame_len as int, hop_len as int) as usize,
                        window_to(
                            j,
                            samples.len() as int,
                            frame_len as int,
                            hop_len as int,
                        ) as usize,
                        frame_len,
                    ),
                    #[trigger] levels@[j],
                ),
        decreases n_frames - i,
    {
        proof {
            lemma_windows(samples.len() as int, frame_len as int, hop_len as int, i as int);
        }
        let from: usize = if start > pad {
            start - pad
        } else {
            0
        };
        let reach: usize = start + (frame_len - pad);
        let to: usize = if reach > samples.len() {
            samples.len()
        } else {
            reach
        };
        levels.push(meter(samples, from, to, frame_len));
        i += 1;
        if i < n_frames {
            proof {
                lemma_windows(samples.len() as int, frame_len as int, hop_len as int, i as int);
                assert(i * hop_len == (i - 1) * hop_len + hop_len) by (nonlinear_arith);
            }
            start = start + hop_len;
        }
    }
    levels
}

/// Frame `i` is quieter than the threshold.
pub open spec fn quiet(levels: Seq<u32>, threshold: u32, i: int) -> bool {
    less(levels[i], threshold)
}

/// Where the silence begins that ends just before frame `i`; `i` itself if there is none.
pub open spec fn silence_start(levels: Seq<u32>, threshold: u32, i: int) -> int
    decreases i,
{
    if i <= 0 || !quiet(levels, threshold, i - 1) {
        i
    } else {
        silence_start(levels, threshold, i - 1)
    }
}

/// The first of the quietest frames from `a` to `b`, both counted.
pub open spec fn quietest(levels: Seq<u32>, a: int, b: int) -> int
    decreases b - a,
{
    if b <= a {
        a
    } else {
        let best = quietest(levels, a, b - 1);
        if less(levels[b], levels[best]) {
            b
        } else {
            best
        }
    }
}

/// The part of the silence from frame `start` up to the loud frame `index` that
/// is cut out: where the clip before it ends, and where the one after it begins.
/// A silence at the very beginning is cut from the first frame on.
pub open spec fn silence_tag(levels: Seq<u32>, rules: FrameRules, start: int, index: int) -> (
    int,
    int,
) {
    let keep = rules.max_sil_kept as int;
    if index - start <= keep {
        let p = quietest(levels, start, index);
        (if start == 0 {
            0
        } else {
            p
        }, p)
    } else if index - start <= 2 * keep {
        let lo = index - keep;
        let p = quietest(levels, lo, at_most_int(start + keep, levels.len() - 1));
        let l = quietest(levels, start, start + keep);
        let r = quietest(levels, lo, index);
        if start == 0 {
            (0, r)
        } else {
            (at_most_int(l, p), at_least(r, p))
        }
    } else {
        let l = quietest(levels, start, start + keep);
        let r = quietest(levels, index - keep, index);
        (if start == 0 {
            0
        } else {
            l
        }, r)
    }
}

/// Where the current clip begins, given the silences cut so far.
pub open spec fn clip_start(tags: Seq<(int, int)>) -> int {
    if tags.len() == 0 {
        0
    } else {
        tags.last().1
    }
}

/// Whether the silence from `start` to the loud frame `index` is cut: a long
/// one at the beginning, or one of sufficient length after a clip of sufficient
/// length.
pub open spec fn cuts(rules: FrameRules, start: int, index: int, clip: int) -> bool {
    ||| start == 0 && index > rules.max_sil_kept
    ||| index - start >= rules.min_interval && index - clip >= rules.min_length
}

/// The silences that are cut among the first `n` frames.
pub open spec fn tags_upto(levels: Seq<u32>, threshold: u32, rules: FrameRules, n: int) -> Seq<
    (int, int),
>
    decreases n,
{
    if n <= 0 {
        Seq::empty()
    } else {
        let before = tags_upto(levels, threshold, rules, n - 1);
        let index = n - 1;
        let start = silence_start(levels, threshold, index);
        if !quiet(levels, threshold, index) && start < index && cuts(
            rules,
            start,
            index,
            clip_start(before),
        ) {
            before.push(silence_tag(levels, rules, start, index))
        } else {
            before
        }
    }
}

/// All silences that are cut, a sufficiently long one at the end among them.
pub open spec fn silence_tags(levels: Seq<u32>, threshold: u32, rules: FrameRules) -> Seq<
    (int, int),
> {
    let n = levels.len() as int;
    let inner = tags_upto(levels, threshold, rules, n);
    let start = silence_start(levels, threshold, n);
    if start < n && n - start >= rules.min_interval {
        inner.push(
            (quietest(levels, start, at_most_int(start + rules.max_sil_kept, n - 1)), n + 1),
        )
    } else {
        inner
    }
}

/// The clips between the silences, as ranges of frames. With no silence cut,
/// or with nothing left between them, there is none.
pub open spec fn clip_frames(tags: Seq<(int, int)>, n: int) -> Seq<(int, int)> {
    if tags.len() == 0 {
        Seq::empty()
    } else {
        let first = if tags[0].0 > 0 {
            seq![(0int, tags[0].0)]
        } else {
            Seq::empty()
        };
        let between = Seq::new((tags.len() - 1) as nat, |i: int| (tags[i].1, tags[i + 1].0));
        let last = if tags.last().1 < n {
            seq![(tags.last().1, n)]
        } else {
            Seq::empty()
        };
        first + between + last
    }
}

/// The samples of a range of frames.
pub open spec fn clip_of<T>(samples: Seq<T>, hop: int, frames: (int, int)) -> ChunkView<T> {
    let from = frames.0 * hop;
    let to = at_most_int(frames.1 * hop, samples.len() as int);
    ChunkView { slice_start: from, split_start: 0, waveform: samples.subrange(from, to) }
}

/// The waveform as one chunk.
pub open spec fn whole<T>(samples: Seq<T>) -> ChunkView<T> {
    ChunkView { slice_start: 0, split_start: 0, waveform: samples }
}

/// The chunks that slicing at the silences in `levels` gives.
pub open spec fn sliced<T>(
    samples: Seq<T>,
    levels: Seq<u32>,
    threshold: u32,
    rules: FrameRules,
) -> Seq<ChunkView<T>> {
    let clips = clip_frames(silence_tags(levels, threshold, rules), levels.len() as int);
    if clips.len() == 0 {
        seq![whole(samples)]
    } else {
        clips.map_values(|f: (int, int)| clip_of(samples, rules.hop_size as int, f))
    }
}

/// The silences follow one another, and each ends no earlier than it begins.
pub open spec fn ordered(tags: Seq<(int, int)>) -> bool {
    &&& forall|i: int| 0 <= i < tags.len() ==> 0 <= (#[trigger] tags[i]).0 <= tags[i].1
    &&& forall|i: int, j: int|
        0 <= i < j < tags.len() ==> (#[trigger] tags[i]).1 <= (#[trigger] tags[j]).0
}

proof fn lemma_quietest(levels: Seq<u32>, a: int, b: int)
    requires
        a <= b,
    ensures
        a <= quietest(levels, a, b) <= b,
    decreases b - a,
{
    if a < b {
        lemma_quietest(levels, a, b - 1);
    }
}

proof fn lemma_silence_start(levels: Seq<u32>, threshold: u32, i: int)
    requires
        0 <= i,
    ensures
        0 <= silence_start(levels, threshold, i) <= i,
        forall|j: int|
            silence_start(levels, threshold, i) <= j < i ==> quiet(levels, threshold, j),
    decreases i,
{
    if i > 0 && quiet(levels, threshold, i - 1) {
        lemma_silence_start(levels, threshold, i - 1);
    }
}

proof fn lemma_silence_tag(levels: Seq<u32>, rules: FrameRules, start: int, index: int)
    requires
        0 <= start < index < levels.len(),
    ensures
        ({
            let tag = silence_tag(levels, rules, start, index);
            (start == 0 || start <= tag.0) && 0 <= tag.0 <= tag.1 <= index
        }),
{
    let keep = rules.max_sil_kept as int;
    if index - start <= keep {
        lemma_quietest(levels, start, index);
    } else {
        lemma_quietest(levels, start, start + keep);
        lemma_quietest(levels, index - keep, index);
        if index - start <= 2 * keep {
            lemma_quietest(
                levels,
                index - keep,
                at_most_int(start + keep, levels.len() - 1),
            );
        }
    }
}

/// The silences cut among the first `n` frames are in order and lie before a loud frame.
proof fn lemma_tags_upto(levels: Seq<u32>, threshold: u32, rules: FrameRules, n: int)
    requires
        0 <= n <= levels.len(),
    ensures
        ordered(tags_upto(levels, threshold, rules, n)),
        tags_upto(levels, threshold, rules, n).len() > 0 ==> exists|j: int|
            tags_upto(levels, threshold, rules, n).last().1 <= j < n && !#[trigger] quiet(
                levels,
                threshold,
                j,
            ),
        clip_start(tags_upto(levels, threshold, rules, n)) <= n,
        0 <= clip_start(tags_upto(levels, threshold, rules, n)),
        tags_upto(levels, threshold, rules, n).len() <= n,
    decreases n,
{
    if n > 0 {
        lemma_tags_upto(levels, threshold, rules, n - 1);
        let before = tags_upto(levels, threshold, rules, n - 1);
        let after = tags_upto(levels, threshold, rules, n);
        let index = n - 1;
        let start = silence_start(levels, threshold, index);
        lemma_silence_start(levels, threshold, index);
        if !quiet(levels, threshold, index) && start < index && cuts(
            rules,
            start,
            index,
            clip_start(before),
        ) {
            lemma_silence_tag(levels, rules, start, index);
            let tag = silence_tag(levels, rules, start, index);
            assert(after == before.push(tag));
            if before.len() > 0 {
                let j = choose|j: int|
                    before.last().1 <= j < n - 1 && !#[trigger] quiet(levels, threshold, j);
                assert(j < start);
                assert(before.last().1 <= tag.0);
            }
            assert forall|i: int, j: int| 0 <= i < j < after.len() implies (
            #[trigger] after[i]).1 <= (#[trigger] after[j]).0 by {
                if j == before.len() {
                    if i < before.len() - 1 {
                        assert(before[i].1 <= before.last().0);
                    }
                }
            }
            assert(!quiet(levels, threshold, index));
            assert(after.last().1 <= index);
        } else {
            assert(after == before);
            if before.len() > 0 {
                let j = choose|j: int|
                    before.last().1 <= j < n - 1 && !#[trigger] quiet(levels, threshold, j);
                assert(!quiet(levels, threshold, j));
            }
        }
    }
}

/// The cut silences are in order; only a silence at the end reaches past the frames.
proof fn lemma_silence_tags(levels: Seq<u32>, threshold: u32, rules: FrameRules)
    ensures
        ordered(silence_tags(levels, threshold, rules)),
        forall|i: int|
            0 <= i < silence_tags(levels, threshold, rules).len() ==> (
            #[trigger] silence_tags(levels, threshold, rules)[i]).0 < levels.len(),
        forall|i: int|
            0 <= i < silence_tags(levels, threshold, rules).len() ==> (
            #[trigger] silence_tags(levels, threshold, rules)[i]).1 < levels.len() || (
            silence_tags(levels, threshold, rules)[i].1 == levels.len() + 1 && i + 1
                == silence_tags(levels, threshold, rules).len()),
{
    let n = levels.len() as int;
    let inner = tags_upto(levels, threshold, rules, n);
    let start = silence_start(levels, threshold, n);
    let tags = silence_tags(levels, threshold, rules);
    lemma_tags_upto(levels, threshold, rules, n);
    lemma_silence_start(levels, threshold, n);
    if inner.len() > 0 {
        let j = choose|j: int| inner.last().1 <= j < n && !#[trigger] quiet(levels, threshold, j);
        assert(inner.last().1 < n);
        assert(start < n ==> j < start);
        assert forall|i: int| 0 <= i < inner.len() implies (#[trigger] inner[i]).1 < n && inner[i].0
            < n by {
            if i < inner.len() - 1 {
                assert(inner[i].1 <= inner.last().0);
            }
        }
    }
    if start < n && n - start >= rules.min_interval {
        let end = at_most_int(start + rules.max_sil_kept, n - 1);
        lemma_quietest(levels, start, end);
        assert forall|i: int, j: int| 0 <= i < j < tags.len() implies (#[trigger] tags[i]).1 <= (
        #[trigger] tags[j]).0 by {
            if j == inner.len() && i < inner.len() - 1 {
                assert(inner[i].1 <= inner.last().0);
            }
        }
    }
}

/// The first of the quietest frames from `a` to `b`.
fn argmin(levels: &[u32], a: usize, b: usize) -> (best: usize)
    requires
        a <= b < levels.len(),
    ensures
        best == quietest(levels@, a as int, b as int),
        a <= best <= b,
{
    let mut best: usize = a;
    let mut i: usize = a;
    while i < b
        invariant
            a <= best <= i <= b < levels.len(),
            best == quietest(levels@, a as int, i as int),
        decreases b - i,
    {
        i += 1;
        if less_bits(levels[i], levels[best]) {
            best = i;
        }
    }
    best
}

fn smaller(a: usize, b: usize) -> (m: usize)
    ensures
        m == at_most_int(a as int, b as int),
{
    if a > b {
        b
    } else {
        a
    }
}

fn larger(a: usize, b: usize) -> (m: usize)
    ensures
        m == at_least(a as int, b as int),
{
    if a < b {
        b
    } else {
        a
    }
}

fn tag_silence(levels: &[u32], rules: &FrameRules, start: usize, index: usize) -> (tag: (
    usize,
    usize,
))
    requires
        start < index < levels.len(),
    ensures
        (tag.0 as int, tag.1 as int) == silence_tag(levels@, *rules, start as int, index as int),
{
    let keep: usize = rules.max_sil_kept;
    if index - start <= keep {
        let pos: usize = argmin(levels, start, index);
        (if start == 0 {
            0
        } else {
            pos
        }, pos)
    } else if index - start - keep <= keep {
        let lo: usize = index - keep;
        let hi: usize = smaller(start + keep, levels.len() - 1);
        let pos: usize = argmin(levels, lo, hi);
        let pos_l: usize = argmin(levels, start, start + keep);
        let pos_r: usize = argmin(levels, lo, index);
        if start == 0 {
            (0, pos_r)
        } else {
            (smaller(pos_l, pos), larger(pos_r, pos))
        }
    } else {
        let pos_l: usize = argmin(levels, start, start + keep);
        let pos_r: usize = argmin(levels, index - keep, index);
        (if start == 0 {
            0
        } else {
            pos_l
        }, pos_r)
    }
}

pub open spec fn pair_views(v: Seq<(usize, usize)>) -> Seq<(int, int)> {
    v.map_values(|t: (usize, usize)| (t.0 as int, t.1 as int))
}

/// Finds the silences to cut.
fn find_silences(levels: &[u32], threshold: u32, rules: &FrameRules) -> (tags: Vec<(usize, usize)>)
    requires
        levels.len() < usize::MAX,
    ensures
        pair_views(tags@) == silence_tags(levels@, threshold, *rules),
{
    let n: usize = levels.len();
    let mut tags: Vec<(usize, usize)> = Vec::new();
    let mut silence: Option<usize> = None;
    let mut clip: usize = 0;
    let mut index: usize = 0;
    while index < n
        invariant
            index <= n == levels.len(),
            pair_views(tags@) == tags_upto(levels@, threshold, *rules, index as int),
            clip == clip_start(tags_upto(levels@, threshold, *rules, index as int)),
            match silence {
                Some(start) => start < index && start == silence_start(
                    levels@,
                    threshold,
                    index as int,
                ),
                None => silence_start(levels@, threshold, index as int) == index,
            },
        decreases n - index,
    {
        proof {
            lemma_tags_upto(levels@, threshold, *rules, index as int);
        }
        if less_bits(levels[index], threshold) {
            if silence.is_none() {
                silence = Some(index);
            }
        } else {
            if let Some(start) = silence {
                let leading: bool = start == 0 && index > rules.max_sil_kept;
                let middle: bool = index - start >= rules.min_interval && index - clip
                    >= rules.min_length;
                if leading || middle {
                    let tag: (usize, usize) = tag_silence(levels, rules, start, index);
                    let ghost before = tags@;
                    tags.push(tag);
                    clip = tag.1;
                    assert(pair_views(tags@) =~= pair_views(before).push(
                        (tag.0 as int, tag.1 as int),
                    ));
                }
                silence = None;
            }
        }
        index += 1;
    }
    if let Some(start) = silence {
        if n - start >= rules.min_interval {
            let end: usize = if rules.max_sil_kept > n - 1 - start {
                n - 1
            } else {
                start + rules.max_sil_kept
            };
            let pos: usize = argmin(levels, start, end);
            let ghost before = tags@;
            tags.push((pos, n + 1));
            assert(pair_views(tags@) =~= pair_views(before).push((pos as int, n + 1)));
        }
    }
    tags
}

/// The chunk of the clip from frame `begin` up to frame `end`.
fn apply_slice<T: Copy>(
    samples: &[T],
    hop_size: usize,
    win_size: usize,
    n_frames: usize,
    begin: usize,
    end: usize,
) -> (chunk: SliceChunk<T>)
    requires
        samples.len() >= 1,
        hop_size >= 1,
        win_size >= 1,
        n_frames == frame_count(samples.len() as int, win_size as int, hop_size as int),
        begin <= end <= n_frames,
        begin < n_frames,
    ensures
        chunk@ == clip_of(samples@, hop_size as int, (begin as int, end as int)),
{
    proof {
        let len = samples.len() as int;
        lemma_windows(len, win_size as int, hop_size as int, begin as int);
        if end < n_frames {
            lemma_windows(len, win_size as int, hop_size as int, end as int);
            assert(begin * hop_size <= end * hop_size) by (nonlinear_arith)
                requires
                    begin <= end,
                    hop_size >= 1,
            ;
        } else {
            let total = len + 2 * (win_size as int / 2) - win_size as int;
            vstd::arithmetic::div_mod::lemma_fundamental_div_mod(total, hop_size as int);
            let q = total / hop_size as int;
            assert(total % hop_size as int + 1 <= hop_size) by (nonlinear_arith)
                requires
                    hop_size >= 1,
            ;
            assert((q + 1) * hop_size == hop_size * q + hop_size) by (nonlinear_arith);
            assert(n_frames * hop_size >= len);
        }
    }
    let start: usize = begin * hop_size;
    let stop: usize = if end >= n_frames {
        samples.len()
    } else {
        end * hop_size
    };
    SliceChunk { slice_start: start, split_start: 0, waveform: copy_range(samples, start, stop) }
}

/// The message on a field of the slicer configuration that has to be positive.
pub open spec fn slicer_field_text(field: Seq<char>) -> Seq<char> {
    "slicer config `"@ + field + "` must be positive"@
}

fn slicer_field_error(field: &str) -> (e: Error)
    ensures
        e@ == slicer_field_text(field@),
{
    let mut text = String::from_str("slicer config `");
    text.append(field);
    text.append("` must be positive");
    Error::from_text(text)
}

/// The chunks are those of a waveform that is cut by some rules: all of it where it has
/// no more hops than the shortest clip, and what slicing at the metered levels gives
/// otherwise.
pub open spec fn are_slices<T, M: Fn(&[T], usize, usize, usize) -> u32>(
    chunks: Seq<ChunkView<T>>,
    samples: &[T],
    rules: FrameRules,
    threshold: u32,
    meter: M,
) -> bool {
    if samples.len() <= rules.min_length * rules.hop_size {
        chunks == seq![whole(samples@)]
    } else {
        exists|levels: Seq<u32>| #[trigger]
            metered(samples, rules.win_size as int, rules.hop_size as int, meter, levels)
                && chunks == sliced(samples@, levels, threshold, rules)
    }
}

/// Cuts a waveform at its silences. A waveform of no more hops than the shortest
/// clip stays whole; otherwise `meter` gives the level of each window, and what
/// is below `threshold` is silent. Levels and threshold are bit patterns of
/// single-precision numbers. `wide` gives `rate * ms / 1000 / hop` in double precision,
/// rounded.
pub fn slice_waveform<
    T: Copy,
    M: Fn(&[T], usize, usize, usize) -> u32,
    W: Fn(usize, usize, usize) -> usize,
>(
    samples: &[T],
    cfg: &SlicerConfig,
    threshold: u32,
    meter: M,
    wide: W,
) -> (r: Result<Vec<SliceChunk<T>>, Error>)
    requires
        cfg.sample_rate * cfg.hop_ms <= usize::MAX,
        4 * hop_size_of(*cfg) <= usize::MAX,
        forall|win: usize| #[trigger]
            is_window(*cfg, wide, win) ==> samples.len() + win <= usize::MAX,
        takes_stretches(wide),
        forall|from: usize, to: usize, win: usize|
            from <= to <= samples.len() ==> call_requires(meter, (samples, from, to, win)),
    ensures
        match r {
            Ok(chunks) => {
                &&& cfg.sample_rate > 0 && cfg.hop_ms > 0 && cfg.min_interval_ms > 0
                &&& exists|rules: FrameRules| #[trigger]
                    are_rules(*cfg, wide, rules) && are_slices(
                        chunk_views(chunks@),
                        samples,
                        rules,
                        threshold,
                        meter,
                    )
            },
            Err(e) => if cfg.sample_rate == 0 {
                e@ == slicer_field_text("sample_rate"@)
            } else if cfg.hop_ms == 0 {
                e@ == slicer_field_text("hop_ms"@)
            } else {
                cfg.min_interval_ms == 0 && e@ == slicer_field_text("min_interval_ms"@)
            },
        },
{
    if cfg.sample_rate == 0 {
        return Err(slicer_field_error("sample_rate"));
    }
    if cfg.hop_ms == 0 {
        return Err(slicer_field_error("hop_ms"));
    }
    if cfg.min_interval_ms == 0 {
        return Err(slicer_field_error("min_interval_ms"));
    }
    let rules = frame_rules(cfg, &wide);
    let hop_size: usize = rules.hop_size;
    let mut hops: usize = samples.len() / hop_size;
    if samples.len() % hop_size != 0 {
        hops += 1;
    }
    proof {
        let len = samples.len() as int;
        let hop = hop_size as int;
        let q = len / hop;
        vstd::arithmetic::div_mod::lemma_fundamental_div_mod(len, hop);
        let m = len % hop;
        assert(0 <= m < hop) by (nonlinear_arith)
            requires
                hop >= 1,
                m == len % hop,
        ;
        let least = rules.min_length as int;
        if hops <= least {
            assert(len <= least * hop) by (nonlinear_arith)
                requires
                    len == hop * q + m,
                    0 <= m < hop,
                    hops == (if m != 0 {
                        q + 1
                    } else {
                        q
                    }),
                    hops <= least,
                    hop >= 1,
            ;
        } else {
            assert(len > least * hop) by (nonlinear_arith)
                requires
                    len == hop * q + m,
                    0 <= m < hop,
                    hops == (if m != 0 {
                        q + 1
                    } else {
                        q
                    }),
                    hops > least,
                    hop >= 1,
            ;
        }
    }
    if hops <= rules.min_length {
        let mut chunks: Vec<SliceChunk<T>> = Vec::new();
        chunks.push(SliceChunk { slice_start: 0, split_start: 0, waveform: copy_all(samples) });
        assert(chunk_views(chunks@) =~= seq![whole(samples@)]);
        assert(are_slices(chunk_views(chunks@), samples, rules, threshold, meter));
        return Ok(chunks);
    }
    let levels = frame_rms(samples, rules.win_size, hop_size, meter);
    let chunks = cut_at_silences(samples, &levels, threshold, &rules);
    assert(metered(samples, rules.win_size as int, rules.hop_size as int, meter, levels@));
    assert(are_slices(chunk_views(chunks@), samples, rules, threshold, meter));
    Ok(chunks)
}

/// Cuts a waveform at the silences among the given window levels.
pub fn cut_at_silences<T: Copy>(
    samples: &[T],
    levels: &[u32],
    threshold: u32,
    rules: &FrameRules,
) -> (chunks: Vec<SliceChunk<T>>)
    requires
        samples.len() >= 1,
        samples.len() + rules.win_size <= usize::MAX,
        rules.hop_size >= 1,
        rules.win_size >= 1,
        levels.len() == frame_count(
            samples.len() as int,
            rules.win_size as int,
            rules.hop_size as int,
        ),
    ensures
        chunk_views(chunks@) == sliced(samples@, levels@, threshold, *rules),
{
    let n: usize = levels.len();
    let hop: usize = rules.hop_size;
    proof {
        lemma_windows(samples.len() as int, rules.win_size as int, hop as int, 0);
        lemma_silence_tags(levels@, threshold, *rules);
    }
    let tags = find_silences(levels, threshold, rules);
    let ghost all = silence_tags(levels@, threshold, *rules);
    let ghost clips = clip_frames(all, n as int);
    let ghost make = |f: (int, int)| clip_of(samples@, hop as int, f);
    let mut chunks: Vec<SliceChunk<T>> = Vec::new();
    assert(forall|i: int|
        0 <= i < tags@.len() ==> (#[trigger] tags@[i]).0 as int == all[i].0 && tags@[i].1 as int
            == all[i].1) by {
        assert forall|i: int| 0 <= i < tags@.len() implies (#[trigger] tags@[i]).0 as int
            == all[i].0 && tags@[i].1 as int == all[i].1 by {
            assert(pair_views(tags@)[i] == all[i]);
        }
    }
    assert(tags@.len() == all.len()) by {
        assert(pair_views(tags@).len() == all.len());
    }
    if tags.len() > 0 {
        let ghost first = if all[0].0 > 0 {
            seq![(0int, all[0].0)]
        } else {
            Seq::empty()
        };
        let ghost between = Seq::new((all.len() - 1) as nat, |i: int| (all[i].1, all[i + 1].0));
        if tags[0].0 > 0 {
            chunks.push(apply_slice(samples, hop, rules.win_size, n, 0, tags[0].0));
        }
        assert(chunk_views(chunks@) =~= first.map_values(make));
        let mut i: usize = 0;
        while i + 1 < tags.len()
            invariant
                i < tags.len(),
                n == levels.len(),
                hop == rules.hop_size,
                hop >= 1,
                rules.win_size >= 1,
                samples.len() >= 1,
                n == frame_count(samples.len() as int, rules.win_size as int, hop as int),
                all == silence_tags(levels@, threshold, *rules),
                ordered(all),
                forall|j: int| 0 <= j < all.len() ==> (#[trigger] all[j]).0 < n,
                forall|j: int|
                    0 <= j < all.len() ==> (#[trigger] all[j]).1 < n || j + 1 == all.len(),
                tags@.len() == all.len(),
                forall|j: int|
                    0 <= j < tags@.len() ==> (#[trigger] tags@[j]).0 as int == all[j].0
                        && tags@[j].1 as int == all[j].1,
                between == Seq::new((all.len() - 1) as nat, |j: int| (all[j].1, all[j + 1].0)),
                make == (|f: (int, int)| clip_of(samples@, hop as int, f)),
                chunk_views(chunks@) == (first + between.take(i as int)).map_values(make),
            decreases tags.len() - i,
        {
            let begin: usize = tags[i].1;
            let end: usize = tags[i + 1].0;
            proof {
                assert(all[i as int].1 <= all[i + 1].0);
            }
            let ghost before = chunks@;
            chunks.push(apply_slice(samples, hop, rules.win_size, n, begin, end));
            proof {
                assert(between[i as int] == (begin as int, end as int));
                assert(chunk_views(chunks@) =~= chunk_views(before).push(
                    make((begin as int, end as int)),
                ));
                assert((first + between.take(i as int + 1)).map_values(make) =~= (first
                    + between.take(i as int)).map_values(make).push(make(between[i as int])));
            }
            i += 1;
        }
        let end: usize = tags[tags.len() - 1].1;
        assert(between.take(i as int) =~= between);
        if end < n {
            let ghost before = chunks@;
            chunks.push(apply_slice(samples, hop, rules.win_size, n, end, n));
            proof {
                assert(chunk_views(chunks@) =~= chunk_views(before).push(
                    make((end as int, n as int)),
                ));
                assert(clips == first + between + seq![(end as int, n as int)]);
                assert(clips.map_values(make) =~= (first + between).map_values(make).push(
                    make((end as int, n as int)),
                ));
            }
        } else {
            assert(clips =~= first + between);
        }
        assert(chunk_views(chunks@) =~= clips.map_values(make));
    }
    if chunks.len() == 0 {
        assert(clips.len() == 0) by {
            assert(chunk_views(chunks@).len() == 0);
        }
        chunks.push(SliceChunk { slice_start: 0, split_start: 0, waveform: copy_all(samples) });
        assert(chunk_views(chunks@) =~= seq![whole(samples@)]);
    } else {
        assert(clips.len() > 0) by {
            assert(chunk_views(chunks@).len() > 0);
        }
    }
    chunks
}

/// Slices lie in the waveform one after the other without overlap, and each
/// holds exactly the samples of its place.
pub proof fn law_slices_in_order<T>(
    samples: Seq<T>,
    levels: Seq<u32>,
    threshold: u32,
    rules: FrameRules,
)
    requires
        samples.len() >= 1,
        rules.hop_size >= 1,
        rules.win_size >= 1,
        levels.len() == frame_count(
            samples.len() as int,
            rules.win_size as int,
            rules.hop_size as int,
        ),
    ensures
        sliced(samples, levels, threshold, rules).len() >= 1,
        forall|i: int|
            0 <= i < sliced(samples, levels, threshold, rules).len() ==> {
                let c = #[trigger] sliced(samples, levels, threshold, rules)[i];
                0 <= c.slice_start && c.slice_start + c.waveform.len() <= samples.len()
                    && c.split_start == 0 && c.waveform == samples.subrange(
                    c.slice_start,
                    c.slice_start + c.waveform.len(),
                )
            },
        forall|i: int, j: int|
            0 <= i < j < sliced(samples, levels, threshold, rules).len() ==> {
                let a = #[trigger] sliced(samples, levels, threshold, rules)[i];
                let b = #[trigger] sliced(samples, levels, threshold, rules)[j];
                a.slice_start + a.waveform.len() <= b.slice_start
            },
{
    let n = levels.len() as int;
    let hop = rules.hop_size as int;
    let len = samples.len() as int;
    let tags = silence_tags(levels, threshold, rules);
    let clips = clip_frames(tags, n);
    let out = sliced(samples, levels, threshold, rules);
    lemma_silence_tags(levels, threshold, rules);
    lemma_clips_in_order(tags, n);
    if clips.len() == 0 {
        assert(samples.subrange(0, len) =~= samples);
    } else {
        assert forall|i: int| 0 <= i < out.len() implies {
            let c = #[trigger] out[i];
            0 <= c.slice_start && c.slice_start + c.waveform.len() <= len && c.split_start == 0
                && c.waveform == samples.subrange(c.slice_start, c.slice_start + c.waveform.len())
        } by {
            lemma_clip_bounds(len, rules, clips[i], n);
            assert(out[i] == clip_of(samples, hop, clips[i]));
        }
        assert forall|i: int, j: int| 0 <= i < j < out.len() implies {
            let a = #[trigger] out[i];
            let b = #[trigger] out[j];
            a.slice_start + a.waveform.len() <= b.slice_start
        } by {
            lemma_clip_bounds(len, rules, clips[i], n);
            lemma_clip_bounds(len, rules, clips[j], n);
            assert(clips[i].1 <= clips[j].0);
            assert(clips[i].1 * hop <= clips[j].0 * hop) by (nonlinear_arith)
                requires
                    clips[i].1 <= clips[j].0,
                    hop >= 1,
            ;
        }
    }
}

/// A silence is cut from quiet frames only.
proof fn lemma_tag_is_quiet(
    levels: Seq<u32>,
    threshold: u32,
    rules: FrameRules,
    index: int,
)
    requires
        0 <= index < levels.len(),
        silence_start(levels, threshold, index) < index,
    ensures
        ({
            let tag = silence_tag(
                levels,
                rules,
                silence_start(levels, threshold, index),
                index,
            );
            forall|j: int| tag.0 <= j < tag.1 ==> #[trigger] quiet(levels, threshold, j)
        }),
{
    lemma_silence_start(levels, threshold, index);
    lemma_silence_tag(levels, rules, silence_start(levels, threshold, index), index);
}

/// The silences cut among the first `n` frames are of quiet frames.
proof fn lemma_tags_upto_are_quiet(
    levels: Seq<u32>,
    threshold: u32,
    rules: FrameRules,
    n: int,
    i: int,
    j: int,
)
    requires
        0 <= n <= levels.len(),
        0 <= i < tags_upto(levels, threshold, rules, n).len(),
        tags_upto(levels, threshold, rules, n)[i].0 <= j < tags_upto(
            levels,
            threshold,
            rules,
            n,
        )[i].1,
    ensures
        quiet(levels, threshold, j),
    decreases n,
{
    let before = tags_upto(levels, threshold, rules, n - 1);
    if i < before.len() {
        lemma_tags_upto_are_quiet(levels, threshold, rules, n - 1, i, j);
    } else {
        lemma_tag_is_quiet(levels, threshold, rules, n - 1);
    }
}

/// Every cut silence is of quiet frames.
proof fn lemma_tags_are_quiet(
    levels: Seq<u32>,
    threshold: u32,
    rules: FrameRules,
    i: int,
    j: int,
)
    requires
        0 <= i < silence_tags(levels, threshold, rules).len(),
        silence_tags(levels, threshold, rules)[i].0 <= j < silence_tags(
            levels,
            threshold,
            rules,
        )[i].1,
        j < levels.len(),
    ensures
        quiet(levels, threshold, j),
{
    let n = levels.len() as int;
    let inner = tags_upto(levels, threshold, rules, n);
    if i < inner.len() {
        lemma_tags_upto_are_quiet(levels, threshold, rules, n, i, j);
    } else {
        let start = silence_start(levels, threshold, n);
        lemma_silence_start(levels, threshold, n);
        lemma_quietest(levels, start, at_most_int(start + rules.max_sil_kept, n - 1));
    }
}

/// A frame in none of the silences lies in a clip.
proof fn lemma_frame_in_clip(tags: Seq<(int, int)>, n: int, f: int) -> (c: int)
    requires
        ordered(tags),
        tags.len() > 0,
        0 <= f < n,
        forall|i: int| 0 <= i < tags.len() ==> !((#[trigger] tags[i]).0 <= f < tags[i].1),
    ensures
        0 <= c < clip_frames(tags, n).len(),
        clip_frames(tags, n)[c].0 <= f < clip_frames(tags, n)[c].1,
{
    let shift: int = if tags[0].0 > 0 {
        1
    } else {
        0
    };
    let clips = clip_frames(tags, n);
    if f < tags[0].0 {
        assert(clips[0] == (0int, tags[0].0));
        0
    } else {
        let k = lemma_last_begun(tags, f, tags.len() as int);
        assert(tags[k].1 <= f);
        if k + 1 < tags.len() {
            assert(clips[k + shift] == (tags[k].1, tags[k + 1].0));
        } else {
            assert(clips[k + shift] == (tags[k].1, n));
        }
        k + shift
    }
}

/// The last of the first `m` silences that begins at or before frame `f`.
proof fn lemma_last_begun(tags: Seq<(int, int)>, f: int, m: int) -> (k: int)
    requires
        1 <= m <= tags.len(),
        tags[0].0 <= f,
        m < tags.len() ==> f < tags[m].0,
    ensures
        0 <= k < m,
        tags[k].0 <= f,
        k + 1 < tags.len() ==> f < tags[k + 1].0,
    decreases m,
{
    if tags[m - 1].0 <= f {
        m - 1
    } else {
        lemma_last_begun(tags, f, m - 1)
    }
}

/// Slicing drops only silence: a sample that is in no slice lies in a frame whose level
/// is below the threshold.
pub proof fn law_only_silence_is_dropped<T>(
    samples: Seq<T>,
    levels: Seq<u32>,
    threshold: u32,
    rules: FrameRules,
    s: int,
)
    requires
        0 <= s < samples.len(),
        rules.hop_size >= 1,
        rules.win_size >= 1,
        levels.len() == frame_count(
            samples.len() as int,
            rules.win_size as int,
            rules.hop_size as int,
        ),
        forall|i: int|
            0 <= i < sliced(samples, levels, threshold, rules).len() ==> {
                let c = #[trigger] sliced(samples, levels, threshold, rules)[i];
                !(c.slice_start <= s < c.slice_start + c.waveform.len())
            },
    ensures
        0 <= s / rules.hop_size as int,
        s / (rules.hop_size as int) < levels.len(),
        quiet(levels, threshold, s / rules.hop_size as int),
{
    let n = levels.len() as int;
    let hop = rules.hop_size as int;
    let len = samples.len() as int;
    let f = s / hop;
    let tags = silence_tags(levels, threshold, rules);
    let clips = clip_frames(tags, n);
    let out = sliced(samples, levels, threshold, rules);
    lemma_frame_of_sample(len, rules.win_size as int, hop, s);
    lemma_silence_tags(levels, threshold, rules);
    lemma_clips_in_order(tags, n);
    if clips.len() == 0 {
        assert(out[0] == whole(samples));
    } else if !quiet(levels, threshold, f) {
        assert forall|i: int| 0 <= i < tags.len() implies !((#[trigger] tags[i]).0 <= f
            < tags[i].1) by {
            if tags[i].0 <= f < tags[i].1 {
                lemma_tags_are_quiet(levels, threshold, rules, i, f);
            }
        }
        let c = lemma_frame_in_clip(tags, n, f);
        lemma_clip_bounds(len, rules, clips[c], n);
        assert(clips[c].0 * hop <= f * hop && (f + 1) * hop <= clips[c].1 * hop)
            by (nonlinear_arith)
            requires
                clips[c].0 <= f < clips[c].1,
                hop >= 1,
        ;
        assert(out[c] == clip_of(samples, hop, clips[c]));
    }
}

/// Every sample lies in a frame.
proof fn lemma_frame_of_sample(len: int, win: int, hop: int, s: int)
    requires
        0 <= s < len,
        win >= 1,
        hop >= 1,
    ensures
        0 <= s / hop < frame_count(len, win, hop),
        (s / hop) * hop <= s < (s / hop + 1) * hop,
{
    let f = s / hop;
    vstd::arithmetic::div_mod::lemma_fundamental_div_mod(s, hop);
    let m = s % hop;
    assert(0 <= m < hop) by (nonlinear_arith)
        requires
            hop >= 1,
            m == s % hop,
    ;
    assert(f * hop == hop * f && (f + 1) * hop == hop * f + hop) by (nonlinear_arith);
    let total = len + 2 * (win / 2) - win;
    let q = total / hop;
    vstd::arithmetic::div_mod::lemma_fundamental_div_mod(total, hop);
    let r = total % hop;
    assert(0 <= r < hop) by (nonlinear_arith)
        requires
            hop >= 1,
            r == total % hop,
    ;
    assert(f >= 0 && f <= q) by (nonlinear_arith)
        requires
            s == hop * f + m,
            0 <= m < hop,
            total == hop * q + r,
            0 <= r < hop,
            0 <= s <= total,
            hop >= 1,
    ;
}

proof fn lemma_clips_in_order(tags: Seq<(int, int)>, n: int)
    requires
        ordered(tags),
        n >= 1,
        forall|i: int| 0 <= i < tags.len() ==> (#[trigger] tags[i]).0 < n,
        forall|i: int| 0 <= i < tags.len() ==> (#[trigger] tags[i]).1 < n || i + 1 == tags.len(),
    ensures
        forall|i: int|
            0 <= i < clip_frames(tags, n).len() ==> 0 <= (#[trigger] clip_frames(tags, n)[i]).0
                <= clip_frames(tags, n)[i].1 <= n && clip_frames(tags, n)[i].0 < n,
        forall|i: int, j: int|
            0 <= i < j < clip_frames(tags, n).len() ==> (#[trigger] clip_frames(tags, n)[i]).1 <= (
            #[trigger] clip_frames(tags, n)[j]).0,
{
    let clips = clip_frames(tags, n);
    if tags.len() > 0 {
        let shift: int = if tags[0].0 > 0 {
            1
        } else {
            0
        };
        // Clip `i` begins at the end of tag `i - shift` and ends at the start of the next one.
        assert forall|i: int| 0 <= i < clips.len() implies 0 <= (#[trigger] clips[i]).0
            <= clips[i].1 <= n && clips[i].0 < n && clips[i].0 == (if i - shift < 0 {
            0
        } else {
            tags[i - shift].1
        }) && clips[i].1 == (if i - shift + 1 < tags.len() {
            tags[i - shift + 1].0
        } else {
            n
        }) by {
            if shift <= i < shift + tags.len() - 1 {
                assert(tags[i - shift].1 <= tags[i - shift + 1].0);
            }
        }
        assert forall|i: int, j: int| 0 <= i < j < clips.len() implies (#[trigger] clips[i]).1 <= (
        #[trigger] clips[j]).0 by {
            let a = i - shift + 1;
            let b = j - shift;
            assert(clips[i].1 == tags[a].0);
            assert(clips[j].0 == tags[b].1);
            assert(tags[a].0 <= tags[a].1);
            if a < b {
                assert(tags[a].1 <= tags[b].0);
            }
        }
    }
}

proof fn lemma_clip_bounds(len: int, rules: FrameRules, frames: (int, int), n: int)
    requires
        len >= 1,
        rules.hop_size >= 1,
        rules.win_size >= 1,
        n == frame_count(len, rules.win_size as int, rules.hop_size as int),
        0 <= frames.0 <= frames.1 <= n,
        frames.0 < n,
    ensures
        0 <= frames.0 * rules.hop_size <= at_most_int(frames.1 * rules.hop_size, len),
{
    lemma_windows(len, rules.win_size as int, rules.hop_size as int, frames.0);
    assert(frames.0 * rules.hop_size <= frames.1 * rules.hop_size) by (nonlinear_arith)
        requires
            frames.0 <= frames.1,
            rules.hop_size >= 1,
    ;
}

// ---------------------------------------------------------------------------
// What slicing gives, said of the levels alone
// ---------------------------------------------------------------------------
/// The frames from `s` up to `e` are a silence: all are below the threshold, and the
/// frames next to them are not.
pub open spec fn is_silence(levels: Seq<u32>, threshold: u32, s: int, e: int) -> bool {
    &&& 0 <= s < e <= levels.len()
    &&& forall|i: int| s <= i < e ==> less(#[trigger] levels[i], threshold)
    &&& s > 0 ==> !less(levels[s - 1], threshold)
    &&& e < levels.len() ==> !less(levels[e], threshold)
}

/// Frame `p` is the first of the quietest frames from `a` to `b`, both counted.
pub open spec fn is_quietest(levels: Seq<u32>, a: int, b: int, p: int) -> bool {
    &&& a <= p <= b
    &&& forall|i: int| a <= i <= b ==> !less(#[trigger] levels[i], levels[p])
    &&& forall|i: int| a <= i < p ==> less(levels[p], #[trigger] levels[i]) || is_nan(levels[i])
    &&& is_nan(levels[a]) ==> p == a
}

/// A silence from `s` up to `e` is cut out from `l` to `r`. A short one is cut in two
/// where it is quietest. Of a longer one `keep` frames at both ends are searched, each
/// for its quietest frame, and what lies between is cut out; where the two ends overlap,
/// the quietest frame of both lies in what is cut out.
pub open spec fn is_gap(levels: Seq<u32>, keep: int, s: int, e: int, l: int, r: int) -> bool {
    if e - s <= keep {
        l == r && is_quietest(levels, s, e, l)
    } else {
        exists|a: int, b: int, p: int|
            #![trigger is_quietest(levels, s, s + keep, a), is_quietest(levels, e - keep, e, b),
                is_quietest(levels, e - keep, s + keep, p)]
            {
                &&& is_quietest(levels, s, s + keep, a)
                &&& is_quietest(levels, e - keep, e, b)
                &&& if e - s <= 2 * keep {
                    &&& is_quietest(levels, e - keep, s + keep, p)
                    &&& l == if a <= p {
                        a
                    } else {
                        p
                    }
                    &&& r == if b >= p {
                        b
                    } else {
                        p
                    }
                } else {
                    l == a && r == b
                }
            }
    }
}

/// The first clip begins at frame `b`: at the first frame, unless the audio begins with a
/// silence that is longer than what is kept or as long as any that is cut.
pub open spec fn begins_at(levels: Seq<u32>, threshold: u32, rules: FrameRules, b: int) -> bool {
    let keep = rules.max_sil_kept as int;
    &&& !less(levels[0], threshold) ==> b == 0
    &&& forall|e: int| #[trigger]
        is_silence(levels, threshold, 0, e) ==> if e < levels.len() && (e > keep || (e
            >= rules.min_interval && e >= rules.min_length)) {
            is_quietest(
                levels,
                if e <= keep {
                    0
                } else {
                    e - keep
                },
                e,
                b,
            )
        } else {
            b == 0
        }
}

/// The last clip ends at frame `f`: with the last frame, unless the audio ends with a
/// silence of sufficient length, which is cut off where it is quietest at its beginning.
pub open spec fn ends_at(levels: Seq<u32>, threshold: u32, rules: FrameRules, f: int) -> bool {
    let n = levels.len() as int;
    let keep = rules.max_sil_kept as int;
    &&& !less(levels[n - 1], threshold) ==> f == n
    &&& forall|s: int| #[trigger]
        is_silence(levels, threshold, s, n) ==> if n - s >= rules.min_interval {
            is_quietest(
                levels,
                s,
                if s + keep <= n - 1 {
                    s + keep
                } else {
                    n - 1
                },
                f,
            )
        } else {
            f == n
        }
}

/// A silence within the audio that ends a clip which began at frame `b`: it is long
/// enough, and its end is far enough from the beginning of the clip.
pub open spec fn ends_clip(
    levels: Seq<u32>,
    threshold: u32,
    rules: FrameRules,
    b: int,
    s: int,
    e: int,
) -> bool {
    &&& is_silence(levels, threshold, s, e)
    &&& 0 <= b < s
    &&& e < levels.len()
    &&& e - s >= rules.min_interval
    &&& e - b >= rules.min_length
}

/// Between one clip and the next a silence is cut out that ends the first of them.
pub open spec fn are_parted(
    levels: Seq<u32>,
    threshold: u32,
    rules: FrameRules,
    clip: (int, int),
    next: (int, int),
) -> bool {
    exists|s: int, e: int|
        ends_clip(levels, threshold, rules, clip.0, s, e) && #[trigger] is_gap(
            levels,
            rules.max_sil_kept as int,
            s,
            e,
            clip.1,
            next.0,
        )
}

/// The clips, as ranges of frames. Between two clips a silence is cut out that ends the
/// first of them, and no clip goes on beyond a silence that ends it.
pub open spec fn are_clips(
    clips: Seq<(int, int)>,
    levels: Seq<u32>,
    threshold: u32,
    rules: FrameRules,
) -> bool {
    let n = levels.len() as int;
    &&& clips.len() > 0
    &&& forall|i: int| 0 <= i < clips.len() ==> 0 <= (#[trigger] clips[i]).0 < clips[i].1 <= n
    &&& begins_at(levels, threshold, rules, clips[0].0)
    &&& ends_at(levels, threshold, rules, clips.last().1)
    &&& forall|i: int|
        0 <= i < clips.len() - 1 ==> are_parted(
            levels,
            threshold,
            rules,
            #[trigger] clips[i],
            clips[i + 1],
        )
    &&& forall|i: int, s: int, e: int|
        0 <= i < clips.len() && #[trigger] ends_clip(
            levels,
            threshold,
            rules,
            clips[i].0,
            s,
            e,
        ) ==> clips[i].1 <= e
}

proof fn lemma_quietest_is_quietest(levels: Seq<u32>, a: int, b: int)
    requires
        a <= b,
    ensures
        is_quietest(levels, a, b, quietest(levels, a, b)),
    decreases b - a,
{
    if a < b {
        lemma_quietest_is_quietest(levels, a, b - 1);
        let best = quietest(levels, a, b - 1);
        let p = quietest(levels, a, b);
        assert forall|i: int| a <= i <= b implies !less(#[trigger] levels[i], levels[p]) by {
            if i < b {
                assert(!less(levels[i], levels[best]));
            }
        }
        assert forall|i: int| a <= i < p implies less(levels[p], #[trigger] levels[i]) || is_nan(
            levels[i],
        ) by {
            if p == b && i < b {
                assert(!less(levels[i], levels[best]));
            }
        }
    }
}

/// The frames before the end of a silence lead back to its beginning.
proof fn lemma_start_of_silence(levels: Seq<u32>, threshold: u32, s: int, e: int, i: int)
    requires
        is_silence(levels, threshold, s, e),
        s <= i <= e,
    ensures
        silence_start(levels, threshold, i) == s,
    decreases i,
{
    if i > s {
        assert(less(levels[i - 1], threshold));
        lemma_start_of_silence(levels, threshold, s, e, i - 1);
    }
}

/// Where quiet frames lead back to, a silence begins.
proof fn lemma_silence_from_start(levels: Seq<u32>, threshold: u32, e: int)
    requires
        0 <= e <= levels.len(),
        silence_start(levels, threshold, e) < e,
        e < levels.len() ==> !quiet(levels, threshold, e),
    ensures
        is_silence(levels, threshold, silence_start(levels, threshold, e), e),
{
    lemma_silence_start(levels, threshold, e);
    let s = silence_start(levels, threshold, e);
    assert forall|i: int| s <= i < e implies less(#[trigger] levels[i], threshold) by {
        assert(quiet(levels, threshold, i));
    }
    lemma_loud_before(levels, threshold, e);
}

proof fn lemma_loud_before(levels: Seq<u32>, threshold: u32, i: int)
    requires
        0 <= i <= levels.len(),
    ensures
        silence_start(levels, threshold, i) > 0 ==> !less(
            levels[silence_start(levels, threshold, i) - 1],
            threshold,
        ),
    decreases i,
{
    if i > 0 && quiet(levels, threshold, i - 1) {
        lemma_loud_before(levels, threshold, i - 1);
    }
}

/// More frames only add silences.
proof fn lemma_tags_grow(levels: Seq<u32>, threshold: u32, rules: FrameRules, m: int, n: int)
    requires
        0 <= m <= n <= levels.len(),
    ensures
        tags_upto(levels, threshold, rules, m).len() <= tags_upto(
            levels,
            threshold,
            rules,
            n,
        ).len(),
        forall|i: int|
            0 <= i < tags_upto(levels, threshold, rules, m).len() ==> #[trigger] tags_upto(
                levels,
                threshold,
                rules,
                m,
            )[i] == tags_upto(levels, threshold, rules, n)[i],
    decreases n,
{
    if m < n {
        lemma_tags_grow(levels, threshold, rules, m, n - 1);
    }
}

/// The silence that a cut comes from.
proof fn lemma_tag_origin(
    levels: Seq<u32>,
    threshold: u32,
    rules: FrameRules,
    n: int,
    i: int,
) -> (r: (int, int))
    requires
        0 <= n <= levels.len(),
        0 <= i < tags_upto(levels, threshold, rules, n).len(),
    ensures
        ({
            let tags = tags_upto(levels, threshold, rules, n);
            let (s, e) = r;
            &&& is_silence(levels, threshold, s, e)
            &&& e < n
            &&& tags[i] == silence_tag(levels, rules, s, e)
            &&& cuts(
                rules,
                s,
                e,
                if i == 0 {
                    0
                } else {
                    tags[i - 1].1
                },
            )
            &&& i > 0 ==> tags[i - 1].1 < s
            &&& tags_upto(levels, threshold, rules, e).len() == i
            &&& tags_upto(levels, threshold, rules, e + 1).len() == i + 1
        }),
    decreases n,
{
    let before = tags_upto(levels, threshold, rules, n - 1);
    if i < before.len() {
        lemma_tag_origin(levels, threshold, rules, n - 1, i)
    } else {
        let e = n - 1;
        let s = silence_start(levels, threshold, e);
        lemma_silence_from_start(levels, threshold, e);
        lemma_tags_upto(levels, threshold, rules, e);
        if i > 0 {
            let j = choose|j: int|
                before.last().1 <= j < n - 1 && !#[trigger] quiet(levels, threshold, j);
            assert(before.last().1 <= j);
            if j >= s {
                assert(less(levels[j], threshold));
            }
        }
        (s, e)
    }
}

/// What a clip is made of: the end of one cut and the beginning of the next.
proof fn lemma_clip_ends(tags: Seq<(int, int)>, n: int, c: int)
    requires
        tags.len() > 0,
        0 <= c < clip_frames(tags, n).len(),
    ensures
        ({
            let shift: int = if tags[0].0 > 0 {
                1
            } else {
                0
            };
            let clip = clip_frames(tags, n)[c];
            &&& clip.0 == if c < shift {
                0
            } else {
                tags[c - shift].1
            }
            &&& clip.1 == if c - shift + 1 < tags.len() {
                tags[c - shift + 1].0
            } else {
                n
            }
            &&& c - shift < tags.len()
            &&& c - shift == tags.len() - 1 ==> tags.last().1 < n
            &&& clip_frames(tags, n).len() == shift + tags.len() - 1 + if tags.last().1 < n {
                1int
            } else {
                0int
            }
        }),
{
}

/// The cut that `tag_silence` makes is a gap of the silence.
proof fn lemma_tag_is_gap(levels: Seq<u32>, rules: FrameRules, s: int, e: int)
    requires
        0 < s < e < levels.len(),
    ensures
        is_gap(
            levels,
            rules.max_sil_kept as int,
            s,
            e,
            silence_tag(levels, rules, s, e).0,
            silence_tag(levels, rules, s, e).1,
        ),
{
    let keep = rules.max_sil_kept as int;
    if e - s <= keep {
        lemma_quietest_is_quietest(levels, s, e);
    } else {
        lemma_quietest_is_quietest(levels, s, s + keep);
        lemma_quietest_is_quietest(levels, e - keep, e);
        let a = quietest(levels, s, s + keep);
        let b = quietest(levels, e - keep, e);
        let p = quietest(levels, e - keep, s + keep);
        if e - s <= 2 * keep {
            lemma_quietest_is_quietest(levels, e - keep, s + keep);
        }
        assert(is_quietest(levels, s, s + keep, a) && is_quietest(levels, e - keep, e, b));
        let q = is_quietest(levels, e - keep, s + keep, p);
        assert(q || !q);
    }
}

/// The cut that ends the last clip or that comes from a silence within the audio.
proof fn lemma_end_of_tags(levels: Seq<u32>, threshold: u32, rules: FrameRules)
    requires
        levels.len() > 0,
    ensures
        ({
            let n = levels.len() as int;
            let tags = silence_tags(levels, threshold, rules);
            let inner = tags_upto(levels, threshold, rules, n);
            let s = silence_start(levels, threshold, n);
            &&& 0 <= s <= n
            &&& s < n ==> is_silence(levels, threshold, s, n)
            &&& s == n ==> !less(levels[n - 1], threshold)
            &&& forall|i: int| 0 <= i < inner.len() ==> #[trigger] tags[i] == inner[i]
            &&& if s < n && n - s >= rules.min_interval {
                &&& tags.len() == inner.len() + 1
                &&& tags.last().1 == n + 1
                &&& s <= tags.last().0 < n
                &&& is_quietest(
                    levels,
                    s,
                    if s + rules.max_sil_kept <= n - 1 {
                        s + rules.max_sil_kept
                    } else {
                        n - 1
                    },
                    tags.last().0,
                )
            } else {
                tags == inner
            }
        }),
{
    let n = levels.len() as int;
    let s = silence_start(levels, threshold, n);
    lemma_silence_start(levels, threshold, n);
    lemma_silence_start(levels, threshold, n - 1);
    if s < n {
        lemma_silence_from_start(levels, threshold, n);
        lemma_quietest_is_quietest(levels, s, at_most_int(s + rules.max_sil_kept, n - 1));
    }
}

/// Where the clips begin.
proof fn lemma_clips_begin(levels: Seq<u32>, threshold: u32, rules: FrameRules)
    requires
        levels.len() > 0,
        clip_frames(silence_tags(levels, threshold, rules), levels.len() as int).len() > 0,
    ensures
        begins_at(
            levels,
            threshold,
            rules,
            clip_frames(silence_tags(levels, threshold, rules), levels.len() as int)[0].0,
        ),
{
    let n = levels.len() as int;
    let keep = rules.max_sil_kept as int;
    let tags = silence_tags(levels, threshold, rules);
    let inner = tags_upto(levels, threshold, rules, n);
    let b = clip_frames(tags, n)[0].0;
    lemma_end_of_tags(levels, threshold, rules);
    lemma_clip_ends(tags, n, 0);
    if inner.len() > 0 {
        let (s, e) = lemma_tag_origin(levels, threshold, rules, n, 0);
        lemma_silence_tag(levels, rules, s, e);
        assert(tags[0] == inner[0]);
        if s > 0 {
            assert(b == 0);
        }
    }
    if !less(levels[0], threshold) {
        assert(b == 0);
    }
    assert forall|e: int| #[trigger] is_silence(levels, threshold, 0, e) implies if e < n && (e
        > keep || (e >= rules.min_interval && e >= rules.min_length)) {
        is_quietest(
            levels,
            if e <= keep {
                0
            } else {
                e - keep
            },
            e,
            b,
        )
    } else {
        b == 0
    } by {
        lemma_start_of_silence(levels, threshold, 0, e, e);
        let before = tags_upto(levels, threshold, rules, e);
        lemma_tags_upto(levels, threshold, rules, e);
        if before.len() > 0 {
            let j = choose|j: int|
                before.last().1 <= j < e && !#[trigger] quiet(levels, threshold, j);
            assert(ordered(before));
            assert(before[before.len() - 1].1 >= 0);
            assert(less(levels[j], threshold));
        }
        assert(before.len() == 0);
        if e < n {
            let after = tags_upto(levels, threshold, rules, e + 1);
            assert(!quiet(levels, threshold, e));
            lemma_tags_grow(levels, threshold, rules, e + 1, n);
            if e > keep || (e >= rules.min_interval && e >= rules.min_length) {
                assert(after[0] == silence_tag(levels, rules, 0, e));
                assert(tags[0] == after[0]);
                assert(tags[0].0 == 0);
                assert(b == tags[0].1);
                lemma_quietest_is_quietest(
                    levels,
                    if e <= keep {
                        0
                    } else {
                        e - keep
                    },
                    e,
                );
            } else {
                assert(after.len() == 0);
                if inner.len() > 0 {
                    let (s, f) = lemma_tag_origin(levels, threshold, rules, n, 0);
                    if s == 0 {
                        lemma_same_silence(levels, threshold, 0, e, f);
                    }
                }
                let last = silence_start(levels, threshold, n);
                if last == 0 {
                    assert(less(levels[e], threshold));
                }
            }
        } else {
            assert(inner.len() == 0);
        }
    }
}

/// Two silences that begin with the same frame are one.
proof fn lemma_same_silence(levels: Seq<u32>, threshold: u32, s: int, e: int, f: int)
    requires
        is_silence(levels, threshold, s, e),
        is_silence(levels, threshold, s, f),
    ensures
        e == f,
{
    if e < f {
        assert(less(levels[e], threshold));
    } else if f < e {
        assert(less(levels[f], threshold));
    }
}

/// Where the clips end.
proof fn lemma_clips_end(levels: Seq<u32>, threshold: u32, rules: FrameRules)
    requires
        levels.len() > 0,
        clip_frames(silence_tags(levels, threshold, rules), levels.len() as int).len() > 0,
    ensures
        ends_at(
            levels,
            threshold,
            rules,
            clip_frames(silence_tags(levels, threshold, rules), levels.len() as int).last().1,
        ),
{
    let n = levels.len() as int;
    let tags = silence_tags(levels, threshold, rules);
    let inner = tags_upto(levels, threshold, rules, n);
    let clips = clip_frames(tags, n);
    let f = clips.last().1;
    lemma_end_of_tags(levels, threshold, rules);
    lemma_silence_tags(levels, threshold, rules);
    lemma_clip_ends(tags, n, clips.len() - 1);
    if inner.len() > 0 {
        let (s, e) = lemma_tag_origin(levels, threshold, rules, n, inner.len() - 1);
        lemma_silence_tag(levels, rules, s, e);
        assert(inner.last().1 < n);
    }
    assert forall|s: int| #[trigger] is_silence(levels, threshold, s, n) implies if n - s
        >= rules.min_interval {
        is_quietest(
            levels,
            s,
            if s + rules.max_sil_kept <= n - 1 {
                s + rules.max_sil_kept
            } else {
                n - 1
            },
            f,
        )
    } else {
        f == n
    } by {
        lemma_start_of_silence(levels, threshold, s, n, n);
    }
}

/// No clip goes on beyond a silence that ends it.
proof fn lemma_clip_is_ended(
    levels: Seq<u32>,
    threshold: u32,
    rules: FrameRules,
    begin: int,
    end: int,
    t: int,
    s: int,
    e: int,
)
    requires
        ({
            let tags = silence_tags(levels, threshold, rules);
            &&& levels.len() > 0
            &&& -1 <= t < tags.len()
            &&& begin == if t < 0 {
                0
            } else {
                tags[t].1
            }
            &&& t + 1 < tags.len() ==> end == tags[t + 1].0
        }),
        ends_clip(levels, threshold, rules, begin, s, e),
    ensures
        end <= e || t + 1 >= silence_tags(levels, threshold, rules).len(),
        t + 1 < silence_tags(levels, threshold, rules).len(),
{
    let n = levels.len() as int;
    let tags = silence_tags(levels, threshold, rules);
    let inner = tags_upto(levels, threshold, rules, n);
    let before = tags_upto(levels, threshold, rules, e);
    let after = tags_upto(levels, threshold, rules, e + 1);
    lemma_end_of_tags(levels, threshold, rules);
    lemma_silence_tags(levels, threshold, rules);
    lemma_tags_grow(levels, threshold, rules, e, n);
    lemma_tags_grow(levels, threshold, rules, e + 1, n);
    lemma_start_of_silence(levels, threshold, s, e, e);
    assert(!quiet(levels, threshold, e));
    lemma_silence_tag(levels, rules, s, e);
    if t + 1 >= tags.len() || end > e {
        assert(t < inner.len()) by {
            if t >= inner.len() {
                assert(tags[t].1 == n + 1);
            }
        }
        if t >= 0 {
            // The cut that begins the clip is made before the end of the silence.
            let (a, b) = lemma_tag_origin(levels, threshold, rules, n, t);
            lemma_silence_tag(levels, rules, a, b);
            if b >= e {
                if b == e {
                    lemma_start_of_silence(levels, threshold, a, b, b);
                    assert(a == s);
                } else {
                    if a <= e {
                        assert(less(levels[e], threshold));
                    }
                }
                assert(false);
            }
            lemma_tags_grow(levels, threshold, rules, b + 1, e);
        }
        assert(before.len() >= t + 1);
        if before.len() > t + 1 {
            let (a, b) = lemma_tag_origin(levels, threshold, rules, e, t + 1);
            lemma_silence_tag(levels, rules, a, b);
            assert(before[t + 1] == tags[t + 1]);
        }
        assert(before.len() == t + 1);
        assert(clip_start(before) == begin) by {
            if t >= 0 {
                assert(before[t] == tags[t]);
            }
        }
        assert(after == before.push(silence_tag(levels, rules, s, e)));
        assert(after[t + 1] == tags[t + 1]);
    }
}

/// Every clip has frames.
proof fn lemma_clip_has_frames(levels: Seq<u32>, threshold: u32, rules: FrameRules, i: int)
    requires
        levels.len() > 0,
        0 <= i < clip_frames(
            silence_tags(levels, threshold, rules),
            levels.len() as int,
        ).len(),
    ensures
        ({
            let clip = clip_frames(
                silence_tags(levels, threshold, rules),
                levels.len() as int,
            )[i];
            0 <= clip.0 < clip.1 <= levels.len()
        }),
{
    let n = levels.len() as int;
    let tags = silence_tags(levels, threshold, rules);
    let inner = tags_upto(levels, threshold, rules, n);
    let clips = clip_frames(tags, n);
    let shift: int = if tags[0].0 > 0 {
        1
    } else {
        0
    };
    let t = i - shift;
    lemma_end_of_tags(levels, threshold, rules);
    lemma_silence_tags(levels, threshold, rules);
    lemma_clip_ends(tags, n, i);
    if t >= 0 {
        assert(0 <= tags[t].0 <= tags[t].1);
    }
    if t + 1 < tags.len() {
        assert(tags[t + 1].0 < n);
        if t >= 0 {
            if t + 1 < inner.len() {
                let (s, e) = lemma_tag_origin(levels, threshold, rules, n, t + 1);
                lemma_silence_tag(levels, rules, s, e);
                assert(tags[t] == inner[t] && tags[t + 1] == inner[t + 1]);
            } else {
                lemma_tags_upto(levels, threshold, rules, n);
                assert(tags[t] == inner[t]);
                let last = silence_start(levels, threshold, n);
                let j = choose|j: int|
                    inner.last().1 <= j < n && !#[trigger] quiet(levels, threshold, j);
                if j >= last {
                    assert(less(levels[j], threshold));
                }
            }
        }
    }
}

/// Between two clips a silence is cut out that ends the first of them.
proof fn lemma_clips_have_gaps(levels: Seq<u32>, threshold: u32, rules: FrameRules, i: int)
    requires
        levels.len() > 0,
        0 <= i < clip_frames(
            silence_tags(levels, threshold, rules),
            levels.len() as int,
        ).len() - 1,
    ensures
        ({
            let clips = clip_frames(silence_tags(levels, threshold, rules), levels.len() as int);
            are_parted(levels, threshold, rules, clips[i], clips[i + 1])
        }),
{
    let n = levels.len() as int;
    let tags = silence_tags(levels, threshold, rules);
    let inner = tags_upto(levels, threshold, rules, n);
    let clips = clip_frames(tags, n);
    let shift: int = if tags[0].0 > 0 {
        1
    } else {
        0
    };
    lemma_end_of_tags(levels, threshold, rules);
    lemma_silence_tags(levels, threshold, rules);
    lemma_clip_ends(tags, n, i);
    lemma_clip_ends(tags, n, i + 1);
    lemma_clip_has_frames(levels, threshold, rules, i);
    lemma_clip_has_frames(levels, threshold, rules, i + 1);
    let t = i - shift + 1;
    assert(0 <= t < tags.len());
    assert(clips[i].1 == tags[t].0 && clips[i + 1].0 == tags[t].1);
    assert(t < inner.len());
    let (s, e) = lemma_tag_origin(levels, threshold, rules, n, t);
    lemma_silence_tag(levels, rules, s, e);
    assert(tags[t] == inner[t]);
    assert(tags[0] == inner[0]);
    if t > 0 {
        assert(tags[t - 1] == inner[t - 1]);
        assert(inner[t - 1].1 < s);
    }
    if s == 0 {
        assert(t == 0);
        assert(inner[0].0 == 0);
    }
    lemma_tag_is_gap(levels, rules, s, e);
    assert(ends_clip(levels, threshold, rules, clips[i].0, s, e));
}

/// The cuts make clips.
proof fn lemma_tags_make_clips(levels: Seq<u32>, threshold: u32, rules: FrameRules)
    requires
        levels.len() > 0,
        clip_frames(silence_tags(levels, threshold, rules), levels.len() as int).len() > 0,
    ensures
        are_clips(
            clip_frames(silence_tags(levels, threshold, rules), levels.len() as int),
            levels,
            threshold,
            rules,
        ),
{
    let n = levels.len() as int;
    let tags = silence_tags(levels, threshold, rules);
    let clips = clip_frames(tags, n);
    let shift: int = if tags[0].0 > 0 {
        1
    } else {
        0
    };
    lemma_clips_begin(levels, threshold, rules);
    lemma_clips_end(levels, threshold, rules);
    assert forall|i: int| 0 <= i < clips.len() implies 0 <= (#[trigger] clips[i]).0 < clips[i].1
        <= n by {
        lemma_clip_has_frames(levels, threshold, rules, i);
    }
    assert forall|i: int| 0 <= i < clips.len() - 1 implies are_parted(
        levels,
        threshold,
        rules,
        #[trigger] clips[i],
        clips[i + 1],
    ) by {
        lemma_clips_have_gaps(levels, threshold, rules, i);
    }
    assert forall|i: int, s: int, e: int|
        0 <= i < clips.len() && #[trigger] ends_clip(
            levels,
            threshold,
            rules,
            clips[i].0,
            s,
            e,
        ) implies clips[i].1 <= e by {
        lemma_clip_ends(tags, n, i);
        lemma_clip_is_ended(
            levels,
            threshold,
            rules,
            clips[i].0,
            clips[i].1,
            i - shift,
            s,
            e,
        );
    }
}

/// Where nothing is cut, all frames are one clip.
proof fn lemma_one_clip(levels: Seq<u32>, threshold: u32, rules: FrameRules)
    requires
        levels.len() > 0,
        silence_tags(levels, threshold, rules).len() == 0,
    ensures
        are_clips(seq![(0int, levels.len() as int)], levels, threshold, rules),
{
    let n = levels.len() as int;
    let clips = seq![(0int, n)];
    lemma_end_of_tags(levels, threshold, rules);
    assert forall|e: int| #[trigger] is_silence(levels, threshold, 0, e) implies !(e < n && (e
        > rules.max_sil_kept || (e >= rules.min_interval && e >= rules.min_length))) by {
        if e < n && (e > rules.max_sil_kept || (e >= rules.min_interval && e
            >= rules.min_length)) {
            lemma_start_of_silence(levels, threshold, 0, e, e);
            lemma_tags_grow(levels, threshold, rules, e, n);
            lemma_tags_grow(levels, threshold, rules, e + 1, n);
            assert(!quiet(levels, threshold, e));
        }
    }
    assert forall|s: int| #[trigger] is_silence(levels, threshold, s, n) implies !(n - s
        >= rules.min_interval) by {
        lemma_start_of_silence(levels, threshold, s, n, n);
    }
    assert forall|i: int, s: int, e: int|
        0 <= i < clips.len() && #[trigger] ends_clip(
            levels,
            threshold,
            rules,
            clips[i].0,
            s,
            e,
        ) implies clips[i].1 <= e by {
        lemma_start_of_silence(levels, threshold, s, e, e);
        lemma_tags_grow(levels, threshold, rules, e, n);
        lemma_tags_grow(levels, threshold, rules, e + 1, n);
        assert(!quiet(levels, threshold, e));
    }
}

/// The chunks are those of the clips, or there is no clip because all is quiet and the
/// first frame is among the quietest: the waveform stays whole.
pub open spec fn are_cut_at_silences<T>(
    chunks: Seq<ChunkView<T>>,
    samples: Seq<T>,
    levels: Seq<u32>,
    threshold: u32,
    rules: FrameRules,
) -> bool {
    let hop = rules.hop_size as int;
    let len = samples.len() as int;
    let n = levels.len() as int;
    ||| exists|clips: Seq<(int, int)>|
        {
            &&& #[trigger] are_clips(clips, levels, threshold, rules)
            &&& chunks.len() == clips.len()
            &&& forall|i: int|
                0 <= i < clips.len() ==> {
                    &&& (#[trigger] chunks[i]).slice_start == clips[i].0 * hop
                    &&& chunks[i].split_start == 0
                    &&& chunks[i].waveform == samples.subrange(
                        clips[i].0 * hop,
                        if clips[i].1 * hop <= len {
                            clips[i].1 * hop
                        } else {
                            len
                        },
                    )
                }
        }
    ||| {
        &&& is_silence(levels, threshold, 0, n)
        &&& n >= rules.min_interval
        &&& is_quietest(
            levels,
            0,
            if rules.max_sil_kept <= n - 1 {
                rules.max_sil_kept as int
            } else {
                n - 1
            },
            0,
        )
        &&& chunks == seq![ChunkView { slice_start: 0, split_start: 0, waveform: samples }]
    }
}

/// What slicing gives, in terms of the levels alone: the clips between the silences that
/// are long enough and far enough from the beginning of their clip, and no others.
pub proof fn law_slices_lie_between_long_silences<T>(
    samples: Seq<T>,
    levels: Seq<u32>,
    threshold: u32,
    rules: FrameRules,
)
    requires
        samples.len() >= 1,
        rules.hop_size >= 1,
        rules.win_size >= 1,
        levels.len() == frame_count(
            samples.len() as int,
            rules.win_size as int,
            rules.hop_size as int,
        ),
    ensures
        are_cut_at_silences(
            sliced(samples, levels, threshold, rules),
            samples,
            levels,
            threshold,
            rules,
        ),
{
    let n = levels.len() as int;
    let hop = rules.hop_size as int;
    let len = samples.len() as int;
    let tags = silence_tags(levels, threshold, rules);
    let clips = clip_frames(tags, n);
    let out = sliced(samples, levels, threshold, rules);
    lemma_frame_of_sample(len, rules.win_size as int, hop, len - 1);
    lemma_end_of_tags(levels, threshold, rules);
    if clips.len() > 0 {
        lemma_tags_make_clips(levels, threshold, rules);
        assert(are_clips(clips, levels, threshold, rules));
        assert forall|i: int| 0 <= i < clips.len() implies {
            &&& (#[trigger] out[i]).slice_start == clips[i].0 * hop
            &&& out[i].split_start == 0
            &&& out[i].waveform == samples.subrange(
                clips[i].0 * hop,
                if clips[i].1 * hop <= len {
                    clips[i].1 * hop
                } else {
                    len
                },
            )
        } by {
            assert(out[i] == clip_of(samples, hop, clips[i]));
        }
    } else if tags.len() == 0 {
        lemma_one_clip(levels, threshold, rules);
        let one = seq![(0int, n)];
        assert(n * hop >= len) by (nonlinear_arith)
            requires
                (len - 1) / hop < n,
                len - 1 < ((len - 1) / hop + 1) * hop,
                hop >= 1,
        ;
        assert(samples.subrange(0, len) =~= samples);
        assert(0 * hop == 0) by (nonlinear_arith);
        assert(are_clips(one, levels, threshold, rules));
        assert(out.len() == one.len());
        assert forall|i: int| 0 <= i < one.len() implies {
            &&& (#[trigger] out[i]).slice_start == one[i].0 * hop
            &&& out[i].split_start == 0
            &&& out[i].waveform == samples.subrange(
                one[i].0 * hop,
                if one[i].1 * hop <= len {
                    one[i].1 * hop
                } else {
                    len
                },
            )
        } by {
            assert(one[0] == (0int, n));
            assert(out[0] == whole(samples));
        }
    } else {
        lemma_silence_tags(levels, threshold, rules);
        assert(tags.len() == 1 && tags[0].0 == 0 && tags[0].1 >= n);
        let inner = tags_upto(levels, threshold, rules, n);
        if inner.len() > 0 {
            let (s, e) = lemma_tag_origin(levels, threshold, rules, n, 0);
            lemma_silence_tag(levels, rules, s, e);
            assert(tags[0] == inner[0]);
        }
        assert(silence_start(levels, threshold, n) == 0);
        assert(is_silence(levels, threshold, 0, n));
        assert(out == seq![whole(samples)]);
    }
}

/// Slicing in terms of the samples: a waveform that is no longer than the shortest clip
/// stays whole; otherwise the level of every window is taken, and the waveform is cut at
/// the silences. Windows stand a hop apart, the first is centred on the first sample, and
/// there are as many as begin and end no more than half a window outside the waveform.
pub proof fn law_waveform_is_cut_at_its_silences<T, M: Fn(&[T], usize, usize, usize) -> u32>(
    chunks: Seq<ChunkView<T>>,
    samples: &[T],
    rules: FrameRules,
    threshold: u32,
    meter: M,
)
    requires
        rules.hop_size >= 1,
        rules.win_size >= 1,
        are_slices(chunks, samples, rules, threshold, meter),
    ensures
        ({
            let len = samples@.len() as int;
            let hop = rules.hop_size as int;
            let win = rules.win_size as int;
            if len <= rules.min_length * hop {
                chunks == seq![
                    ChunkView { slice_start: 0, split_start: 0, waveform: samples@ },
                ]
            } else {
                exists|levels: Seq<u32>|
                    {
                        &&& #[trigger] are_cut_at_silences(
                            chunks,
                            samples@,
                            levels,
                            threshold,
                            rules,
                        )
                        &&& forall|i: int|
                            0 <= i ==> (i < levels.len() <==> #[trigger] (i * hop) + win <= len + 2
                                * (win / 2))
                        &&& forall|i: int|
                            0 <= i < levels.len() ==> call_ensures(
                                meter,
                                (
                                    samples,
                                    (if i * hop < win / 2 {
                                        0
                                    } else {
                                        i * hop - win / 2
                                    }) as usize,
                                    (if i * hop - win / 2 + win < len {
                                        i * hop - win / 2 + win
                                    } else {
                                        len
                                    }) as usize,
                                    rules.win_size,
                                ),
                                #[trigger] levels[i],
                            )
                    }
            }
        }),
{
    let len = samples@.len() as int;
    let hop = rules.hop_size as int;
    let win = rules.win_size as int;
    if len > rules.min_length * hop {
        assert(rules.min_length * hop >= 0) by (nonlinear_arith)
            requires
                hop >= 1,
        ;
        let levels = choose|levels: Seq<u32>| #[trigger]
            metered(samples, win, hop, meter, levels) && chunks == sliced(
                samples@,
                levels,
                threshold,
                rules,
            );
        law_slices_lie_between_long_silences(samples@, levels, threshold, rules);
        assert forall|i: int| 0 <= i implies (i < levels.len() <==> #[trigger] (i * hop) + win
            <= len + 2 * (win / 2)) by {
            let total = len + 2 * (win / 2) - win;
            let q = total / hop;
            vstd::arithmetic::div_mod::lemma_fundamental_div_mod(total, hop);
            let r = total % hop;
            assert(0 <= r < hop) by (nonlinear_arith)
                requires
                    hop >= 1,
                    r == total % hop,
            ;
            assert(i <= q <==> i * hop <= total) by (nonlinear_arith)
                requires
                    total == hop * q + r,
                    0 <= r < hop,
            ;
        }
        assert(are_cut_at_silences(chunks, samples@, levels, threshold, rules));
    }
}

/// The rules of a configuration: the hop is the whole number of samples in its duration,
/// but at least one; lengths are the nearest numbers of hops, halves up; and the window is
/// the nearest number of samples, but no more than four hops and at least one.
pub proof fn law_rules_are_nearest<W: Fn(usize, usize, usize) -> usize>(
    cfg: SlicerConfig,
    wide: W,
    rules: FrameRules,
)
    requires
        are_rules(cfg, wide, rules),
        cfg.sample_rate * cfg.min_length_ms < 0x4_0000_0000_0000,
        cfg.sample_rate * cfg.min_interval_ms < 0x4_0000_0000_0000,
        cfg.sample_rate * cfg.max_sil_kept_ms < 0x4_0000_0000_0000,
    ensures
        ({
            let rate = cfg.sample_rate as int;
            let d = 1_000 * rules.hop_size;
            let nearest = |ms: int, n: int|
                n == usize::MAX || (2 * d) * n <= 2 * (rate * ms) + d < (2 * d) * (n + 1);
            &&& rules.hop_size >= 1
            &&& rules.hop_size > 1 ==> d <= rate * cfg.hop_ms < d + 1_000
            &&& rules.hop_size == 1 ==> rate * cfg.hop_ms < 2_000
            &&& nearest(cfg.min_length_ms as int, rules.min_length as int)
            &&& nearest(cfg.min_interval_ms as int, rules.min_interval as int)
            &&& nearest(cfg.max_sil_kept_ms as int, rules.max_sil_kept as int)
            &&& 1 <= rules.win_size <= 4 * rules.hop_size
            &&& 1 < rules.win_size ==> 2_000 * rules.win_size <= 2 * (rate * cfg.min_interval_ms)
                + 1_000
            &&& rules.win_size < 4 * rules.hop_size && rules.win_size < usize::MAX ==> 2 * (rate
                * cfg.min_interval_ms) + 1_000 < 2_000 * (rules.win_size + 1)
        }),
{
    let rate = cfg.sample_rate as int;
    let hop = rules.hop_size as int;
    let product = rate * cfg.hop_ms;
    vstd::arithmetic::div_mod::lemma_fundamental_div_mod(product, 1_000);
    lemma_nearest(rate * cfg.min_length_ms, 1_000 * hop);
    lemma_nearest(rate * cfg.min_interval_ms, 1_000 * hop);
    lemma_nearest(rate * cfg.max_sil_kept_ms, 1_000 * hop);
    lemma_nearest(rate * cfg.min_interval_ms, 1_000);
    let w = choose|n: usize| #[trigger]
        is_ms_in_hops(cfg.sample_rate, cfg.min_interval_ms, 1, wide, n) && rules.win_size
            == at_least(at_most_int(n as int, 4 * hop_size_of(cfg)), 1);
    assert(is_ms_in_hops(cfg.sample_rate, cfg.min_interval_ms, 1, wide, w));
    assert(rules.hop_size >= 1);
    assert(1_000 * hop <= product < 1_000 * hop + 1_000 || hop == 1);
    let r = rounded(rate * cfg.min_interval_ms, 1_000);
    assert(2_000 * r <= 2 * (rate * cfg.min_interval_ms) + 1_000 < 2_000 * (r + 1));
    assert(w == at_most_int(r, usize::MAX as int));
}

/// Rounding gives the nearest whole number, halves up.
proof fn lemma_nearest(a: int, b: int)
    requires
        b > 0,
    ensures
        (2 * b) * rounded(a, b) <= 2 * a + b < (2 * b) * (rounded(a, b) + 1),
{
    let q = rounded(a, b);
    vstd::arithmetic::div_mod::lemma_fundamental_div_mod(2 * a + b, 2 * b);
    let r = (2 * a + b) % (2 * b);
    assert(0 <= r < 2 * b) by (nonlinear_arith)
        requires
            b > 0,
            r == (2 * a + b) % (2 * b),
    ;
    assert((2 * b) * (q + 1) == (2 * b) * q + 2 * b) by (nonlinear_arith);
}

// ---------------------------------------------------------------------------
// Splitting long chunks
// ---------------------------------------------------------------------------
/// Part `i` of a chunk that is split every `max` samples.
pub open spec fn piece<T>(chunk: ChunkView<T>, max: int, i: int) -> ChunkView<T> {
    ChunkView {
        slice_start: chunk.slice_start,
        split_start: chunk.split_start + i * max,
        waveform: chunk.waveform.subrange(
            i * max,
            at_most_int((i + 1) * max, chunk.waveform.len() as int),
        ),
    }
}

/// The parts of a chunk, none longer than `max` samples; a chunk that is short
/// enough is its only part.
pub open spec fn pieces<T>(chunk: ChunkView<T>, max: int) -> Seq<ChunkView<T>> {
    if chunk.waveform.len() <= max {
        seq![chunk]
    } else {
        Seq::new(
            ((chunk.waveform.len() + max - 1) / max) as nat,
            |i: int| piece(chunk, max, i),
        )
    }
}

/// The parts of all chunks in order.
pub open spec fn split_all<T>(chunks: Seq<ChunkView<T>>, max: int) -> Seq<ChunkView<T>>
    decreases chunks.len(),
{
    if chunks.len() == 0 {
        Seq::empty()
    } else {
        split_all(chunks.drop_last(), max) + pieces(chunks.last(), max)
    }
}

/// Splits chunks that are longer than `max_chunk_samples`.
pub fn split_long_chunks<T: Copy>(
    chunks: &Vec<SliceChunk<T>>,
    sample_rate: usize,
    max_chunk_samples: usize,
) -> (r: Result<Vec<SliceChunk<T>>, Error>)
    requires
        forall|i: int|
            0 <= i < chunks.len() ==> (#[trigger] chunks@[i]).split_start
                + chunks@[i].waveform.len() <= usize::MAX,
    ensures
        match r {
            Ok(out) => sample_rate > 0 && max_chunk_samples > 0 && chunk_views(out@) == split_all(
                chunk_views(chunks@),
                max_chunk_samples as int,
            ) && out.len() >= chunks.len(),
            Err(e) => if sample_rate == 0 {
                e@ == "chunk splitting requires a positive sample rate"@
            } else {
                max_chunk_samples == 0 && e@
                    == "chunk splitting requires a positive max_chunk_samples"@
            },
        },
{
    if sample_rate == 0 {
        return Err(Error::message("chunk splitting requires a positive sample rate"));
    }
    if max_chunk_samples == 0 {
        return Err(Error::message("chunk splitting requires a positive max_chunk_samples"));
    }
    let max: usize = max_chunk_samples;
    let ghost all = chunk_views(chunks@);
    let mut out: Vec<SliceChunk<T>> = Vec::new();
    let mut k: usize = 0;
    while k < chunks.len()
        invariant
            k <= chunks.len(),
            max > 0,
            all == chunk_views(chunks@),
            chunk_views(out@) == split_all(all.take(k as int), max as int),
            forall|i: int|
                0 <= i < chunks.len() ==> (#[trigger] chunks@[i]).split_start
                    + chunks@[i].waveform.len() <= usize::MAX,
        decreases chunks.len() - k,
    {
        let ghost before = out@;
        split_into(&mut out, &chunks[k], max);
        proof {
            let upto = all.take(k as int + 1);
            assert(upto.drop_last() =~= all.take(k as int));
            assert(upto.last() == chunks@[k as int]@);
        }
        k += 1;
    }
    assert(all.take(k as int) =~= all);
    proof {
        law_splitting_makes_no_fewer(all, max as int);
        assert(chunk_views(out@).len() == out.len());
    }
    Ok(out)
}

/// Appends the parts of one chunk.
fn split_into<T: Copy>(out: &mut Vec<SliceChunk<T>>, chunk: &SliceChunk<T>, max: usize)
    requires
        max > 0,
        chunk.split_start + chunk.waveform.len() <= usize::MAX,
    ensures
        chunk_views(final(out)@) == chunk_views(old(out)@) + pieces(chunk@, max as int),
{
    let len: usize = chunk.waveform.len();
    let ghost base = chunk_views(out@);
    if len <= max {
        out.push(
            SliceChunk {
                slice_start: chunk.slice_start,
                split_start: chunk.split_start,
                waveform: copy_all(&chunk.waveform),
            },
        );
        assert(chunk_views(out@) =~= base + pieces(chunk@, max as int));
        return;
    }
    let ghost parts = pieces(chunk@, max as int);
    let mut start: usize = 0;
    let ghost mut i: int = 0;
    proof {
        lemma_piece_count(len as int, max as int, 0);
    }
    while start < len
        invariant
            0 <= i <= parts.len(),
            parts == pieces(chunk@, max as int),
            len == chunk.waveform.len(),
            len > max > 0,
            chunk.split_start + len <= usize::MAX,
            start < len ==> start == i * max && i < parts.len(),
            start >= len ==> i == parts.len(),
            start <= len,
            chunk_views(out@) == base + parts.take(i),
        decreases len - start,
    {
        let end: usize = if len - start > max {
            start + max
        } else {
            len
        };
        let ghost before = out@;
        out.push(
            SliceChunk {
                slice_start: chunk.slice_start,
                split_start: chunk.split_start + start,
                waveform: copy_range(&chunk.waveform, start, end),
            },
        );
        proof {
            assert((i + 1) * max == i * max + max) by (nonlinear_arith);
            let part = out@.last()@;
            assert(part == piece(chunk@, max as int, i));
            assert(chunk_views(out@) =~= chunk_views(before).push(part));
            assert(base + parts.take(i + 1) =~= (base + parts.take(i)).push(parts[i]));
            lemma_piece_count(len as int, max as int, i);
            i = i + 1;
            lemma_piece_count(len as int, max as int, i);
        }
        start = end;
    }
    assert(parts.take(i) =~= parts);
}

/// Part `i` begins within the chunk exactly when there is a part `i`.
proof fn lemma_piece_count(len: int, max: int, i: int)
    requires
        len > 0,
        max > 0,
        i >= 0,
    ensures
        i * max < len <==> i < (len + max - 1) / max,
{
    let n = (len + max - 1) / max;
    vstd::arithmetic::div_mod::lemma_fundamental_div_mod(len + max - 1, max);
    let m = (len + max - 1) % max;
    assert(0 <= m < max) by (nonlinear_arith)
        requires
            max > 0,
            m == (len + max - 1) % max,
    ;
    assert(i * max < len <==> i < n) by (nonlinear_arith)
        requires
            len + max - 1 == max * n + m,
            0 <= m < max,
            max > 0,
    ;
}

/// The samples of a sequence of chunks, one chunk after the other.
pub open spec fn joined<T>(chunks: Seq<ChunkView<T>>) -> Seq<T>
    decreases chunks.len(),
{
    if chunks.len() == 0 {
        Seq::empty()
    } else {
        joined(chunks.drop_last()) + chunks.last().waveform
    }
}

/// Splitting loses no sample and changes no order.
pub proof fn law_split_keeps_samples<T>(chunks: Seq<ChunkView<T>>, max: int)
    requires
        max > 0,
    ensures
        joined(split_all(chunks, max)) == joined(chunks),
    decreases chunks.len(),
{
    if chunks.len() > 0 {
        law_split_keeps_samples(chunks.drop_last(), max);
        let head = split_all(chunks.drop_last(), max);
        let parts = pieces(chunks.last(), max);
        lemma_pieces_joined(chunks.last(), max, parts.len() as int);
        lemma_joined_append(head, parts);
        assert(parts.take(parts.len() as int) =~= parts);
    }
}

proof fn lemma_joined_append<T>(a: Seq<ChunkView<T>>, b: Seq<ChunkView<T>>)
    ensures
        joined(a + b) == joined(a) + joined(b),
    decreases b.len(),
{
    if b.len() == 0 {
        assert(a + b =~= a);
        assert(joined(a) + joined(b) =~= joined(a));
    } else {
        lemma_joined_append(a, b.drop_last());
        assert((a + b).drop_last() =~= a + b.drop_last());
        assert((a + b).last() == b.last());
        assert(joined(a) + (joined(b.drop_last()) + b.last().waveform) =~= joined(a) + joined(
            b.drop_last(),
        ) + b.last().waveform);
    }
}

proof fn lemma_pieces_joined<T>(chunk: ChunkView<T>, max: int, n: int)
    requires
        max > 0,
        0 <= n <= pieces(chunk, max).len(),
    ensures
        chunk.waveform.len() > max ==> joined(pieces(chunk, max).take(n))
            == chunk.waveform.take(at_most_int(n * max, chunk.waveform.len() as int)),
        n == pieces(chunk, max).len() ==> joined(pieces(chunk, max).take(n)) == chunk.waveform,
    decreases n,
{
    let parts = pieces(chunk, max);
    let len = chunk.waveform.len() as int;
    if len <= max {
        if n == 1 {
            assert(parts.take(1) =~= seq![chunk]);
            assert(parts.take(1).drop_last() =~= Seq::empty());
            assert(joined(parts.take(1).drop_last()) =~= Seq::<T>::empty());
            assert(joined(parts.take(1)) =~= chunk.waveform);
        }
    } else {
        if n > 0 {
            lemma_pieces_joined(chunk, max, n - 1);
            assert(parts.take(n).drop_last() =~= parts.take(n - 1));
            assert(parts.take(n).last() == piece(chunk, max, n - 1));
            lemma_piece_count(len, max, n - 1);
            assert(((n - 1) + 1) * max == (n - 1) * max + max && n * max == (n - 1) * max + max)
                by (nonlinear_arith);
            assert((n - 1) * max >= 0) by (nonlinear_arith)
                requires
                    n >= 1,
                    max > 0,
            ;
            let from = (n - 1) * max;
            let to = at_most_int(n * max, len);
            assert(chunk.waveform.take(from) + chunk.waveform.subrange(from, to)
                =~= chunk.waveform.take(to));
        } else {
            assert(parts.take(n) =~= Seq::empty());
            assert(n * max == 0) by (nonlinear_arith)
                requires
                    n == 0,
            ;
            assert(chunk.waveform.take(0) =~= Seq::empty());
        }
        assert(joined(parts.take(n)) == chunk.waveform.take(at_most_int(n * max, len)));
        if n == parts.len() {
            lemma_piece_count(len, max, n);
            assert(chunk.waveform.take(len) =~= chunk.waveform);
        }
    }
}

/// Splitting never makes the chunks fewer.
pub proof fn law_splitting_makes_no_fewer<T>(chunks: Seq<ChunkView<T>>, max: int)
    requires
        max > 0,
    ensures
        split_all(chunks, max).len() >= chunks.len(),
    decreases chunks.len(),
{
    if chunks.len() > 0 {
        law_splitting_makes_no_fewer(chunks.drop_last(), max);
        let len = chunks.last().waveform.len() as int;
        if len > max {
            lemma_piece_count(len, max, 0);
        }
    }
}

/// Splitting in terms of the samples: a chunk that is short enough stays as it is; a
/// longer one falls into parts that are as long as they may be, but for the last, which
/// has the rest. Each part holds the samples from where it begins in its chunk.
pub proof fn law_parts_are_as_long_as_they_may_be<T>(chunk: ChunkView<T>, max: int)
    requires
        max > 0,
    ensures
        ({
            let parts = split_all(seq![chunk], max);
            let len = chunk.waveform.len() as int;
            if len <= max {
                parts == seq![chunk]
            } else {
                &&& (parts.len() - 1) * max < len <= parts.len() * max
                &&& forall|i: int|
                    0 <= i < parts.len() ==> {
                        let part = #[trigger] parts[i];
                        &&& part.slice_start == chunk.slice_start
                        &&& part.split_start == chunk.split_start + i * max
                        &&& part.waveform.len() == if i < parts.len() - 1 {
                            max
                        } else {
                            len - i * max
                        }
                        &&& forall|t: int|
                            0 <= t < part.waveform.len() ==> #[trigger] part.waveform[t]
                                == chunk.waveform[i * max + t]
                    }
            }
        }),
{
    let one = seq![chunk];
    let parts = split_all(one, max);
    let len = chunk.waveform.len() as int;
    assert(one.drop_last() =~= Seq::empty());
    assert(split_all(one.drop_last(), max) =~= Seq::<ChunkView<T>>::empty());
    assert(parts =~= pieces(chunk, max));
    if len > max {
        let n = parts.len() as int;
        lemma_piece_count(len, max, 0);
        lemma_piece_count(len, max, n - 1);
        lemma_piece_count(len, max, n);
        assert forall|i: int| 0 <= i < n implies {
            let part = #[trigger] parts[i];
            &&& part.slice_start == chunk.slice_start
            &&& part.split_start == chunk.split_start + i * max
            &&& part.waveform.len() == if i < n - 1 {
                max
            } else {
                len - i * max
            }
            &&& forall|t: int|
                0 <= t < part.waveform.len() ==> #[trigger] part.waveform[t]
                    == chunk.waveform[i * max + t]
        } by {
            lemma_piece_count(len, max, i);
            lemma_piece_count(len, max, i + 1);
            assert((i + 1) * max == i * max + max) by (nonlinear_arith);
            assert(i * max >= 0) by (nonlinear_arith)
                requires
                    i >= 0,
                    max > 0,
            ;
        }
    }
}

/// Every chunk is split for itself, in the order of the chunks.
pub proof fn law_chunks_are_split_one_by_one<T>(
    a: Seq<ChunkView<T>>,
    b: Seq<ChunkView<T>>,
    max: int,
)
    ensures
        split_all(a + b, max) == split_all(a, max) + split_all(b, max),
    decreases b.len(),
{
    if b.len() == 0 {
        assert(a + b =~= a);
        assert(split_all(a, max) + split_all(b, max) =~= split_all(a, max));
    } else {
        law_chunks_are_split_one_by_one(a, b.drop_last(), max);
        assert((a + b).drop_last() =~= a + b.drop_last());
        assert((a + b).last() == b.last());
        assert(split_all(a, max) + (split_all(b.drop_last(), max) + pieces(b.last(), max))
            =~= split_all(a, max) + split_all(b.drop_last(), max) + pieces(b.last(), max));
    }
}

/// The chunk holds the samples of the waveform from where it stands: where its slice
/// begins and where in the slice it begins.
pub open spec fn stands_in<T>(chunk: ChunkView<T>, samples: Seq<T>) -> bool {
    let from = chunk.slice_start + chunk.split_start;
    &&& 0 <= from
    &&& from + chunk.waveform.len() <= samples.len()
    &&& forall|t: int|
        0 <= t < chunk.waveform.len() ==> #[trigger] chunk.waveform[t] == samples[from + t]
}

/// Splitting leaves every sample at its place in the waveform.
proof fn lemma_split_stands<T>(chunks: Seq<ChunkView<T>>, max: int, samples: Seq<T>)
    requires
        max > 0,
        forall|i: int| 0 <= i < chunks.len() ==> stands_in(#[trigger] chunks[i], samples),
    ensures
        forall|i: int|
            0 <= i < split_all(chunks, max).len() ==> stands_in(
                #[trigger] split_all(chunks, max)[i],
                samples,
            ),
    decreases chunks.len(),
{
    if chunks.len() > 0 {
        let before = split_all(chunks.drop_last(), max);
        let last = chunks.last();
        let parts = pieces(last, max);
        assert forall|i: int| 0 <= i < chunks.drop_last().len() implies stands_in(
            #[trigger] chunks.drop_last()[i],
            samples,
        ) by {
            assert(stands_in(chunks[i], samples));
        }
        lemma_split_stands(chunks.drop_last(), max, samples);
        assert(stands_in(chunks[chunks.len() - 1], samples));
        assert forall|i: int| 0 <= i < parts.len() implies stands_in(
            #[trigger] parts[i],
            samples,
        ) by {
            if last.waveform.len() > max {
                lemma_piece_count(last.waveform.len() as int, max, i);
                assert((i + 1) * max == i * max + max) by (nonlinear_arith);
                assert(i * max >= 0) by (nonlinear_arith)
                    requires
                        i >= 0,
                        max > 0,
                ;
                let part = parts[i];
                assert forall|t: int| 0 <= t < part.waveform.len() implies (
                #[trigger] part.waveform[t]) == samples[part.slice_start + part.split_start
                    + t] by {
                    assert(part.waveform[t] == last.waveform[i * max + t]);
                }
            }
        }
        let all = split_all(chunks, max);
        assert forall|i: int| 0 <= i < all.len() implies stands_in(#[trigger] all[i], samples) by {
            if i < before.len() {
                assert(all[i] == before[i]);
            } else {
                assert(all[i] == parts[i - before.len()]);
            }
        }
    }
}

/// After slicing and splitting, sample `t` of a chunk is the sample of the waveform at
/// the beginning of its slice, plus the beginning of the chunk in the slice, plus `t`.
pub proof fn law_chunks_stand_in_the_waveform<T>(
    samples: Seq<T>,
    levels: Seq<u32>,
    threshold: u32,
    rules: FrameRules,
    max: int,
)
    requires
        max > 0,
        samples.len() >= 1,
        rules.hop_size >= 1,
        rules.win_size >= 1,
        levels.len() == frame_count(
            samples.len() as int,
            rules.win_size as int,
            rules.hop_size as int,
        ),
    ensures
        forall|i: int, t: int|
            #![trigger split_all(
                sliced(samples, levels, threshold, rules),
                max,
            )[i].waveform[t]]
            0 <= i < split_all(sliced(samples, levels, threshold, rules), max).len() && 0 <= t
                < split_all(sliced(samples, levels, threshold, rules), max)[i].waveform.len() ==> {
                let chunk = split_all(sliced(samples, levels, threshold, rules), max)[i];
                &&& 0 <= chunk.slice_start + chunk.split_start + t < samples.len()
                &&& chunk.waveform[t] == samples[chunk.slice_start + chunk.split_start + t]
            },
{
    let slices = sliced(samples, levels, threshold, rules);
    law_slices_in_order(samples, levels, threshold, rules);
    assert forall|i: int| 0 <= i < slices.len() implies stands_in(
        #[trigger] slices[i],
        samples,
    ) by {}
    lemma_split_stands(slices, max, samples);
    let all = split_all(slices, max);
    assert forall|i: int, t: int|
        #![trigger all[i].waveform[t]]
        0 <= i < all.len() && 0 <= t < all[i].waveform.len() implies {
        let chunk = all[i];
        &&& 0 <= chunk.slice_start + chunk.split_start + t < samples.len()
        &&& chunk.waveform[t] == samples[chunk.slice_start + chunk.split_start + t]
    } by {
        assert(stands_in(all[i], samples));
    }
}

/// After splitting no chunk is longer than the limit, and each part begins
/// where its predecessor in the same slice ended.
pub proof fn law_split_bounds_parts<T>(chunk: ChunkView<T>, max: int)
    requires
        max > 0,
    ensures
        forall|i: int|
            0 <= i < pieces(chunk, max).len() ==> (#[trigger] pieces(chunk, max)[i]).waveform.len()
                <= max && pieces(chunk, max)[i].slice_start == chunk.slice_start && pieces(
                chunk,
                max,
            )[i].split_start == chunk.split_start + i * max,
        forall|i: int|
            0 < i < pieces(chunk, max).len() ==> (#[trigger] pieces(chunk, max)[i]).waveform.len()
                > 0,
{
    let parts = pieces(chunk, max);
    if chunk.waveform.len() > max {
        assert forall|i: int| 0 <= i < parts.len() implies (#[trigger] parts[i]).waveform.len()
            <= max && parts[i].waveform.len() > 0 by {
            lemma_piece_count(chunk.waveform.len() as int, max, i);
            assert((i + 1) * max == i * max + max) by (nonlinear_arith);
            assert(i * max >= 0) by (nonlinear_arith)
                requires
                    i >= 0,
                    max > 0,
            ;
        }
    }
}

} // verus!
