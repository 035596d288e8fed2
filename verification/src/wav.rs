//! Reading WAV files.
use vstd::arithmetic::power2::{lemma_pow2_unfold, pow2};
use vstd::prelude::*;
use vstd::string::*;

use hound::{SampleFormat, WavReader};

use crate::audio::{
    are_resampled, interleaved_to_mono, prepare_error, prepare_waveform, stays_inside, target_rate,
    PreparedWaveform,
};
use crate::error::Error;
use crate::text::{decimal, push_decimal};

verus! {

// ---------------------------------------------------------------------------
// Decoding
// ---------------------------------------------------------------------------
/// What the head of a WAV file tells.
#[derive(Debug, Clone, Copy, PartialEq, Eq, Structural)]
pub struct WavHeader {
    pub channels: u16,
    pub sample_rate: u32,
    pub bits_per_sample: u16,
    /// The samples are fractions, not integers.
    pub float: bool,
}

/// The head of the WAV file that bytes hold, or why they hold none.
pub uninterp spec fn header_of(bytes: Seq<u8>) -> Result<WavHeader, Seq<char>>;

/// The integer samples of the WAV file that bytes hold, or why they cannot be read.
pub uninterp spec fn ints_of(bytes: Seq<u8>) -> Result<Seq<i32>, Seq<char>>;

pub open spec fn header_view(r: Result<WavHeader, String>) -> Result<WavHeader, Seq<char>> {
    match r {
        Ok(h) => Ok(h),
        Err(e) => Err(e@),
    }
}

pub open spec fn ints_view(r: Result<Vec<i32>, String>) -> Result<Seq<i32>, Seq<char>> {
    match r {
        Ok(v) => Ok(v@),
        Err(e) => Err(e@),
    }
}

/// `hound::WavReader::new` on the bytes, and its `spec`: what the head of the file
/// tells, which depends on the bytes alone. The reader refuses a file without
/// channels. Its error is given as the text that it is shown as.
#[verifier::external_body]
fn read_header(bytes: &[u8]) -> (r: Result<WavHeader, String>)
    ensures
        header_view(r) == header_of(bytes@),
        r matches Ok(h) ==> h.channels > 0,
{
    let spec = WavReader::new(bytes).map_err(|e| e.to_string())?.spec();
    let float = match spec.sample_format {
        SampleFormat::Float => true,
        SampleFormat::Int => false,
    };
    Ok(
        WavHeader {
            channels: spec.channels,
            sample_rate: spec.sample_rate,
            bits_per_sample: spec.bits_per_sample,
            float,
        },
    )
}

/// `hound::WavReader::samples` on the bytes, as integers of 32 bits: all of them in
/// their order, or the first error. They depend on the bytes alone. An error is given
/// as the text that it is shown as.
#[verifier::external_body]
fn read_ints(bytes: &[u8]) -> (r: Result<Vec<i32>, String>)
    ensures
        ints_view(r) == ints_of(bytes@),
{
    let mut reader = WavReader::new(bytes).map_err(|e| e.to_string())?;
    reader.samples::<i32>().collect::<Result<Vec<i32>, hound::Error>>().map_err(|e| e.to_string())
}

// ---------------------------------------------------------------------------
// Messages
// ---------------------------------------------------------------------------
pub open spec fn open_text(path: Seq<char>, reason: Seq<char>) -> Seq<char> {
    "failed to open WAV "@ + path + ": "@ + reason
}

pub open spec fn decode_text(path: Seq<char>, reason: Seq<char>) -> Seq<char> {
    "failed to decode WAV "@ + path + ": "@ + reason
}

fn reason_error(what: &str, path: &str, reason: &str) -> (e: Error)
    ensures
        e@ == what@ + path@ + ": "@ + reason@,
{
    let mut text = String::from_str(what);
    text.append(path);
    text.append(": ");
    text.append(reason);
    Error::from_text(text)
}

/// The error on a file that cannot be opened.
pub fn open_error(path: &str, reason: &str) -> (e: Error)
    ensures
        e@ == open_text(path@, reason@),
{
    reason_error("failed to open WAV ", path, reason)
}

/// What is wrong with what the head of a file tells.
pub open spec fn header_error(h: WavHeader, path: Seq<char>) -> Option<Seq<char>> {
    if h.channels == 0 {
        Some("WAV "@ + path + " reports zero channels"@)
    } else if !h.float && (h.bits_per_sample == 0 || h.bits_per_sample > 32) {
        Some("unsupported WAV bit depth "@ + decimal(h.bits_per_sample as nat) + " in "@ + path)
    } else {
        None
    }
}

/// Checks what the head of a file tells.
pub fn check_header(h: &WavHeader, path: &str) -> (r: Result<(), Error>)
    ensures
        match r {
            Ok(_) => header_error(*h, path@) is None,
            Err(e) => header_error(*h, path@) == Some(e@),
        },
{
    if h.channels == 0 {
        let mut text = String::from_str("WAV ");
        text.append(path);
        text.append(" reports zero channels");
        return Err(Error::from_text(text));
    }
    if !h.float && (h.bits_per_sample == 0 || h.bits_per_sample > 32) {
        let mut text = String::from_str("unsupported WAV bit depth ");
        push_decimal(&mut text, h.bits_per_sample as u64);
        text.append(" in ");
        text.append(path);
        return Err(Error::from_text(text));
    }
    Ok(())
}

// ---------------------------------------------------------------------------
// Waveforms
// ---------------------------------------------------------------------------
/// The value that integer samples of a depth are measured by: just above the largest.
pub fn full_scale(bits: u16) -> (n: u32)
    requires
        1 <= bits <= 32,
    ensures
        n == pow2((bits - 1) as nat),
{
    let mut n: u32 = 1;
    let mut i: u16 = 1;
    proof {
        vstd::arithmetic::power2::lemma2_to64();
    }
    while i < bits
        invariant
            1 <= i <= bits <= 32,
            n == pow2((i - 1) as nat),
        decreases bits - i,
    {
        proof {
            lemma_pow2_unfold(i as nat);
            vstd::arithmetic::power2::lemma2_to64();
            if i < 31 {
                vstd::arithmetic::power2::lemma_pow2_strictly_increases(i as nat, 31);
            }
        }
        n = 2 * n;
        i += 1;
    }
    n
}

/// `out` can be the samples that integers stand for.
pub open spec fn are_scaled<T, S: Fn(i32, u32) -> T>(
    values: Seq<i32>,
    bits: u16,
    scale: S,
    out: Seq<T>,
) -> bool {
    &&& out.len() == values.len()
    &&& forall|i: int|
        0 <= i < out.len() ==> call_ensures(
            scale,
            (values[i], pow2((bits - 1) as nat) as u32),
            #[trigger] out[i],
        )
}

/// Turns integers into samples; `scale` gives the sample from an integer and the
/// value that it is measured by.
pub fn scale_samples<T: Copy, S: Fn(i32, u32) -> T>(values: &Vec<i32>, bits: u16, scale: &S) -> (out:
    Vec<T>)
    requires
        1 <= bits <= 32,
        forall|v: i32, n: u32| call_requires(*scale, (v, n)),
    ensures
        are_scaled(values@, bits, *scale, out@),
{
    let full: u32 = full_scale(bits);
    let mut out: Vec<T> = Vec::new();
    let mut i: usize = 0;
    while i < values.len()
        invariant
            i <= values.len(),
            full == pow2((bits - 1) as nat),
            out.len() == i,
            forall|v: i32, n: u32| call_requires(*scale, (v, n)),
            forall|k: int|
                0 <= k < i ==> call_ensures(
                    *scale,
                    (values@[k], pow2((bits - 1) as nat) as u32),
                    #[trigger] out@[k],
                ),
        decreases values.len() - i,
    {
        out.push(scale(values[i], full));
        i += 1;
    }
    out
}

/// `w` can be what a file with this head and these interleaved samples holds, mixed
/// down.
pub open spec fn is_waveform<T, M: Fn(&[T], usize, usize) -> T>(
    h: WavHeader,
    interleaved: &[T],
    mix: M,
    w: PreparedWaveform<T>,
) -> bool {
    let channels = h.channels as int;
    &&& interleaved@.len() as int % channels == 0
    &&& w.sample_rate == h.sample_rate && w.source_sample_rate == h.sample_rate
    &&& w.source_channels == channels
    &&& if channels == 1 {
        w.samples@ == interleaved@
    } else {
        &&& w.samples.len() == interleaved@.len() as int / channels
        &&& forall|f: int|
            0 <= f < w.samples.len() ==> call_ensures(
                mix,
                (interleaved, (f * channels) as usize, ((f + 1) * channels) as usize),
                #[trigger] w.samples@[f],
            )
    }
}

pub open spec fn uneven_text(len: nat, channels: nat) -> Seq<char> {
    "interleaved sample count "@ + decimal(len) + " is not divisible by channel count "@ + decimal(
        channels,
    )
}

/// Mixes the samples of a file down.
pub fn wav_waveform<T: Copy, M: Fn(&[T], usize, usize) -> T>(
    h: &WavHeader,
    interleaved: &[T],
    mix: M,
) -> (r: Result<PreparedWaveform<T>, Error>)
    requires
        h.channels > 0,
        forall|s: &[T], from: usize, to: usize|
            from <= to <= s@.len() ==> call_requires(mix, (s, from, to)),
    ensures
        match r {
            Ok(w) => is_waveform(*h, interleaved, mix, w),
            Err(e) => interleaved@.len() as int % h.channels as int != 0 && e@ == uneven_text(
                interleaved@.len(),
                h.channels as nat,
            ),
        },
{
    match interleaved_to_mono(interleaved, h.channels as usize, mix) {
        Ok(samples) => Ok(
            PreparedWaveform {
                samples,
                sample_rate: h.sample_rate as usize,
                source_sample_rate: h.sample_rate as usize,
                source_channels: h.channels as usize,
            },
        ),
        Err(e) => Err(e),
    }
}

/// `r` can come of a file whose interleaved samples are `s`.
pub open spec fn is_mixed<T, M: Fn(&[T], usize, usize) -> T>(
    h: WavHeader,
    s: &[T],
    mix: M,
    r: Result<PreparedWaveform<T>, Error>,
) -> bool {
    match r {
        Ok(w) => is_waveform(h, s, mix, w),
        Err(e) => s@.len() as int % h.channels as int != 0 && e@ == uneven_text(
            s@.len(),
            h.channels as nat,
        ),
    }
}

/// `r` can come of a file of integers.
pub open spec fn is_from_ints<T, S: Fn(i32, u32) -> T, M: Fn(&[T], usize, usize) -> T>(
    h: WavHeader,
    values: Seq<i32>,
    scale: S,
    mix: M,
    s: &[T],
    r: Result<PreparedWaveform<T>, Error>,
) -> bool {
    are_scaled(values, h.bits_per_sample, scale, s@) && is_mixed(h, s, mix, r)
}

/// `r` can come of a file of fractions that were decoded as `s`.
pub open spec fn is_from_floats<
    T,
    F: Fn(&[u8]) -> Result<Vec<T>, String>,
    M: Fn(&[T], usize, usize) -> T,
>(
    bytes: &[u8],
    path: Seq<char>,
    h: WavHeader,
    floats: F,
    mix: M,
    d: Result<Vec<T>, String>,
    s: &[T],
    r: Result<PreparedWaveform<T>, Error>,
) -> bool {
    &&& call_ensures(floats, (bytes,), d)
    &&& match d {
        Ok(v) => s@ == v@ && is_mixed(h, s, mix, r),
        Err(reason) => r matches Err(e) && e@ == decode_text(path, reason@),
    }
}

/// `r` can come of reading a file of these bytes.
pub open spec fn is_loaded<
    T,
    S: Fn(i32, u32) -> T,
    F: Fn(&[u8]) -> Result<Vec<T>, String>,
    M: Fn(&[T], usize, usize) -> T,
>(
    bytes: &[u8],
    path: Seq<char>,
    scale: S,
    floats: F,
    mix: M,
    r: Result<PreparedWaveform<T>, Error>,
) -> bool {
    match header_of(bytes@) {
        Err(reason) => r matches Err(e) && e@ == open_text(path, reason),
        Ok(h) => match header_error(h, path) {
            Some(text) => r matches Err(e) && e@ == text,
            None => if h.float {
                exists|d: Result<Vec<T>, String>, s: &[T]| #[trigger]
                    is_from_floats(bytes, path, h, floats, mix, d, s, r)
            } else {
                match ints_of(bytes@) {
                    Err(reason) => r matches Err(e) && e@ == decode_text(path, reason),
                    Ok(values) => exists|s: &[T]| #[trigger]
                        is_from_ints(h, values, scale, mix, s, r),
                }
            },
        },
    }
}

/// Reads a WAV file, given its bytes, in mono. `scale` gives a sample from an integer
/// and the value that it is measured by, `floats` decodes a file of fractions, and
/// `mix` mixes a frame down.
pub fn load_wav_mono_f32<
    T: Copy,
    S: Fn(i32, u32) -> T,
    F: Fn(&[u8]) -> Result<Vec<T>, String>,
    M: Fn(&[T], usize, usize) -> T,
>(bytes: &[u8], path: &str, scale: &S, floats: &F, mix: M) -> (r: Result<
    PreparedWaveform<T>,
    Error,
>)
    requires
        forall|v: i32, n: u32| call_requires(*scale, (v, n)),
        forall|b: &[u8]| call_requires(*floats, (b,)),
        forall|s: &[T], from: usize, to: usize|
            from <= to <= s@.len() ==> call_requires(mix, (s, from, to)),
    ensures
        is_loaded(bytes, path@, *scale, *floats, mix, r),
{
    let h: WavHeader = match read_header(bytes) {
        Ok(h) => h,
        Err(reason) => {
            return Err(open_error(path, &reason));
        },
    };
    if let Err(e) = check_header(&h, path) {
        return Err(e);
    }
    if h.float {
        let d: Result<Vec<T>, String> = floats(bytes);
        let ghost decoded = d;
        match d {
            Ok(interleaved) => {
                let s: &[T] = interleaved.as_slice();
                let r = wav_waveform(&h, s, mix);
                assert(is_from_floats(bytes, path@, h, *floats, mix, decoded, s, r));
                r
            },
            Err(reason) => {
                let r: Result<PreparedWaveform<T>, Error> = Err(
                    reason_error("failed to decode WAV ", path, &reason),
                );
                proof {
                    let s: &[T] = arbitrary();
                    assert(is_from_floats(bytes, path@, h, *floats, mix, decoded, s, r));
                }
                r
            },
        }
    } else {
        let values: Vec<i32> = match read_ints(bytes) {
            Ok(values) => values,
            Err(reason) => {
                return Err(reason_error("failed to decode WAV ", path, &reason));
            },
        };
        let interleaved: Vec<T> = scale_samples(&values, h.bits_per_sample, scale);
        let s: &[T] = interleaved.as_slice();
        let r = wav_waveform(&h, s, mix);
        proof {
            let told = ints_of(bytes@)->Ok_0;
            assert(told == values@);
            assert(is_from_ints(header_of(bytes@)->Ok_0, told, *scale, mix, s, r));
        }
        r
    }
}

/// `r` can come of preparing what was read as `source`.
pub open spec fn is_prepared<
    T,
    P: Fn(usize, usize, usize, usize) -> usize,
    B: Fn(T, T, usize, usize, usize) -> T,
>(
    source: PreparedWaveform<T>,
    target: i32,
    left: P,
    blend: B,
    r: Result<PreparedWaveform<T>, Error>,
) -> bool {
    match prepare_error(source.samples.len() as int, source.sample_rate, target) {
        Some(text) => r matches Err(e) && e@ == text,
        None => r matches Ok(w) && w.sample_rate == target_rate(target, source.sample_rate)
            && w.source_sample_rate == source.sample_rate && w.source_channels
            == source.source_channels && are_resampled(
            source.samples@,
            source.sample_rate,
            w.sample_rate,
            left,
            blend,
            w.samples@,
        ),
    }
}

/// `r` can come of reading a file as `source`, or failing to, and preparing it.
pub open spec fn is_read_and_prepared<
    T,
    S: Fn(i32, u32) -> T,
    F: Fn(&[u8]) -> Result<Vec<T>, String>,
    M: Fn(&[T], usize, usize) -> T,
    P: Fn(usize, usize, usize, usize) -> usize,
    B: Fn(T, T, usize, usize, usize) -> T,
>(
    bytes: &[u8],
    path: Seq<char>,
    target: i32,
    scale: S,
    floats: F,
    mix: M,
    left: P,
    blend: B,
    source: Result<PreparedWaveform<T>, Error>,
    r: Result<PreparedWaveform<T>, Error>,
) -> bool {
    &&& is_loaded(bytes, path, scale, floats, mix, source)
    &&& match source {
        Ok(w) => is_prepared(w, target, left, blend, r),
        Err(e) => r == Err::<PreparedWaveform<T>, Error>(e),
    }
}

/// Reads a WAV file, given its bytes, in mono at the rate of the model; zero stands
/// for the rate of the file.
pub fn prepare_wav_for_inference<
    T: Copy,
    S: Fn(i32, u32) -> T,
    F: Fn(&[u8]) -> Result<Vec<T>, String>,
    M: Fn(&[T], usize, usize) -> T,
    P: Fn(usize, usize, usize, usize) -> usize,
    B: Fn(T, T, usize, usize, usize) -> T,
>(
    bytes: &[u8],
    path: &str,
    target_sample_rate: i32,
    scale: &S,
    floats: &F,
    mix: M,
    left: &P,
    blend: &B,
) -> (r: Result<PreparedWaveform<T>, Error>)
    requires
        forall|v: i32, n: u32| call_requires(*scale, (v, n)),
        forall|b: &[u8]| call_requires(*floats, (b,)),
        forall|s: &[T], from: usize, to: usize|
            from <= to <= s@.len() ==> call_requires(mix, (s, from, to)),
        forall|i: usize, n: usize, src: usize, dst: usize|
            call_requires(*left, (i, n, src, dst)),
        stays_inside(*left),
        forall|a: T, b: T, i: usize, src: usize, dst: usize|
            call_requires(*blend, (a, b, i, src, dst)),
    ensures
        exists|source: Result<PreparedWaveform<T>, Error>| #[trigger]
            is_read_and_prepared(
                bytes,
                path@,
                target_sample_rate,
                *scale,
                *floats,
                mix,
                *left,
                *blend,
                source,
                r,
            ),
{
    let source = load_wav_mono_f32(bytes, path, scale, floats, mix);
    let ghost told = source;
    let r = match source {
        Ok(w) => prepare_waveform(&w, target_sample_rate, left, blend),
        Err(e) => Err(e),
    };
    assert(is_read_and_prepared(
        bytes,
        path@,
        target_sample_rate,
        *scale,
        *floats,
        mix,
        *left,
        *blend,
        told,
        r,
    ));
    r
}

/// The frames of `samples`, mixed one by one; mono samples are left as they are.
pub open spec fn are_mixed_frames<T, M: Fn(&[T], usize, usize) -> T>(
    samples: &[T],
    channels: int,
    mix: M,
    mono: Seq<T>,
) -> bool {
    &&& mono.len() * channels == samples@.len()
    &&& channels == 1 ==> mono == samples@
    &&& channels != 1 ==> forall|f: int|
        0 <= f < mono.len() ==> call_ensures(
            mix,
            (samples, (f * channels) as usize, (f * channels + channels) as usize),
            #[trigger] mono[f],
        )
}

proof fn lemma_mixed_frames<T, M: Fn(&[T], usize, usize) -> T>(
    h: WavHeader,
    samples: &[T],
    mix: M,
    w: PreparedWaveform<T>,
)
    requires
        h.channels > 0,
        is_waveform(h, samples, mix, w),
    ensures
        are_mixed_frames(samples, h.channels as int, mix, w.samples@),
{
    let c = h.channels as int;
    let n = samples@.len() as int;
    vstd::arithmetic::div_mod::lemma_fundamental_div_mod(n, c);
    assert((n / c) * c == c * (n / c)) by (nonlinear_arith);
    if c == 1 {
        assert(n * 1 == n);
    } else {
        assert forall|f: int| 0 <= f < w.samples@.len() implies call_ensures(
            mix,
            (samples, (f * c) as usize, (f * c + c) as usize),
            #[trigger] w.samples@[f],
        ) by {
            assert((f + 1) * c == f * c + c) by (nonlinear_arith);
        }
    }
}

/// What is read of a file of whole numbers: every number is scaled by the largest of its
/// width, the frames are mixed, and rate and channels are those of the header. It is
/// refused exactly where there are no channels, where the width is none that can be read,
/// or where the last frame is not complete.
pub proof fn law_whole_numbers_are_scaled_and_mixed<
    T,
    S: Fn(i32, u32) -> T,
    F: Fn(&[u8]) -> Result<Vec<T>, String>,
    M: Fn(&[T], usize, usize) -> T,
>(
    bytes: &[u8],
    path: Seq<char>,
    scale: S,
    floats: F,
    mix: M,
    r: Result<PreparedWaveform<T>, Error>,
    h: WavHeader,
    values: Seq<i32>,
)
    requires
        is_loaded(bytes, path, scale, floats, mix, r),
        header_of(bytes@) == Ok::<WavHeader, Seq<char>>(h),
        !h.float,
        ints_of(bytes@) == Ok::<Seq<i32>, Seq<char>>(values),
    ensures
        r is Ok <==> h.channels > 0 && 1 <= h.bits_per_sample <= 32 && values.len() as int
            % h.channels as int == 0,
        r matches Ok(w) ==> {
            &&& w.sample_rate == h.sample_rate
            &&& w.source_sample_rate == h.sample_rate
            &&& w.source_channels == h.channels
            &&& exists|s: &[T]|
                {
                    &&& s@.len() == values.len()
                    &&& forall|i: int|
                        0 <= i < values.len() ==> call_ensures(
                            scale,
                            (values[i], pow2((h.bits_per_sample - 1) as nat) as u32),
                            #[trigger] s@[i],
                        )
                    &&& #[trigger] are_mixed_frames(s, h.channels as int, mix, w.samples@)
                }
        },
{
    if header_error(h, path) is None {
        let s = choose|s: &[T]| #[trigger] is_from_ints(h, values, scale, mix, s, r);
        if r is Ok {
            lemma_mixed_frames(h, s, mix, r->Ok_0);
            assert(are_mixed_frames(s, h.channels as int, mix, r->Ok_0.samples@));
        }
    }
}

/// What is read of a file of fractions: what the decoder gives, mixed; rate and channels
/// are those of the header.
pub proof fn law_fractions_are_mixed<
    T,
    S: Fn(i32, u32) -> T,
    F: Fn(&[u8]) -> Result<Vec<T>, String>,
    M: Fn(&[T], usize, usize) -> T,
>(
    bytes: &[u8],
    path: Seq<char>,
    scale: S,
    floats: F,
    mix: M,
    w: PreparedWaveform<T>,
    h: WavHeader,
)
    requires
        is_loaded(bytes, path, scale, floats, mix, Ok::<PreparedWaveform<T>, Error>(w)),
        header_of(bytes@) == Ok::<WavHeader, Seq<char>>(h),
        h.float,
    ensures
        h.channels > 0,
        w.sample_rate == h.sample_rate,
        w.source_sample_rate == h.sample_rate,
        w.source_channels == h.channels,
        exists|d: Vec<T>, s: &[T]|
            {
                &&& #[trigger] call_ensures(floats, (bytes,), Ok::<Vec<T>, String>(d))
                &&& s@ == d@
                &&& #[trigger] are_mixed_frames(s, h.channels as int, mix, w.samples@)
            },
{
    let r = Ok::<PreparedWaveform<T>, Error>(w);
    let (d, s) = choose|d: Result<Vec<T>, String>, s: &[T]| #[trigger]
        is_from_floats(bytes, path, h, floats, mix, d, s, r);
    lemma_mixed_frames(h, s, mix, w);
    assert(d is Ok);
    let v = d->Ok_0;
    assert(d == Ok::<Vec<T>, String>(v));
    assert(call_ensures(floats, (bytes,), Ok::<Vec<T>, String>(v)));
    assert(are_mixed_frames(s, h.channels as int, mix, w.samples@));
}

} // verus!
