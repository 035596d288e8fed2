//! The chunks of a run: what is reported of each, what becomes of their errors, and
//! how their notes are put together.
use vstd::prelude::*;
use vstd::string::*;

use crate::audio::SliceChunk;
use crate::error::Error;
use crate::notify::{
    detail_view, event_views, ChunkContext, CoreEvent, Elapsed, EventView, NotificationLevel,
};
use crate::seeds::{draws_base, law_given_seed_is_kept, seed_for};
use crate::slices::lemma_insert_multiset;
use crate::text::{contains, contains_str, decimal, occurs_at, push_decimal};

verus! {

// ---------------------------------------------------------------------------
// Labels
// ---------------------------------------------------------------------------
/// `chunk N/M`, counted from one.
pub open spec fn chunk_label_text(index: int, count: int) -> Seq<char> {
    "chunk "@ + decimal((index + 1) as nat) + "/"@ + decimal(count as nat)
}

/// The label of a chunk.
pub fn chunk_label(index: usize, count: usize) -> (s: String)
    requires
        index < usize::MAX,
    ensures
        s@ == chunk_label_text(index as int, count as int),
{
    let mut s = String::from_str("chunk ");
    push_decimal(&mut s, (index + 1) as u64);
    s.append("/");
    push_decimal(&mut s, count as u64);
    s
}

/// A text behind the label of its chunk.
pub open spec fn labelled_text(index: int, count: int, text: Seq<char>) -> Seq<char> {
    chunk_label_text(index, count) + ": "@ + text
}

/// Puts the label of a chunk in front of a text.
pub fn prefix_text(index: usize, count: usize, text: &str) -> (s: String)
    requires
        index < usize::MAX,
    ensures
        s@ == labelled_text(index as int, count as int, text@),
{
    let mut s = chunk_label(index, count);
    s.append(": ");
    s.append(text);
    s
}

/// The chunk that an event names, or the one that it comes from.
pub open spec fn context_or(chunk: Option<ChunkContext>, ctx: ChunkContext) -> Option<
    ChunkContext,
> {
    match chunk {
        Some(c) => Some(c),
        None => Some(ctx),
    }
}

pub open spec fn labelled_detail(detail: Option<Seq<char>>, ctx: ChunkContext) -> Option<
    Seq<char>,
> {
    match detail {
        Some(text) => Some(labelled_text(ctx.index as int, ctx.count as int, text)),
        None => Some(chunk_label_text(ctx.index as int, ctx.count as int)),
    }
}

/// An event of a chunk as the receiver of the run gets it: it names the chunk, and
/// its text begins with the label of the chunk.
pub open spec fn prefixed(event: EventView, ctx: ChunkContext) -> EventView {
    match event {
        EventView::Status { stage, message, chunk } => EventView::Status {
            stage,
            message: labelled_text(ctx.index as int, ctx.count as int, message),
            chunk: context_or(chunk, ctx),
        },
        EventView::Progress { stage, current, total, detail, chunk } => EventView::Progress {
            stage,
            current,
            total,
            detail: labelled_detail(detail, ctx),
            chunk: context_or(chunk, ctx),
        },
        EventView::Timing { stage, elapsed, detail, chunk } => EventView::Timing {
            stage,
            elapsed,
            detail: labelled_detail(detail, ctx),
            chunk: context_or(chunk, ctx),
        },
        EventView::Message { level, message } => EventView::Message {
            level,
            message: labelled_text(ctx.index as int, ctx.count as int, message),
        },
        EventView::ModelLoaded { backend, elapsed } => EventView::ModelLoaded { backend, elapsed },
        EventView::ChunkPlan { total } => EventView::ChunkPlan { total },
    }
}

fn or_context(chunk: Option<ChunkContext>, ctx: ChunkContext) -> (r: Option<ChunkContext>)
    ensures
        r == context_or(chunk, ctx),
{
    match chunk {
        Some(c) => Some(c),
        None => Some(ctx),
    }
}

fn label_detail(detail: Option<String>, ctx: ChunkContext) -> (r: Option<String>)
    requires
        ctx.index < usize::MAX,
    ensures
        detail_view(r) == labelled_detail(detail_view(detail), ctx),
{
    match detail {
        Some(text) => Some(prefix_text(ctx.index, ctx.count, &text)),
        None => Some(chunk_label(ctx.index, ctx.count)),
    }
}

/// Makes the event of a chunk one of the run.
pub fn prefix_event(event: CoreEvent, ctx: ChunkContext) -> (r: CoreEvent)
    requires
        ctx.index < usize::MAX,
    ensures
        r@ == prefixed(event@, ctx),
{
    match event {
        CoreEvent::Status { stage, message, chunk } => CoreEvent::Status {
            stage,
            message: prefix_text(ctx.index, ctx.count, &message),
            chunk: or_context(chunk, ctx),
        },
        CoreEvent::Progress { stage, current, total, detail, chunk } => CoreEvent::Progress {
            stage,
            current,
            total,
            detail: label_detail(detail, ctx),
            chunk: or_context(chunk, ctx),
        },
        CoreEvent::Timing { stage, elapsed, detail, chunk } => CoreEvent::Timing {
            stage,
            elapsed,
            detail: label_detail(detail, ctx),
            chunk: or_context(chunk, ctx),
        },
        CoreEvent::Message { level, message } => CoreEvent::Message {
            level,
            message: prefix_text(ctx.index, ctx.count, &message),
        },
        CoreEvent::ModelLoaded { backend, elapsed } => CoreEvent::ModelLoaded { backend, elapsed },
        CoreEvent::ChunkPlan { total } => CoreEvent::ChunkPlan { total },
    }
}

/// Every event of a chunk that can name a chunk does so when the run passes it on,
/// and one that named a chunk already keeps naming that one.
pub proof fn law_prefixed_events_name_their_chunk(event: EventView, ctx: ChunkContext)
    ensures
        prefixed(event, ctx) matches EventView::Status { chunk, .. } ==> chunk is Some,
        prefixed(event, ctx) matches EventView::Progress { chunk, detail, .. } ==> chunk is Some
            && detail is Some,
        prefixed(event, ctx) matches EventView::Timing { chunk, detail, .. } ==> chunk is Some
            && detail is Some,
        event matches EventView::Status { chunk: Some(c), .. } ==> prefixed(event, ctx)
            matches EventView::Status { chunk, .. } && chunk == Some(c),
{
}

// ---------------------------------------------------------------------------
// The beginning of the chunks
// ---------------------------------------------------------------------------
/// Where a chunk begins and how long it is, in seconds with two decimals.
#[derive(Debug, Clone)]
pub struct ChunkSpan {
    pub offset: String,
    pub duration: String,
}

pub open spec fn chunk_start_text(
    index: int,
    count: int,
    offset: Seq<char>,
    duration: Seq<char>,
) -> Seq<char> {
    chunk_label_text(index, count) + ": infer start offset="@ + offset + "s duration="@ + duration
        + "s"@
}

pub open spec fn chunk_start_event(span: ChunkSpan, index: int, count: int) -> EventView {
    EventView::Status {
        stage: "chunk_infer"@,
        message: chunk_start_text(index, count, span.offset@, span.duration@),
        chunk: Some(ChunkContext { index: index as usize, count: count as usize }),
    }
}

/// The events that announce the chunks, one for each, in order.
pub fn chunk_start_events(spans: &Vec<ChunkSpan>) -> (events: Vec<CoreEvent>)
    ensures
        events.len() == spans.len(),
        forall|i: int|
            0 <= i < spans.len() ==> (#[trigger] events@[i])@ == chunk_start_event(
                spans@[i],
                i,
                spans.len() as int,
            ),
{
    let count: usize = spans.len();
    let mut events: Vec<CoreEvent> = Vec::new();
    let mut i: usize = 0;
    while i < count
        invariant
            i <= count,
            count == spans.len(),
            events.len() == i,
            forall|j: int|
                0 <= j < i ==> (#[trigger] events@[j])@ == chunk_start_event(
                    spans@[j],
                    j,
                    count as int,
                ),
        decreases count - i,
    {
        let mut message = chunk_label(i, count);
        message.append(": infer start offset=");
        message.append(&spans[i].offset);
        message.append("s duration=");
        message.append(&spans[i].duration);
        message.append("s");
        events.push(
            CoreEvent::Status {
                stage: "chunk_infer",
                message,
                chunk: Some(ChunkContext { index: i, count }),
            },
        );
        i += 1;
    }
    events
}

// ---------------------------------------------------------------------------
// Errors of chunks
// ---------------------------------------------------------------------------
/// How the work on a chunk ended.
#[derive(Debug)]
pub enum ChunkRun<T> {
    Returned(Result<T, Error>),
    /// It panicked, with a text where the panic carried one.
    Panicked(Option<String>),
}

pub open spec fn panic_text(index: int, count: int, detail: Option<Seq<char>>) -> Seq<char> {
    chunk_label_text(index, count) + " panicked during inference: "@ + match detail {
        Some(text) => text,
        None => "unknown panic"@,
    }
}

/// Makes an error of a panic; anything else stays as it is.
pub fn catch_chunk_panic<T>(index: usize, count: usize, run: ChunkRun<T>) -> (r: Result<T, Error>)
    requires
        index < usize::MAX,
    ensures
        match run {
            ChunkRun::Returned(result) => r == result,
            ChunkRun::Panicked(detail) => r matches Err(e) && e@ == panic_text(
                index as int,
                count as int,
                detail_view(detail),
            ),
        },
{
    match run {
        ChunkRun::Returned(result) => result,
        ChunkRun::Panicked(detail) => {
            let mut text = chunk_label(index, count);
            text.append(" panicked during inference: ");
            match &detail {
                Some(d) => {
                    text.append(d);
                },
                None => {
                    text.append("unknown panic");
                },
            }
            Err(Error::from_text(text))
        },
    }
}

/// The text of an error of a chunk: one that does not speak of a chunk gets the
/// label of its own.
pub open spec fn tagged_text(text: Seq<char>, index: int, count: int) -> Seq<char> {
    if contains(text, "chunk"@) {
        text
    } else {
        labelled_text(index, count, text)
    }
}

/// Sees to it that the error of a chunk speaks of a chunk.
pub fn tag_chunk_error(error: Error, index: usize, count: usize) -> (e: Error)
    requires
        index < usize::MAX,
    ensures
        e@ == tagged_text(error@, index as int, count as int),
{
    if contains_str(&error.text, "chunk") {
        error
    } else {
        Error::from_text(prefix_text(index, count, &error.text))
    }
}

// ---------------------------------------------------------------------------
// Putting the chunks together
// ---------------------------------------------------------------------------
/// The notes of a chunk and the time that it took.
#[derive(Debug)]
pub struct ChunkInferenceResult<N> {
    pub index: usize,
    pub notes: Vec<N>,
    pub elapsed: Elapsed,
}

/// The notes of all chunks.
#[derive(Debug)]
pub struct ChunkedExtractResult<N> {
    pub notes: Vec<N>,
    pub chunk_count: usize,
}

pub open spec fn by_index<N>(results: Seq<ChunkInferenceResult<N>>) -> bool {
    forall|i: int, j: int|
        0 <= i < j < results.len() ==> (#[trigger] results[i]).index <= (
        #[trigger] results[j]).index
}

/// The notes of the first `n` chunks, one chunk after the other.
pub open spec fn notes_of<N>(results: Seq<ChunkInferenceResult<N>>, n: int) -> Seq<N>
    decreases n,
{
    if n <= 0 {
        Seq::empty()
    } else {
        notes_of(results, n - 1) + results[n - 1].notes@
    }
}

/// The chunks that the notes of the first `n` results come from.
pub open spec fn owners_of<N>(results: Seq<ChunkInferenceResult<N>>, n: int) -> Seq<usize>
    decreases n,
{
    if n <= 0 {
        Seq::empty()
    } else {
        owners_of(results, n - 1) + Seq::new(
            results[n - 1].notes.len() as nat,
            |i: int| results[n - 1].index,
        )
    }
}

/// `moved` is the note moved by the place of a chunk in the audio.
pub open spec fn is_moved<N, T, S: Fn(&N, usize, usize, usize) -> N>(
    note: N,
    chunk: SliceChunk<T>,
    sample_rate: usize,
    shift: S,
    moved: N,
) -> bool {
    call_ensures(shift, (&note, chunk.slice_start, chunk.split_start, sample_rate), moved)
}

/// `notes` are those of the first `n` results, one chunk after the other, each moved by
/// the place of the chunk that it comes from.
pub open spec fn are_moved<N, T, S: Fn(&N, usize, usize, usize) -> N>(
    results: Seq<ChunkInferenceResult<N>>,
    n: int,
    chunks: Seq<SliceChunk<T>>,
    sample_rate: usize,
    shift: S,
    notes: Seq<N>,
) -> bool {
    &&& notes.len() == notes_of(results, n).len()
    &&& forall|i: int|
        0 <= i < notes.len() ==> is_moved(
            notes_of(results, n)[i],
            chunks[owners_of(results, n)[i] as int],
            sample_rate,
            shift,
            #[trigger] notes[i],
        )
}

/// The event that tells the end of a chunk.
pub open spec fn chunk_done_event<N>(result: ChunkInferenceResult<N>, count: int) -> EventView {
    EventView::Timing {
        stage: "chunk_infer"@,
        elapsed: result.elapsed,
        detail: Some(
            chunk_label_text(result.index as int, count) + " notes="@ + decimal(
                result.notes.len() as nat,
            ),
        ),
        chunk: Some(ChunkContext { index: result.index, count: count as usize }),
    }
}

pub open spec fn done_events<N>(results: Seq<ChunkInferenceResult<N>>, count: int) -> Seq<
    EventView,
> {
    results.map_values(|r: ChunkInferenceResult<N>| chunk_done_event(r, count))
}

/// The results of outcomes that are all successes.
pub open spec fn successes<N>(outcomes: Seq<Result<ChunkInferenceResult<N>, Error>>) -> Seq<
    ChunkInferenceResult<N>,
> {
    outcomes.map_values(|o: Result<ChunkInferenceResult<N>, Error>| o->Ok_0)
}

/// Outcome `k` is the first failure.
pub open spec fn first_failure<N>(
    outcomes: Seq<Result<ChunkInferenceResult<N>, Error>>,
    k: int,
) -> bool {
    &&& 0 <= k < outcomes.len()
    &&& outcomes[k] is Err
    &&& forall|j: int| 0 <= j < k ==> #[trigger] outcomes[j] is Ok
}

/// `sorted` has the results of all outcomes in the order of their chunks.
pub open spec fn is_sorting<N>(
    sorted: Seq<ChunkInferenceResult<N>>,
    outcomes: Seq<Result<ChunkInferenceResult<N>, Error>>,
) -> bool {
    by_index(sorted) && sorted.to_multiset() == successes(outcomes).to_multiset()
}

pub open spec fn all_below<N>(results: Seq<ChunkInferenceResult<N>>, count: int) -> bool {
    forall|i: int| 0 <= i < results.len() ==> (#[trigger] results[i]).index < count
}

fn insert_by_index<N>(
    sorted: &mut Vec<ChunkInferenceResult<N>>,
    result: ChunkInferenceResult<N>,
    count: usize,
)
    requires
        by_index(old(sorted)@),
        all_below(old(sorted)@, count as int),
        result.index < count,
    ensures
        by_index(final(sorted)@),
        final(sorted)@.to_multiset() == old(sorted)@.to_multiset().insert(result),
        final(sorted).len() == old(sorted).len() + 1,
        all_below(final(sorted)@, count as int),
{
    let mut k: usize = 0;
    while k < sorted.len() && sorted[k].index <= result.index
        invariant
            k <= sorted.len(),
            sorted@ == old(sorted)@,
            forall|i: int| 0 <= i < k ==> (#[trigger] sorted@[i]).index <= result.index,
        decreases sorted.len() - k,
    {
        k += 1;
    }
    let ghost before = sorted@;
    sorted.insert(k, result);
    proof {
        let after = sorted@;
        lemma_insert_multiset(before, k as int, result);
        assert forall|i: int| 0 <= i < after.len() implies #[trigger] after[i] == if i < k {
            before[i]
        } else if i == k {
            result
        } else {
            before[i - 1]
        } by {}
        assert forall|i: int, j: int| 0 <= i < j < after.len() implies (#[trigger] after[i]).index
            <= (#[trigger] after[j]).index by {
            if k < before.len() {
                assert(before[k as int].index > result.index);
            }
            if i == k && j > k {
                if j - 1 > k {
                    assert(before[k as int].index <= before[j - 1].index);
                }
            }
        }
    }
}

/// Puts the notes of all chunks together, in the order of the chunks and moved to where
/// their chunk stands in the audio, with the event that tells the end of each chunk; or
/// gives the first error. `shift` takes a note, the first sample of the slice that the
/// chunk is from, the first sample of the chunk in it, and the sample rate.
pub fn collect_chunks<N, T, S: Fn(&N, usize, usize, usize) -> N>(
    outcomes: Vec<Result<ChunkInferenceResult<N>, Error>>,
    chunks: &Vec<SliceChunk<T>>,
    sample_rate: usize,
    shift: S,
) -> (r: Result<(ChunkedExtractResult<N>, Vec<CoreEvent>), Error>)
    requires
        forall|i: int|
            0 <= i < outcomes.len() && #[trigger] outcomes@[i] is Ok ==> outcomes@[i]->Ok_0.index
                < chunks.len(),
        forall|note: &N, slice_start: usize, split_start: usize| #[trigger]
            call_requires(shift, (note, slice_start, split_start, sample_rate)),
    ensures
        match r {
            Ok((result, events)) => {
                &&& forall|i: int| 0 <= i < outcomes.len() ==> #[trigger] outcomes@[i] is Ok
                &&& result.chunk_count == chunks.len()
                &&& exists|sorted: Seq<ChunkInferenceResult<N>>| #[trigger]
                    is_sorting(sorted, outcomes@) && are_moved(
                        sorted,
                        sorted.len() as int,
                        chunks@,
                        sample_rate,
                        shift,
                        result.notes@,
                    ) && event_views(events@) == done_events(sorted, chunks.len() as int)
            },
            Err(e) => exists|k: int| #[trigger]
                first_failure(outcomes@, k) && e@ == tagged_text(
                    outcomes@[k]->Err_0@,
                    k,
                    chunks.len() as int,
                ),
        },
{
    let chunk_count: usize = chunks.len();
    assert(outcomes.len() <= usize::MAX);
    let mut left = outcomes;
    let ghost all = outcomes@;
    let mut sorted: Vec<ChunkInferenceResult<N>> = Vec::new();
    let mut k: usize = 0;
    proof {
        assert(all.skip(0) =~= all);
        assert(successes(all.take(0)) =~= sorted@);
    }
    while left.len() > 0
        invariant
            all == outcomes@,
            chunk_count == chunks.len(),
            k + left.len() == all.len(),
            all.len() <= usize::MAX,
            left@ == all.skip(k as int),
            sorted.len() == k,
            forall|j: int| 0 <= j < k ==> #[trigger] all[j] is Ok,
            by_index(sorted@),
            sorted@.to_multiset() == successes(all.take(k as int)).to_multiset(),
            forall|i: int|
                0 <= i < all.len() && #[trigger] all[i] is Ok ==> all[i]->Ok_0.index < chunk_count,
            all_below(sorted@, chunk_count as int),
        decreases left.len(),
    {
        let outcome = left.remove(0);
        assert(outcome == all[k as int]);
        match outcome {
            Ok(result) => {
                insert_by_index(&mut sorted, result, chunk_count);
                proof {
                    assert(successes(all.take(k + 1)) =~= successes(all.take(k as int)).push(
                        result,
                    ));
                    vstd::seq_lib::to_multiset_build(successes(all.take(k as int)), result);
                    assert(left@ =~= all.skip(k + 1));
                }
            },
            Err(error) => {
                assert(first_failure(all, k as int));
                return Err(tag_chunk_error(error, k, chunk_count));
            },
        }
        k += 1;
    }
    assert(all.take(k as int) =~= all);
    assert(is_sorting(sorted@, all));
    let (notes, events) = join_chunks(sorted, chunks, sample_rate, shift);
    Ok((ChunkedExtractResult { notes, chunk_count }, events))
}

fn join_chunks<N, T, S: Fn(&N, usize, usize, usize) -> N>(
    sorted: Vec<ChunkInferenceResult<N>>,
    chunks: &Vec<SliceChunk<T>>,
    sample_rate: usize,
    shift: S,
) -> (r: (Vec<N>, Vec<CoreEvent>))
    requires
        all_below(sorted@, chunks.len() as int),
        forall|note: &N, slice_start: usize, split_start: usize| #[trigger]
            call_requires(shift, (note, slice_start, split_start, sample_rate)),
    ensures
        are_moved(sorted@, sorted.len() as int, chunks@, sample_rate, shift, r.0@),
        event_views(r.1@) == done_events(sorted@, chunks.len() as int),
{
    let chunk_count: usize = chunks.len();
    let ghost all = sorted@;
    let mut notes: Vec<N> = Vec::new();
    let mut events: Vec<CoreEvent> = Vec::new();
    let mut k: usize = 0;
    while k < sorted.len()
        invariant
            k <= sorted.len(),
            all == sorted@,
            chunk_count == chunks.len(),
            all_below(all, chunk_count as int),
            forall|note: &N, slice_start: usize, split_start: usize| #[trigger]
                call_requires(shift, (note, slice_start, split_start, sample_rate)),
            are_moved(all, k as int, chunks@, sample_rate, shift, notes@),
            events.len() == k,
            forall|i: int|
                0 <= i < k ==> (#[trigger] events@[i])@ == chunk_done_event(
                    all[i],
                    chunk_count as int,
                ),
        decreases sorted.len() - k,
    {
        let result = &sorted[k];
        assert(*result == all[k as int]);
        let mut detail = chunk_label(result.index, chunk_count);
        detail.append(" notes=");
        push_decimal(&mut detail, result.notes.len() as u64);
        events.push(
            CoreEvent::Timing {
                stage: "chunk_infer",
                elapsed: result.elapsed,
                detail: Some(detail),
                chunk: Some(ChunkContext { index: result.index, count: chunk_count }),
            },
        );
        push_moved(&mut notes, result, &chunks[result.index], sample_rate, &shift);
        proof {
            lemma_owners_len(all, k as int);
            lemma_owners_len(all, k + 1);
        }
        k += 1;
    }
    assert(event_views(events@) =~= done_events(all, chunk_count as int));
    (notes, events)
}

proof fn lemma_owners_len<N>(results: Seq<ChunkInferenceResult<N>>, n: int)
    ensures
        owners_of(results, n).len() == notes_of(results, n).len(),
    decreases n,
{
    if n > 0 {
        lemma_owners_len(results, n - 1);
    }
}

/// Appends the notes of a result, moved by the place of its chunk.
fn push_moved<N, T, S: Fn(&N, usize, usize, usize) -> N>(
    notes: &mut Vec<N>,
    result: &ChunkInferenceResult<N>,
    chunk: &SliceChunk<T>,
    sample_rate: usize,
    shift: &S,
)
    requires
        forall|note: &N, slice_start: usize, split_start: usize| #[trigger]
            call_requires(*shift, (note, slice_start, split_start, sample_rate)),
    ensures
        final(notes).len() == old(notes).len() + result.notes.len(),
        forall|i: int| 0 <= i < old(notes).len() ==> #[trigger] final(notes)@[i] == old(notes)@[i],
        forall|i: int|
            old(notes).len() <= i < final(notes).len() ==> is_moved(
                result.notes@[i - old(notes).len()],
                *chunk,
                sample_rate,
                *shift,
                #[trigger] final(notes)@[i],
            ),
{
    let ghost before = notes@;
    let mut i: usize = 0;
    while i < result.notes.len()
        invariant
            i <= result.notes.len(),
            notes.len() == before.len() + i,
            forall|note: &N, slice_start: usize, split_start: usize| #[trigger]
                call_requires(*shift, (note, slice_start, split_start, sample_rate)),
            forall|j: int| 0 <= j < before.len() ==> #[trigger] notes@[j] == before[j],
            forall|j: int|
                before.len() <= j < notes.len() ==> is_moved(
                    result.notes@[j - before.len()],
                    *chunk,
                    sample_rate,
                    *shift,
                    #[trigger] notes@[j],
                ),
        decreases result.notes.len() - i,
    {
        notes.push(shift(&result.notes[i], chunk.slice_start, chunk.split_start, sample_rate));
        i += 1;
    }
}

// ---------------------------------------------------------------------------
// Where notes and events come to stand
// ---------------------------------------------------------------------------
/// How many notes the first `n` results have whose chunk comes before `index`.
pub open spec fn notes_before<N>(results: Seq<ChunkInferenceResult<N>>, index: int, n: int) -> int
    decreases n,
{
    if n <= 0 {
        0
    } else {
        notes_before(results, index, n - 1) + if results[n - 1].index < index {
            results[n - 1].notes@.len() as int
        } else {
            0
        }
    }
}

/// Every chunk has one result.
pub open spec fn one_each<N>(results: Seq<ChunkInferenceResult<N>>) -> bool {
    forall|i: int, j: int|
        0 <= i < j < results.len() ==> (#[trigger] results[i]).index != (
        #[trigger] results[j]).index
}

/// A result that is taken out takes its notes with it.
proof fn lemma_notes_without<N>(
    results: Seq<ChunkInferenceResult<N>>,
    index: int,
    at: int,
    n: int,
)
    requires
        0 <= at < n <= results.len(),
    ensures
        notes_before(results, index, n) == notes_before(results.remove(at), index, n - 1) + if
            results[at].index < index {
            results[at].notes@.len() as int
        } else {
            0
        },
    decreases n,
{
    let rest = results.remove(at);
    if at == n - 1 {
        lemma_notes_of_part(results, rest, index, n - 1);
    } else {
        lemma_notes_without(results, index, at, n - 1);
        assert(rest[n - 2] == results[n - 1]);
    }
}

proof fn lemma_notes_of_part<N>(
    a: Seq<ChunkInferenceResult<N>>,
    b: Seq<ChunkInferenceResult<N>>,
    index: int,
    n: int,
)
    requires
        n <= a.len(),
        n <= b.len(),
        forall|i: int| 0 <= i < n ==> #[trigger] a[i] == b[i],
    ensures
        notes_before(a, index, n) == notes_before(b, index, n),
    decreases n,
{
    if n > 0 {
        lemma_notes_of_part(a, b, index, n - 1);
        assert(a[n - 1] == b[n - 1]);
    }
}

/// The order of results does not change how many notes come before a chunk.
proof fn lemma_notes_in_any_order<N>(
    a: Seq<ChunkInferenceResult<N>>,
    b: Seq<ChunkInferenceResult<N>>,
    index: int,
)
    requires
        a.to_multiset() == b.to_multiset(),
    ensures
        a.len() == b.len(),
        notes_before(a, index, a.len() as int) == notes_before(b, index, b.len() as int),
    decreases b.len(),
{
    broadcast use vstd::seq_lib::group_to_multiset_ensures;

    assert(a.len() == a.to_multiset().len());
    assert(b.len() == b.to_multiset().len());
    if b.len() > 0 {
        let last = b.last();
        assert(b.contains(last));
        assert(a.to_multiset().count(last) > 0);
        assert(a.contains(last));
        let at = choose|at: int| 0 <= at < a.len() && a[at] == last;
        let n = b.len() as int;
        assert(b.remove(n - 1) =~= b.drop_last());
        lemma_notes_without(a, index, at, n);
        lemma_notes_without(b, index, n - 1, n);
        assert(a.remove(at).to_multiset() =~= b.drop_last().to_multiset());
        lemma_notes_in_any_order(a.remove(at), b.drop_last(), index);
    }
}

/// In the order of the chunks, the notes before a chunk are those of the results before.
proof fn lemma_notes_in_order<N>(sorted: Seq<ChunkInferenceResult<N>>, q: int, n: int)
    requires
        by_index(sorted),
        one_each(sorted),
        0 <= q < sorted.len(),
        0 <= n <= sorted.len(),
    ensures
        notes_before(sorted, sorted[q].index as int, n) == notes_of(
            sorted,
            if n <= q {
                n
            } else {
                q
            },
        ).len(),
    decreases n,
{
    if n > 0 {
        lemma_notes_in_order(sorted, q, n - 1);
        if n - 1 < q {
            assert(sorted[n - 1].index <= sorted[q].index);
            assert(sorted[n - 1].index != sorted[q].index);
        } else if n - 1 > q {
            assert(sorted[q].index <= sorted[n - 1].index);
        }
    }
}

/// Where the notes of result `q` stand among all.
proof fn lemma_note_place<N>(sorted: Seq<ChunkInferenceResult<N>>, q: int, j: int, n: int)
    requires
        0 <= q < n <= sorted.len(),
        0 <= j < sorted[q].notes@.len(),
    ensures
        ({
            let at = notes_of(sorted, q).len() + j;
            at < notes_of(sorted, n).len() && notes_of(sorted, n)[at] == sorted[q].notes@[j]
                && owners_of(sorted, n)[at] == sorted[q].index
        }),
    decreases n,
{
    lemma_owners_len(sorted, q);
    if q < n - 1 {
        lemma_note_place(sorted, q, j, n - 1);
        lemma_owners_len(sorted, n - 1);
    }
}

/// Where all chunks succeeded, every note of a chunk is moved by where its chunk stands
/// in the audio, which is where its slice begins and where in the slice it begins, and
/// comes behind all notes of the chunks before. No other notes come out.
pub proof fn law_notes_are_moved_to_their_chunks<N, T, S: Fn(&N, usize, usize, usize) -> N>(
    outcomes: Seq<Result<ChunkInferenceResult<N>, Error>>,
    sorted: Seq<ChunkInferenceResult<N>>,
    chunks: Seq<SliceChunk<T>>,
    sample_rate: usize,
    shift: S,
    notes: Seq<N>,
)
    requires
        forall|k: int| 0 <= k < outcomes.len() ==> #[trigger] outcomes[k] is Ok,
        forall|k: int, m: int|
            0 <= k < m < outcomes.len() ==> (#[trigger] outcomes[k])->Ok_0.index != (
            #[trigger] outcomes[m])->Ok_0.index,
        is_sorting(sorted, outcomes),
        are_moved(sorted, sorted.len() as int, chunks, sample_rate, shift, notes),
    ensures
        ({
            let found = outcomes.map_values(
                |o: Result<ChunkInferenceResult<N>, Error>| o->Ok_0,
            );
            &&& notes.len() == notes_before(found, usize::MAX + 1, found.len() as int)
            &&& forall|k: int, j: int|
                #![trigger found[k].notes@[j]]
                0 <= k < found.len() && 0 <= j < found[k].notes@.len() ==> {
                    let at = notes_before(found, found[k].index as int, found.len() as int) + j;
                    let chunk = chunks[found[k].index as int];
                    &&& 0 <= at < notes.len()
                    &&& call_ensures(
                        shift,
                        (
                            &found[k].notes@[j],
                            chunk.slice_start,
                            chunk.split_start,
                            sample_rate,
                        ),
                        notes[at],
                    )
                }
        }),
{
    broadcast use vstd::seq_lib::group_to_multiset_ensures;

    let found = outcomes.map_values(|o: Result<ChunkInferenceResult<N>, Error>| o->Ok_0);
    assert(found =~= successes(outcomes));
    let n = found.len() as int;
    assert(one_each(found)) by {
        assert forall|i: int, j: int| 0 <= i < j < found.len() implies (
        #[trigger] found[i]).index != (#[trigger] found[j]).index by {
            assert(outcomes[i]->Ok_0.index != outcomes[j]->Ok_0.index);
        }
    }
    lemma_notes_in_any_order(sorted, found, usize::MAX + 1);
    lemma_sorted_one_each(sorted, found);
    lemma_all_notes(sorted, n);
    assert forall|k: int, j: int|
        #![trigger found[k].notes@[j]]
        0 <= k < found.len() && 0 <= j < found[k].notes@.len() implies {
        let at = notes_before(found, found[k].index as int, found.len() as int) + j;
        let chunk = chunks[found[k].index as int];
        &&& 0 <= at < notes.len()
        &&& call_ensures(
            shift,
            (&found[k].notes@[j], chunk.slice_start, chunk.split_start, sample_rate),
            notes[at],
        )
    } by {
        let index = found[k].index as int;
        assert(found.contains(found[k]));
        assert(sorted.to_multiset().count(found[k]) > 0);
        assert(sorted.contains(found[k]));
        let q = choose|q: int| 0 <= q < sorted.len() && sorted[q] == found[k];
        lemma_notes_in_any_order(sorted, found, index);
        lemma_notes_in_order(sorted, q, n);
        lemma_note_place(sorted, q, j, n);
        let at = notes_before(found, index, n) + j;
        assert(notes_of(sorted, n)[at] == found[k].notes@[j]);
        assert(owners_of(sorted, n)[at] == index);
        assert(is_moved(
            notes_of(sorted, n)[at],
            chunks[owners_of(sorted, n)[at] as int],
            sample_rate,
            shift,
            notes[at],
        ));
    }
}

proof fn lemma_all_notes<N>(sorted: Seq<ChunkInferenceResult<N>>, n: int)
    requires
        n <= sorted.len(),
    ensures
        notes_of(sorted, n).len() == notes_before(sorted, usize::MAX + 1, n),
    decreases n,
{
    if n > 0 {
        lemma_all_notes(sorted, n - 1);
    }
}

/// Sorting keeps one result for each chunk.
proof fn lemma_sorted_one_each<N>(
    sorted: Seq<ChunkInferenceResult<N>>,
    found: Seq<ChunkInferenceResult<N>>,
)
    requires
        one_each(found),
        sorted.to_multiset() == found.to_multiset(),
    ensures
        one_each(sorted),
{
    broadcast use vstd::seq_lib::group_to_multiset_ensures;

    assert forall|i: int, j: int| 0 <= i < j < sorted.len() implies (#[trigger] sorted[i]).index
        != (#[trigger] sorted[j]).index by {
        if sorted[i].index == sorted[j].index {
            let (x, y) = (sorted[i], sorted[j]);
            assert(sorted.contains(x) && sorted.contains(y));
            assert(found.to_multiset().count(x) > 0 && found.to_multiset().count(y) > 0);
            assert(found.contains(x) && found.contains(y));
            let a = choose|a: int| 0 <= a < found.len() && found[a] == x;
            let b = choose|b: int| 0 <= b < found.len() && found[b] == y;
            if a < b {
                assert(found[a].index != found[b].index);
            } else if b < a {
                assert(found[b].index != found[a].index);
            }
            assert(x == y);
            let without = sorted.remove(j);
            assert(without[i] == x);
            assert(without.contains(x));
            assert(sorted.to_multiset().count(x) >= 2) by {
                assert(without.to_multiset().count(x) > 0);
                assert(without.to_multiset() =~= sorted.to_multiset().remove(x));
            }
            let others = found.remove(a);
            assert(others.to_multiset() =~= found.to_multiset().remove(x));
            assert(others.to_multiset().count(x) > 0);
            assert(others.contains(x));
            let c = choose|c: int| 0 <= c < others.len() && others[c] == x;
            let d = if c < a {
                c
            } else {
                c + 1
            };
            assert(found[d] == x && d != a);
            if d < a {
                assert(found[d].index != found[a].index);
            } else {
                assert(found[a].index != found[d].index);
            }
        }
    }
}

/// Where all chunks succeeded, the end of each is told once, in the order of the chunks:
/// which chunk it was, of how many, how long it took and how many notes it gave.
pub proof fn law_end_of_every_chunk_is_told<N>(
    outcomes: Seq<Result<ChunkInferenceResult<N>, Error>>,
    sorted: Seq<ChunkInferenceResult<N>>,
    count: usize,
)
    requires
        outcomes.len() == count,
        forall|k: int|
            0 <= k < outcomes.len() ==> (#[trigger] outcomes[k]) is Ok && outcomes[k]->Ok_0.index
                == k,
        is_sorting(sorted, outcomes),
    ensures
        done_events(sorted, count as int) == Seq::new(
            count as nat,
            |k: int|
                EventView::Timing {
                    stage: "chunk_infer"@,
                    elapsed: outcomes[k]->Ok_0.elapsed,
                    detail: Some(
                        "chunk "@ + decimal((k + 1) as nat) + "/"@ + decimal(count as nat)
                            + " notes="@ + decimal(outcomes[k]->Ok_0.notes@.len()),
                    ),
                    chunk: Some(ChunkContext { index: k as usize, count }),
                },
        ),
{
    let found = successes(outcomes);
    assert(in_place(found)) by {
        assert forall|i: int| 0 <= i < found.len() implies (#[trigger] found[i]).index == i by {
            assert(outcomes[i] is Ok);
        }
    }
    lemma_sorted_in_place(sorted, found);
    assert forall|k: int| 0 <= k < count implies (#[trigger] done_events(sorted, count as int)[k])
        == (EventView::Timing {
        stage: "chunk_infer"@,
        elapsed: outcomes[k]->Ok_0.elapsed,
        detail: Some(
            "chunk "@ + decimal((k + 1) as nat) + "/"@ + decimal(count as nat) + " notes="@
                + decimal(outcomes[k]->Ok_0.notes@.len()),
        ),
        chunk: Some(ChunkContext { index: k as usize, count }),
    }) by {
        assert(outcomes[k] is Ok);
        assert(sorted[k] == outcomes[k]->Ok_0);
    }
    assert(done_events(sorted, count as int) =~= Seq::new(
        count as nat,
        |k: int|
            EventView::Timing {
                stage: "chunk_infer"@,
                elapsed: outcomes[k]->Ok_0.elapsed,
                detail: Some(
                    "chunk "@ + decimal((k + 1) as nat) + "/"@ + decimal(count as nat)
                        + " notes="@ + decimal(outcomes[k]->Ok_0.notes@.len()),
                ),
                chunk: Some(ChunkContext { index: k as usize, count }),
            },
    ));
}

/// Of several failures the one of the first chunk is given.
pub proof fn law_first_failure_is_given<N>(
    outcomes: Seq<Result<ChunkInferenceResult<N>, Error>>,
    k: int,
)
    ensures
        first_failure(outcomes, k) <==> 0 <= k < outcomes.len() && outcomes[k] is Err && !exists|
            j: int,
        |
            0 <= j < k && #[trigger] outcomes[j] is Err,
{
    assert forall|j: int| 0 <= j < k && k < outcomes.len() implies (#[trigger] outcomes[j] is Ok)
        == !(outcomes[j] is Err) by {}
}

/// The error of a chunk stays as it is where it speaks of a chunk, and is otherwise
/// preceded by which chunk it was, of how many.
pub proof fn law_error_names_a_chunk(text: Seq<char>, index: int, count: int)
    ensures
        (exists|p: int|
            0 <= p && p + 5 <= text.len() && #[trigger] text.subrange(p, p + 5) == "chunk"@)
            ==> tagged_text(text, index, count) == text,
        !(exists|p: int|
            0 <= p && p + 5 <= text.len() && #[trigger] text.subrange(p, p + 5) == "chunk"@)
            ==> tagged_text(text, index, count) == "chunk "@ + decimal((index + 1) as nat) + "/"@
            + decimal(count as nat) + ": "@ + text,
{
    reveal_strlit("chunk");
    let word = "chunk"@;
    if exists|p: int|
        0 <= p && p + 5 <= text.len() && #[trigger] text.subrange(p, p + 5) == word {
        let p = choose|p: int|
            0 <= p && p + 5 <= text.len() && #[trigger] text.subrange(p, p + 5) == word;
        assert(occurs_at(text, word, p));
    } else if contains(text, word) {
        let p = choose|p: int| occurs_at(text, word, p);
        assert(text.subrange(p, p + 5) == word);
    }
}

// ---------------------------------------------------------------------------
// Runs with the same seed
// ---------------------------------------------------------------------------
/// Results in which chunk `i` stands at place `i`.
pub open spec fn in_place<N>(results: Seq<ChunkInferenceResult<N>>) -> bool {
    forall|i: int| 0 <= i < results.len() ==> (#[trigger] results[i]).index == i
}

/// Sorting results that stand in their places changes nothing.
proof fn lemma_sorted_in_place<N>(
    sorted: Seq<ChunkInferenceResult<N>>,
    results: Seq<ChunkInferenceResult<N>>,
)
    requires
        by_index(sorted),
        in_place(results),
        sorted.to_multiset() == results.to_multiset(),
    ensures
        sorted == results,
    decreases results.len(),
{
    broadcast use vstd::seq_lib::group_to_multiset_ensures;

    assert(sorted.len() == sorted.to_multiset().len());
    assert(results.len() == results.to_multiset().len());
    let n = results.len() as int;
    if n == 0 {
        assert(sorted =~= results);
    } else {
        let last = results[n - 1];
        assert(results.contains(last));
        assert(sorted.to_multiset().count(last) > 0);
        assert(sorted.contains(last));
        let at = choose|at: int| 0 <= at < sorted.len() && sorted[at] == last;
        let end = sorted[n - 1];
        assert(sorted.contains(end));
        assert(results.to_multiset().count(end) > 0);
        assert(results.contains(end));
        let j = choose|j: int| 0 <= j < results.len() && results[j] == end;
        assert(results[j].index == j);
        assert(results[n - 1].index == n - 1);
        if at < n - 1 {
            assert(sorted[at].index <= sorted[n - 1].index);
        }
        assert(j == n - 1);
        assert(sorted =~= sorted.drop_last().push(last));
        assert(results =~= results.drop_last().push(last));
        assert(sorted.drop_last().to_multiset() =~= sorted.to_multiset().remove(last));
        assert(results.drop_last().to_multiset() =~= results.to_multiset().remove(last));
        assert forall|a: int, b: int| 0 <= a < b < sorted.drop_last().len() implies (
        #[trigger] sorted.drop_last()[a]).index <= (#[trigger] sorted.drop_last()[b]).index by {
            assert(sorted[a].index <= sorted[b].index);
        }
        assert forall|i: int| 0 <= i < results.drop_last().len() implies (
        #[trigger] results.drop_last()[i]).index == i by {
            assert(results[i].index == i);
        }
        lemma_sorted_in_place(sorted.drop_last(), results.drop_last());
        assert(sorted =~= results);
    }
}

/// The outcomes are those of a model that gives `infer(i, seed)` on chunk `i`, where the
/// chunks have the seeds that follow from the run's.
pub open spec fn outcomes_of<N>(
    outcomes: Seq<Result<ChunkInferenceResult<N>, Error>>,
    infer: spec_fn(int, u64) -> Result<Seq<N>, Seq<char>>,
    random_base: Option<u64>,
    seed: u64,
) -> bool {
    forall|i: int|
        0 <= i < outcomes.len() ==> match #[trigger] outcomes[i] {
            Ok(r) => r.index == i && infer(i, seed_for(random_base, seed, i as u64)) == Ok::<
                Seq<N>,
                Seq<char>,
            >(r.notes@),
            Err(e) => infer(i, seed_for(random_base, seed, i as u64)) == Err::<Seq<N>, Seq<char>>(
                e@,
            ),
        }
}

/// A note and a place give one moved note.
pub open spec fn moves_in_one_way<N, S: Fn(&N, usize, usize, usize) -> N>(shift: S) -> bool {
    forall|note: N, slice_start: usize, split_start: usize, rate: usize, x: N, y: N|
        (#[trigger] call_ensures(shift, (&note, slice_start, split_start, rate), x))
            && (#[trigger] call_ensures(shift, (&note, slice_start, split_start, rate), y)) ==> x
            == y
}

proof fn lemma_same_notes<N>(
    a: Seq<ChunkInferenceResult<N>>,
    b: Seq<ChunkInferenceResult<N>>,
    n: int,
)
    requires
        n <= a.len() == b.len(),
        forall|i: int|
            0 <= i < a.len() ==> (#[trigger] a[i]).notes@ == b[i].notes@ && a[i].index
                == b[i].index,
    ensures
        notes_of(a, n) == notes_of(b, n),
        owners_of(a, n) == owners_of(b, n),
    decreases n,
{
    if n > 0 {
        lemma_same_notes(a, b, n - 1);
        assert(a[n - 1].notes@ == b[n - 1].notes@);
        assert(owners_of(a, n) =~= owners_of(b, n));
    }
}

/// Two runs with the same seed, which is not zero, give the same notes, or fail in the
/// same way, whether or not their chunks are worked on side by side: what the model
/// makes of a chunk and a seed is all that counts, where notes are moved in one way only.
pub proof fn law_seeded_runs_agree<N, T, S: Fn(&N, usize, usize, usize) -> N>(
    infer: spec_fn(int, u64) -> Result<Seq<N>, Seq<char>>,
    seed: u64,
    parallel_a: bool,
    base_a: Option<u64>,
    a: Seq<Result<ChunkInferenceResult<N>, Error>>,
    sorted_a: Seq<ChunkInferenceResult<N>>,
    notes_a: Seq<N>,
    parallel_b: bool,
    base_b: Option<u64>,
    b: Seq<Result<ChunkInferenceResult<N>, Error>>,
    sorted_b: Seq<ChunkInferenceResult<N>>,
    notes_b: Seq<N>,
    chunks: Seq<SliceChunk<T>>,
    sample_rate: usize,
    shift: S,
)
    requires
        seed != 0,
        moves_in_one_way(shift),
        base_a is Some ==> draws_base(parallel_a, seed),
        base_b is Some ==> draws_base(parallel_b, seed),
        a.len() == b.len(),
        outcomes_of(a, infer, base_a, seed),
        outcomes_of(b, infer, base_b, seed),
    ensures
        forall|i: int| 0 <= i < a.len() ==> (#[trigger] a[i] is Ok) == (b[i] is Ok),
        forall|k: int| #[trigger]
            first_failure(a, k) ==> first_failure(b, k) && a[k]->Err_0@ == b[k]->Err_0@,
        (forall|i: int| 0 <= i < a.len() ==> #[trigger] a[i] is Ok) && is_sorting(sorted_a, a)
            && is_sorting(sorted_b, b) && are_moved(
            sorted_a,
            sorted_a.len() as int,
            chunks,
            sample_rate,
            shift,
            notes_a,
        ) && are_moved(
            sorted_b,
            sorted_b.len() as int,
            chunks,
            sample_rate,
            shift,
            notes_b,
        ) ==> notes_a == notes_b,
{
    assert forall|i: int| 0 <= i < a.len() implies (#[trigger] a[i] is Ok) == (b[i] is Ok) && (
    a[i] is Err ==> a[i]->Err_0@ == b[i]->Err_0@) && (a[i] is Ok ==> a[i]->Ok_0.notes@
        == b[i]->Ok_0.notes@) by {
        law_given_seed_is_kept(parallel_a, seed, base_a, i as u64);
        law_given_seed_is_kept(parallel_b, seed, base_b, i as u64);
        assert(a[i] is Ok || a[i] is Err);
        assert(b[i] is Ok || b[i] is Err);
    }
    assert forall|k: int| #[trigger] first_failure(a, k) implies first_failure(b, k)
        && a[k]->Err_0@ == b[k]->Err_0@ by {
        assert forall|j: int| 0 <= j < k implies #[trigger] b[j] is Ok by {
            assert(a[j] is Ok);
        }
    }
    if (forall|i: int| 0 <= i < a.len() ==> #[trigger] a[i] is Ok) && is_sorting(sorted_a, a)
        && is_sorting(sorted_b, b) && are_moved(
        sorted_a,
        sorted_a.len() as int,
        chunks,
        sample_rate,
        shift,
        notes_a,
    ) && are_moved(sorted_b, sorted_b.len() as int, chunks, sample_rate, shift, notes_b) {
        let (x, y) = (successes(a), successes(b));
        assert forall|i: int| 0 <= i < x.len() implies (#[trigger] x[i]).index == i && y[i].index
            == i && x[i].notes@ == y[i].notes@ by {
            assert(a[i] is Ok);
            assert(b[i] is Ok);
        }
        assert(in_place(x));
        assert(in_place(y)) by {
            assert forall|i: int| 0 <= i < y.len() implies (#[trigger] y[i]).index == i by {
                assert(x[i].index == i);
            }
        }
        lemma_sorted_in_place(sorted_a, x);
        lemma_sorted_in_place(sorted_b, y);
        let n = x.len() as int;
        lemma_same_notes(x, y, n);
        lemma_owners_len(x, n);
        assert forall|i: int| 0 <= i < notes_a.len() implies notes_a[i] == notes_b[i] by {
            let chunk = chunks[owners_of(x, n)[i] as int];
            assert(is_moved(notes_of(x, n)[i], chunk, sample_rate, shift, notes_a[i]));
            assert(is_moved(notes_of(x, n)[i], chunk, sample_rate, shift, notes_b[i]));
        }
        assert(notes_a =~= notes_b);
    }
}

/// Events of a chunk are told with its label in front of what they say, or as all that they
/// say, and with its place unless they name one already; nothing else of them changes.
/// Events that are of no chunk stay as they are.
pub proof fn law_prefixed_events_say_the_same(
    stage: Seq<char>,
    text: Seq<char>,
    current: int,
    total: int,
    elapsed: Elapsed,
    level: NotificationLevel,
    own: ChunkContext,
    ctx: ChunkContext,
)
    ensures
        ({
            let label = "chunk "@ + decimal((ctx.index + 1) as nat) + "/"@ + decimal(
                ctx.count as nat,
            );
            let said = label + ": "@ + text;
            let before = EventView::Status { stage, message: text, chunk: None };
            &&& prefixed(before, ctx) == (EventView::Status {
                stage,
                message: said,
                chunk: Some(ctx),
            })
            &&& prefixed(EventView::Status { stage, message: text, chunk: Some(own) }, ctx) == (
            EventView::Status { stage, message: said, chunk: Some(own) })
            &&& prefixed(
                EventView::Progress { stage, current, total, detail: Some(text), chunk: None },
                ctx,
            ) == (EventView::Progress {
                stage,
                current,
                total,
                detail: Some(said),
                chunk: Some(ctx),
            })
            &&& prefixed(
                EventView::Progress { stage, current, total, detail: None, chunk: Some(own) },
                ctx,
            ) == (EventView::Progress {
                stage,
                current,
                total,
                detail: Some(label),
                chunk: Some(own),
            })
            &&& prefixed(
                EventView::Timing { stage, elapsed, detail: Some(text), chunk: None },
                ctx,
            ) == (EventView::Timing { stage, elapsed, detail: Some(said), chunk: Some(ctx) })
            &&& prefixed(
                EventView::Timing { stage, elapsed, detail: None, chunk: Some(own) },
                ctx,
            ) == (EventView::Timing { stage, elapsed, detail: Some(label), chunk: Some(own) })
            &&& prefixed(EventView::Message { level, message: text }, ctx) == (EventView::Message {
                level,
                message: said,
            })
            &&& prefixed(EventView::ModelLoaded { backend: text, elapsed }, ctx) == (
            EventView::ModelLoaded { backend: text, elapsed })
            &&& prefixed(EventView::ChunkPlan { total }, ctx) == (EventView::ChunkPlan { total })
        }),
{
}

/// The beginning of a chunk is told under its label with where it begins and how long it
/// is; its panic under its label with what it said, if it said anything.
pub proof fn law_beginnings_and_panics_name_their_chunk(
    span: ChunkSpan,
    index: int,
    count: int,
    detail: Seq<char>,
)
    requires
        0 <= index < count <= usize::MAX,
    ensures
        ({
            let label = "chunk "@ + decimal((index + 1) as nat) + "/"@ + decimal(count as nat);
            &&& chunk_start_event(span, index, count) == (EventView::Status {
                stage: "chunk_infer"@,
                message: label + ": infer start offset="@ + span.offset@ + "s duration="@
                    + span.duration@ + "s"@,
                chunk: Some(ChunkContext { index: index as usize, count: count as usize }),
            })
            &&& panic_text(index, count, Some(detail)) == label + " panicked during inference: "@
                + detail
            &&& panic_text(index, count, None) == label
                + " panicked during inference: unknown panic"@
        }),
{
    reveal_strlit(" panicked during inference: unknown panic");
    reveal_strlit(" panicked during inference: ");
    reveal_strlit("unknown panic");
    let label = "chunk "@ + decimal((index + 1) as nat) + "/"@ + decimal(count as nat);
    assert(" panicked during inference: "@ + "unknown panic"@
        =~= " panicked during inference: unknown panic"@);
    assert(panic_text(index, count, None) =~= label
        + " panicked during inference: unknown panic"@);
}

} // verus!
