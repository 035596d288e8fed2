//! Events that report the progress of a run, and those who receive them.
use vstd::prelude::*;
use vstd::string::*;

verus! {

#[derive(Debug, Clone, Copy, PartialEq, Eq, Structural)]
pub enum NotificationLevel {
    Trace,
    Debug,
    Info,
    Warn,
    Error,
}

/// A span of time in nanoseconds.
#[derive(Debug, Clone, Copy, PartialEq, Eq, Structural)]
pub struct Elapsed {
    pub nanos: u64,
}

/// Which of the chunks of a run an event is about.
#[derive(Debug, Clone, Copy, PartialEq, Eq, Structural)]
pub struct ChunkContext {
    /// Counted from zero.
    pub index: usize,
    pub count: usize,
}

/// Something that happened in a run.
#[derive(Debug, Clone, PartialEq)]
pub enum CoreEvent {
    /// How many chunks there will be.
    ChunkPlan { total: usize },
    Status { stage: &'static str, message: String, chunk: Option<ChunkContext> },
    Progress {
        stage: &'static str,
        current: usize,
        total: usize,
        detail: Option<String>,
        chunk: Option<ChunkContext>,
    },
    Timing {
        stage: &'static str,
        elapsed: Elapsed,
        detail: Option<String>,
        chunk: Option<ChunkContext>,
    },
    ModelLoaded { backend: &'static str, elapsed: Elapsed },
    Message { level: NotificationLevel, message: String },
}

/// What a [`CoreEvent`] says, with texts as character sequences.
pub ghost enum EventView {
    ChunkPlan { total: int },
    Status { stage: Seq<char>, message: Seq<char>, chunk: Option<ChunkContext> },
    Progress {
        stage: Seq<char>,
        current: int,
        total: int,
        detail: Option<Seq<char>>,
        chunk: Option<ChunkContext>,
    },
    Timing {
        stage: Seq<char>,
        elapsed: Elapsed,
        detail: Option<Seq<char>>,
        chunk: Option<ChunkContext>,
    },
    ModelLoaded { backend: Seq<char>, elapsed: Elapsed },
    Message { level: NotificationLevel, message: Seq<char> },
}

pub open spec fn detail_view(detail: Option<String>) -> Option<Seq<char>> {
    match detail {
        Some(text) => Some(text@),
        None => None,
    }
}

impl View for CoreEvent {
    type V = EventView;

    open spec fn view(&self) -> EventView {
        match *self {
            CoreEvent::ChunkPlan { total } => EventView::ChunkPlan { total: total as int },
            CoreEvent::Status { stage, message, chunk } => EventView::Status {
                stage: stage@,
                message: message@,
                chunk,
            },
            CoreEvent::Progress { stage, current, total, detail, chunk } => EventView::Progress {
                stage: stage@,
                current: current as int,
                total: total as int,
                detail: detail_view(detail),
                chunk,
            },
            CoreEvent::Timing { stage, elapsed, detail, chunk } => EventView::Timing {
                stage: stage@,
                elapsed,
                detail: detail_view(detail),
                chunk,
            },
            CoreEvent::ModelLoaded { backend, elapsed } => EventView::ModelLoaded {
                backend: backend@,
                elapsed,
            },
            CoreEvent::Message { level, message } => EventView::Message {
                level,
                message: message@,
            },
        }
    }
}

pub open spec fn event_views(events: Seq<CoreEvent>) -> Seq<EventView> {
    events.map_values(|e: CoreEvent| e@)
}

/// A receiver of events.
pub trait Notifier: Send + Sync {
    fn notify(&self, event: CoreEvent);
}

/// A receiver that ignores every event.
#[derive(Debug, Clone, Copy)]
pub struct NullNotifier;

impl Notifier for NullNotifier {
    fn notify(&self, event: CoreEvent) {
    }
}

/// The text of a number of seconds with three decimals, for a span in nanoseconds.
pub uninterp spec fn seconds_text(nanos: u64) -> Seq<char>;

/// `Duration::as_secs_f64` of the span that `Duration::from_nanos` makes, formatted with
/// three decimals: the number of seconds, rounded to the nearest thousandth. The number
/// is floating point, so only its text leaves the function.
#[verifier::external_body]
fn seconds_string(nanos: u64) -> (s: String)
    ensures
        s@ == seconds_text(nanos),
{
    format!("{:.3}", std::time::Duration::from_nanos(nanos).as_secs_f64())
}

/// A span of time in seconds with three decimals and the unit.
pub open spec fn duration_text(elapsed: Elapsed) -> Seq<char> {
    seconds_text(elapsed.nanos) + "s"@
}

/// Shows a span of time.
pub fn format_duration(elapsed: Elapsed) -> (s: String)
    ensures
        s@ == duration_text(elapsed),
{
    let mut s = seconds_string(elapsed.nanos);
    s.append("s");
    s
}

/// The name of a level in log lines.
pub open spec fn level_text(level: NotificationLevel) -> Seq<char> {
    match level {
        NotificationLevel::Trace => "trace"@,
        NotificationLevel::Debug => "debug"@,
        NotificationLevel::Info => "info"@,
        NotificationLevel::Warn => "warn"@,
        NotificationLevel::Error => "error"@,
    }
}

/// The name of a level.
pub fn level_name(level: NotificationLevel) -> (name: &'static str)
    ensures
        name@ == level_text(level),
{
    match level {
        NotificationLevel::Trace => "trace",
        NotificationLevel::Debug => "debug",
        NotificationLevel::Info => "info",
        NotificationLevel::Warn => "warn",
        NotificationLevel::Error => "error",
    }
}

} // verus!
