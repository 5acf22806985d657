//! The text of the fuzzer's terminal display: colour codes, the one-line
//! status and the crash line, and the monitor that decides which of them an
//! event draws.

use vstd::prelude::*;

use crate::decimal::{decimal, decimal_text};

verus! {

/// Escape code: faint text.
pub const DIM: &'static str = "\x1b[2m";

/// Escape code: bold text.
pub const BOLD: &'static str = "\x1b[1m";

/// Escape code: cyan text.
pub const CYAN: &'static str = "\x1b[36m";

/// Escape code: green text.
pub const GREEN: &'static str = "\x1b[32m";

/// Escape code: red text.
pub const RED: &'static str = "\x1b[31m";

/// Escape code: back to plain text.
pub const RESET: &'static str = "\x1b[0m";

/// Escape code: erase the current terminal line.
pub const CLEAR_LINE: &'static str = "\x1b[2K";

/// `text` wrapped in the escape code `code` and a reset when colours are on,
/// and `text` alone when they are off.
pub open spec fn painted(code: Seq<char>, text: Seq<char>, colors: bool) -> Seq<char> {
    if colors {
        code + text + RESET@
    } else {
        text
    }
}

/// Wraps `text` in the escape code `code` and a reset when `colors` is on.
pub fn paint(code: &str, text: &str, colors: bool) -> (s: String)
    ensures
        s@ == painted(code@, text@, colors),
{
    if colors {
        let mut s = String::from_str(code);
        s.append(text);
        s.append(RESET);
        s
    } else {
        String::from_str(text)
    }
}

/// `text` in faint type.
pub fn dim(text: &str, colors: bool) -> (s: String)
    ensures
        s@ == painted(DIM@, text@, colors),
{
    paint(DIM, text, colors)
}

/// `text` in bold type.
pub fn bold(text: &str, colors: bool) -> (s: String)
    ensures
        s@ == painted(BOLD@, text@, colors),
{
    paint(BOLD, text, colors)
}

/// `text` in cyan.
pub fn cyan(text: &str, colors: bool) -> (s: String)
    ensures
        s@ == painted(CYAN@, text@, colors),
{
    paint(CYAN, text, colors)
}

/// `text` in green.
pub fn green(text: &str, colors: bool) -> (s: String)
    ensures
        s@ == painted(GREEN@, text@, colors),
{
    paint(GREEN, text, colors)
}

/// `text` in red (for the error stream, whose colours are decided apart).
pub fn red(text: &str, colors: bool) -> (s: String)
    ensures
        s@ == painted(RED@, text@, colors),
{
    paint(RED, text, colors)
}

/// One ` · label value` field of the status line.
pub open spec fn segment_text(label: Seq<char>, value: Seq<char>, colors: bool) -> Seq<char> {
    " "@ + painted(DIM@, "·"@, colors) + " "@ + painted(DIM@, label, colors) + " "@ + value
}

/// One ` · label value` field of the status line, separator and label faint.
pub fn segment(label: &str, value: &str, colors: bool) -> (s: String)
    ensures
        s@ == segment_text(label@, value@, colors),
{
    let mut s = String::from_str(" ");
    s.append(dim("·", colors).as_str());
    s.append(" ");
    s.append(dim(label, colors).as_str());
    s.append(" ");
    s.append(value);
    s
}

/// A full line that first erases the status line drawn in place, when
/// colours (and so in-place drawing) are on.
pub open spec fn full_line(text: Seq<char>, colors: bool) -> Seq<char> {
    if colors {
        CLEAR_LINE@ + "\r"@ + text
    } else {
        text
    }
}

/// The text printed for a full line, erasing the in-place status line first
/// when colours are on.
pub fn line_text(text: &str, colors: bool) -> (s: String)
    ensures
        s@ == full_line(text@, colors),
{
    if colors {
        let mut s = String::from_str(CLEAR_LINE);
        s.append("\r");
        s.append(text);
        s
    } else {
        String::from_str(text)
    }
}

/// The status line: run time, executions, rate, corpus size, objectives, and
/// the signal count when there is one.
pub open spec fn status_line(
    run_time: Seq<char>,
    execs: Seq<char>,
    rate: Seq<char>,
    corpus: u64,
    objectives: u64,
    signals: Seq<char>,
    colors: bool,
) -> Seq<char> {
    let base = painted(CYAN@, "▸"@, colors) + " "@ + run_time + segment_text(
        "execs"@,
        execs,
        colors,
    ) + segment_text("rate"@, rate, colors) + segment_text(
        "corpus"@,
        decimal_text(corpus as nat),
        colors,
    ) + segment_text("obj"@, decimal_text(objectives as nat), colors);
    if signals.len() == 0 {
        base
    } else {
        base + segment_text("sig"@, signals, colors)
    }
}

/// The status line. `execs` is the execution count as already abbreviated
/// for display; `signals` is empty when no signal count was reported.
pub fn status_text(
    run_time: &str,
    execs: &str,
    rate: &str,
    corpus: u64,
    objectives: u64,
    signals: &str,
    colors: bool,
) -> (s: String)
    ensures
        s@ == status_line(run_time@, execs@, rate@, corpus, objectives, signals@, colors),
        signals@.len() > 0 ==> s@ == status_line(
            run_time@,
            execs@,
            rate@,
            corpus,
            objectives,
            Seq::empty(),
            colors,
        ) + segment_text("sig"@, signals@, colors),
{
    proof {
        lemma_status_line_shows_signals(run_time@, execs@, rate@, corpus, objectives, signals@, colors);
    }
    let mut s = cyan("▸", colors);
    s.append(" ");
    s.append(run_time);
    s.append(segment("execs", execs, colors).as_str());
    s.append(segment("rate", rate, colors).as_str());
    s.append(segment("corpus", decimal(corpus).as_str(), colors).as_str());
    s.append(segment("obj", decimal(objectives).as_str(), colors).as_str());
    if signals.unicode_len() != 0 {
        s.append(segment("sig", signals, colors).as_str());
    }
    s
}

/// The line announcing a crash.
pub open spec fn crash_line(run_time: Seq<char>, execs: Seq<char>, corpus: u64, colors: bool) -> Seq<
    char,
> {
    painted(GREEN@, "✓ crash found"@, colors) + " "@ + painted(DIM@, "·"@, colors) + " "@
        + run_time + " "@ + execs + " execs, corpus "@ + decimal_text(corpus as nat)
}

/// The line announcing a crash. `execs` is the execution count as already
/// abbreviated for display.
pub fn crash_text(run_time: &str, execs: &str, corpus: u64, colors: bool) -> (s: String)
    ensures
        s@ == crash_line(run_time@, execs@, corpus, colors),
{
    let mut s = green("✓ crash found", colors);
    s.append(" ");
    s.append(dim("·", colors).as_str());
    s.append(" ");
    s.append(run_time);
    s.append(" ");
    s.append(execs);
    s.append(" execs, corpus ");
    s.append(decimal(corpus).as_str());
    s
}

/// Compares two strings character by character.
fn same_text(a: &str, b: &str) -> (r: bool)
    ensures
        r == (a@ == b@),
{
    let n = a.unicode_len();
    if n != b.unicode_len() {
        return false;
    }
    let mut i: usize = 0;
    while i < n
        invariant
            n == a@.len(),
            n == b@.len(),
            i <= n,
            forall|j: int| 0 <= j < i ==> a@[j] == b@[j],
        decreases n - i,
    {
        if a.get_char(i) != b.get_char(i) {
            return false;
        }
        i = i + 1;
    }
    assert(a@ =~= b@);
    true
}

/// What a monitor event asks of the display.
#[derive(Clone, Copy, Debug, PartialEq, Eq, Structural)]
pub enum MonitorEvent {
    /// New statistics or a heartbeat: redraw the status line.
    Status,
    /// An objective (a crash) was found.
    Objective,
    /// Any other event.
    Other,
}

/// The kind of the event named `msg`.
pub open spec fn event_kind(msg: Seq<char>) -> MonitorEvent {
    if msg == "UserStats"@ || msg == "Client Heartbeat"@ {
        MonitorEvent::Status
    } else if msg == "Objective"@ {
        MonitorEvent::Objective
    } else {
        MonitorEvent::Other
    }
}

/// Sorts an event by its name.
pub fn classify_event(msg: &str) -> (e: MonitorEvent)
    ensures
        e == event_kind(msg@),
{
    if same_text(msg, "UserStats") || same_text(msg, "Client Heartbeat") {
        MonitorEvent::Status
    } else if same_text(msg, "Objective") {
        MonitorEvent::Objective
    } else {
        MonitorEvent::Other
    }
}

/// What the display does for an event.
#[derive(Clone, Copy, Debug, PartialEq, Eq, Structural)]
pub enum MonitorAction {
    Nothing,
    DrawStatus,
    DrawCrash,
}

/// The least time between two status lines, in nanoseconds: shorter on a
/// terminal (where colours are on and the line is redrawn in place) than on
/// a pipe.
pub open spec fn status_interval(colors: bool) -> u64 {
    if colors {
        300_000_000
    } else {
        2_000_000_000
    }
}

/// The time from `last` to `now`, or zero when `now` is not later.
pub open spec fn time_since(last: u64, now: u64) -> u64 {
    if now >= last {
        (now - last) as u64
    } else {
        0
    }
}

/// One step of the display: from the time of the last status line drawn and
/// an event at time `now`, the new time of the last status line and what to
/// draw. A status line is drawn only once `status_interval` has passed since
/// the last one.
pub open spec fn monitor_step(last_draw: Option<u64>, event: MonitorEvent, now: u64, colors: bool) -> (
    Option<u64>,
    MonitorAction,
) {
    match event {
        MonitorEvent::Status => match last_draw {
            Some(last) => if time_since(last, now) < status_interval(colors) {
                (last_draw, MonitorAction::Nothing)
            } else {
                (Some(now), MonitorAction::DrawStatus)
            },
            None => (Some(now), MonitorAction::DrawStatus),
        },
        MonitorEvent::Objective => (last_draw, MonitorAction::DrawCrash),
        MonitorEvent::Other => (last_draw, MonitorAction::Nothing),
    }
}

/// The live status display's state: when it last drew the status line, in
/// nanoseconds on the caller's monotonic clock.
#[derive(Debug)]
pub struct TalonMonitor {
    pub last_draw: Option<u64>,
}

impl TalonMonitor {
    /// A display that has not drawn yet.
    pub fn new() -> (m: Self)
        ensures
            m.last_draw is None,
    {
        TalonMonitor { last_draw: None }
    }

    /// Handles the event named `event_msg`, seen at `now_nanos`, and says
    /// what to draw.
    pub fn display(&mut self, event_msg: &str, now_nanos: u64, colors: bool) -> (a: MonitorAction)
        ensures
            (final(self).last_draw, a) == monitor_step(
                old(self).last_draw,
                event_kind(event_msg@),
                now_nanos,
                colors,
            ),
    {
        match classify_event(event_msg) {
            MonitorEvent::Status => {
                let interval: u64 = if colors {
                    300_000_000
                } else {
                    2_000_000_000
                };
                match self.last_draw {
                    Some(last) => {
                        let since = if now_nanos >= last {
                            now_nanos - last
                        } else {
                            0
                        };
                        if since < interval {
                            return MonitorAction::Nothing;
                        }
                    },
                    None => {},
                }
                self.last_draw = Some(now_nanos);
                MonitorAction::DrawStatus
            },
            MonitorEvent::Objective => MonitorAction::DrawCrash,
            MonitorEvent::Other => MonitorAction::Nothing,
        }
    }
}

/// After a status line is drawn, no other is drawn until the interval has
/// passed, and one is drawn for the first status event after it.
pub proof fn lemma_status_throttled(
    last_draw: Option<u64>,
    t1: u64,
    t2: u64,
    colors: bool,
)
    requires
        monitor_step(last_draw, MonitorEvent::Status, t1, colors).1 == MonitorAction::DrawStatus,
        t1 <= t2,
    ensures
        status_interval(true) == 300_000_000,
        status_interval(false) == 2_000_000_000,
        ({
            let s1 = monitor_step(last_draw, MonitorEvent::Status, t1, colors).0;
            &&& s1 == Some(t1)
            &&& (t2 - t1 < status_interval(colors) ==> monitor_step(
                s1,
                MonitorEvent::Status,
                t2,
                colors,
            ) == (s1, MonitorAction::Nothing))
            &&& (t2 - t1 >= status_interval(colors) ==> monitor_step(
                s1,
                MonitorEvent::Status,
                t2,
                colors,
            ) == (Some(t2), MonitorAction::DrawStatus))
        }),
{
}

/// A crash is always announced, and neither it nor an unknown event changes
/// when the status line may next be drawn.
pub proof fn lemma_objective_always_drawn(last_draw: Option<u64>, now: u64, colors: bool)
    ensures
        monitor_step(last_draw, MonitorEvent::Objective, now, colors) == (
            last_draw,
            MonitorAction::DrawCrash,
        ),
        monitor_step(last_draw, MonitorEvent::Other, now, colors) == (
            last_draw,
            MonitorAction::Nothing,
        ),
{
}

/// With colours off, every piece of display text is plain: no escape code is
/// added to what the caller hands in.
pub proof fn lemma_plain_without_colors(code: Seq<char>, text: Seq<char>)
    ensures
        painted(code, text, false) == text,
        full_line(text, false) == text,
{
}

/// Whatever the colours, a reported signal count is shown: the status line is
/// the line without it followed by its ` · sig` field.
pub proof fn lemma_status_line_shows_signals(
    run_time: Seq<char>,
    execs: Seq<char>,
    rate: Seq<char>,
    corpus: u64,
    objectives: u64,
    signals: Seq<char>,
    colors: bool,
)
    ensures
        signals.len() > 0 ==> status_line(run_time, execs, rate, corpus, objectives, signals, colors)
            == status_line(run_time, execs, rate, corpus, objectives, Seq::empty(), colors)
            + segment_text("sig"@, signals, colors),
        status_line(run_time, execs, rate, corpus, objectives, signals, colors).len() >= status_line(
            run_time,
            execs,
            rate,
            corpus,
            objectives,
            signals,
            false,
        ).len(),
{
}

} // verus!
