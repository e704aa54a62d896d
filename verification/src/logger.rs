//! The log: where it is written, and what a line of it says.
use crate::paths::{
    extension, file_stem, join_path, joined_path, parent, path_extension, path_parent, path_stem,
};
use crate::text::{concat, same_text};
use crate::types::text_view;
use vstd::prelude::*;

verus! {

/// Where the log is written: a file for each day.
#[derive(Clone, Debug)]
pub struct LoggerState {
    pub dir: String,
    pub base_name: String,
    pub date: String,
}

/// Where the log is written, as a mathematical value.
#[verifier::ext_equal]
pub struct LoggerView {
    pub dir: Seq<char>,
    pub base_name: Seq<char>,
    pub date: Seq<char>,
}

impl View for LoggerState {
    type V = LoggerView;

    open spec fn view(&self) -> LoggerView {
        LoggerView { dir: self.dir@, base_name: self.base_name@, date: self.date@ }
    }
}

/// What is written to the log: a line, and the file that it goes to where that
/// has to be opened first.
#[derive(Clone, Debug)]
pub struct LogEntry {
    pub reopen: Option<String>,
    pub line: String,
}

// ---------------------------------------------------------------------------
// Where
// ---------------------------------------------------------------------------

/// The place that a configuration gives, seen from the working directory.
pub open spec fn log_place(path: Seq<char>, cwd: Seq<char>) -> Seq<char> {
    joined_path(cwd, path)
}

/// The place that a configuration gives, seen from the working directory.
pub fn resolve_log_path(path: &str, cwd: &str) -> (place: String)
    ensures
        place@ == log_place(path@, cwd@),
{
    join_path(cwd, path)
}

/// The directory of the log and the start of the names of its files. The place
/// may be a directory or the path of a log file; `is_dir` tells whether it is a
/// directory that exists.
pub open spec fn log_target(path: Option<Seq<char>>, cwd: Seq<char>, is_dir: bool) -> (
    Seq<char>,
    Seq<char>,
) {
    match path {
        None => (cwd, "mcp-search"@),
        Some(path) => {
            let place = log_place(path, cwd);
            if is_dir || path_extension(place) != Some("log"@) {
                (place, "mcp-search"@)
            } else {
                (
                    match path_parent(place) {
                        Some(dir) => dir,
                        None => cwd,
                    },
                    match path_stem(place) {
                        Some(stem) => stem,
                        None => "mcp-search"@,
                    },
                )
            }
        },
    }
}

/// The directory of the log and the start of the names of its files.
pub fn resolve_log_target(log_path: &Option<String>, cwd: &str, is_dir: bool) -> (target: (
    String,
    String,
))
    ensures
        (target.0@, target.1@) == log_target(text_view(*log_path), cwd@, is_dir),
{
    match log_path {
        None => (cwd.to_owned(), "mcp-search".to_owned()),
        Some(path) => {
            let place = resolve_log_path(path.as_str(), cwd);
            let is_log = match extension(place.as_str()) {
                Some(own) => same_text(own.as_str(), "log"),
                None => false,
            };
            if is_dir || !is_log {
                return (place, "mcp-search".to_owned());
            }
            let dir: String = match parent(place.as_str()) {
                Some(dir) => dir,
                None => cwd.to_owned(),
            };
            let stem: String = match file_stem(place.as_str()) {
                Some(stem) => stem,
                None => "mcp-search".to_owned(),
            };
            (dir, stem)
        },
    }
}

/// The file of the log of a day.
pub open spec fn log_file(state: LoggerView) -> Seq<char> {
    joined_path(state.dir, state.base_name + "-"@ + state.date + ".log"@)
}

/// The file of the log of a day.
pub fn log_file_path(state: &LoggerState) -> (path: String)
    ensures
        path@ == log_file(state@),
{
    let mut name = concat(state.base_name.as_str(), "-");
    name.push_str(state.date.as_str());
    name.push_str(".log");
    join_path(state.dir.as_str(), name.as_str())
}

/// Settles where the log is written. `is_dir` tells whether the place that the
/// configuration gives is a directory that exists.
pub fn configure(log_path: &Option<String>, cwd: &str, is_dir: bool, date: &str) -> (state:
    LoggerState)
    ensures
        (state@.dir, state@.base_name) == log_target(text_view(*log_path), cwd@, is_dir),
        state@.date == date@,
{
    let target = resolve_log_target(log_path, cwd, is_dir);
    LoggerState { dir: target.0, base_name: target.1, date: date.to_owned() }
}

/// Takes over where the log is written next, once its file could be opened;
/// where it could not, the log stays where it was.
pub fn adopt(current: Option<LoggerState>, next: LoggerState, opened: &Result<(), String>) -> (state:
    Option<LoggerState>)
    ensures
        state == if *opened is Ok {
            Some(next)
        } else {
            current
        },
{
    match opened {
        Ok(_) => Some(next),
        Err(_) => current,
    }
}

// ---------------------------------------------------------------------------
// What
// ---------------------------------------------------------------------------

/// A line of the log.
pub open spec fn log_line(level: Seq<char>, message: Seq<char>, timestamp: Seq<char>) -> Seq<char> {
    timestamp + " ["@ + level + "] "@ + message + "\n"@
}

/// The log of another day.
pub open spec fn on_day(state: LoggerView, date: Seq<char>) -> LoggerView {
    LoggerView { date, ..state }
}

/// Writes to the log: on another day than before, to another file.
pub fn write_log(
    state: &mut LoggerState,
    level: &str,
    message: &str,
    date: &str,
    timestamp: &str,
) -> (written: LogEntry)
    ensures
        final(state)@ == on_day(old(state)@, date@),
        written.line@ == log_line(level@, message@, timestamp@),
        text_view(written.reopen) == if old(state)@.date == date@ {
            None
        } else {
            Some(log_file(on_day(old(state)@, date@)))
        },
{
    let mut line = concat(timestamp, " [");
    line.push_str(level);
    line.push_str("] ");
    line.push_str(message);
    line.push_str("\n");
    if same_text(state.date.as_str(), date) {
        return LogEntry { reopen: None, line };
    }
    state.date = date.to_owned();
    LogEntry { reopen: Some(log_file_path(state)), line }
}

/// Writes a message that tells what is going on.
pub fn info(state: &mut LoggerState, message: &str, date: &str, timestamp: &str) -> (written:
    LogEntry)
    ensures
        final(state)@ == on_day(old(state)@, date@),
        written.line@ == log_line("INFO"@, message@, timestamp@),
        text_view(written.reopen) == if old(state)@.date == date@ {
            None
        } else {
            Some(log_file(on_day(old(state)@, date@)))
        },
{
    write_log(state, "INFO", message, date, timestamp)
}

/// Writes a message about something that is not as it should be.
pub fn warn(state: &mut LoggerState, message: &str, date: &str, timestamp: &str) -> (written:
    LogEntry)
    ensures
        final(state)@ == on_day(old(state)@, date@),
        written.line@ == log_line("WARN"@, message@, timestamp@),
        text_view(written.reopen) == if old(state)@.date == date@ {
            None
        } else {
            Some(log_file(on_day(old(state)@, date@)))
        },
{
    write_log(state, "WARN", message, date, timestamp)
}

/// Writes a message about a failure.
pub fn error(state: &mut LoggerState, message: &str, date: &str, timestamp: &str) -> (written:
    LogEntry)
    ensures
        final(state)@ == on_day(old(state)@, date@),
        written.line@ == log_line("ERROR"@, message@, timestamp@),
        text_view(written.reopen) == if old(state)@.date == date@ {
            None
        } else {
            Some(log_file(on_day(old(state)@, date@)))
        },
{
    write_log(state, "ERROR", message, date, timestamp)
}

// ---------------------------------------------------------------------------
// Over time
// ---------------------------------------------------------------------------

/// What happens to the log: it is configured, and its file can be opened or not,
/// or a line is written.
pub enum LogEvent {
    Configured {
        path: Option<Seq<char>>,
        cwd: Seq<char>,
        is_dir: bool,
        date: Seq<char>,
        opened: bool,
    },
    Line { date: Seq<char> },
}

/// The log, and the file that it is open on.
#[verifier::ext_equal]
pub struct LogView {
    pub state: LoggerView,
    pub file: Seq<char>,
}

/// The log after something happened; before it is opened there is none. A line
/// goes to the file that the log is open on then.
pub open spec fn log_after(log: Option<LogView>, event: LogEvent) -> Option<LogView> {
    match (event, log) {
        (LogEvent::Configured { path, cwd, is_dir, date, opened }, _) => if opened {
            let target = log_target(path, cwd, is_dir);
            let state = LoggerView { dir: target.0, base_name: target.1, date };
            Some(LogView { state, file: log_file(state) })
        } else {
            log
        },
        (LogEvent::Line { date }, Some(log)) => Some(
            LogView {
                state: on_day(log.state, date),
                file: if log.state.date == date {
                    log.file
                } else {
                    log_file(on_day(log.state, date))
                },
            },
        ),
        (LogEvent::Line { date }, None) => None,
    }
}

/// The log after things happened, one after the other.
pub open spec fn log_after_all(log: Option<LogView>, events: Seq<LogEvent>) -> Option<LogView>
    decreases events.len(),
{
    if events.len() == 0 {
        log
    } else {
        log_after(log_after_all(log, events.drop_last()), events.last())
    }
}

/// Whether something is a line, or a configuration whose file could not be
/// opened.
pub open spec fn keeps_target(event: LogEvent) -> bool {
    match event {
        LogEvent::Configured { opened, .. } => !opened,
        LogEvent::Line { .. } => true,
    }
}

/// Once the log is configured and opened, whatever happened before, each line
/// goes to the file of its day in the directory that was configured, and no
/// longer to an earlier one. A later configuration whose file cannot be opened
/// changes nothing of that.
pub proof fn law_lines_go_where_configured(
    log: Option<LogView>,
    before: Seq<LogEvent>,
    path: Option<Seq<char>>,
    cwd: Seq<char>,
    is_dir: bool,
    date: Seq<char>,
    later: Seq<LogEvent>,
    line: Seq<char>,
)
    requires
        forall|i: int| 0 <= i < later.len() ==> keeps_target(#[trigger] later[i]),
    ensures
        ({
            let target = log_target(path, cwd, is_dir);
            let start = before.push(
                LogEvent::Configured { path, cwd, is_dir, date, opened: true },
            );
            let events = (start + later).push(LogEvent::Line { date: line });
            &&& log_after_all(log, events) is Some
            &&& log_after_all(log, events)->0.file == joined_path(
                target.0,
                target.1 + "-"@ + line + ".log"@,
            )
        }),
{
    let start = before.push(LogEvent::Configured { path, cwd, is_dir, date, opened: true });
    let last = LogEvent::Line { date: line };
    lemma_log_stays(log, before, path, cwd, is_dir, date, later);
    assert((start + later).push(last).drop_last() =~= start + later);
}

/// The log stays where it was configured, open on the file of its day.
proof fn lemma_log_stays(
    log: Option<LogView>,
    before: Seq<LogEvent>,
    path: Option<Seq<char>>,
    cwd: Seq<char>,
    is_dir: bool,
    date: Seq<char>,
    later: Seq<LogEvent>,
)
    requires
        forall|i: int| 0 <= i < later.len() ==> keeps_target(#[trigger] later[i]),
    ensures
        ({
            let start = before.push(
                LogEvent::Configured { path, cwd, is_dir, date, opened: true },
            );
            match log_after_all(log, start + later) {
                Some(after) => {
                    &&& (after.state.dir, after.state.base_name) == log_target(path, cwd, is_dir)
                    &&& after.file == log_file(after.state)
                },
                None => false,
            }
        }),
    decreases later.len(),
{
    let start = before.push(LogEvent::Configured { path, cwd, is_dir, date, opened: true });
    if later.len() == 0 {
        assert(start + later =~= start);
    } else {
        let fewer = later.drop_last();
        assert forall|i: int| 0 <= i < fewer.len() implies keeps_target(#[trigger] fewer[i]) by {
            assert(fewer[i] == later[i]);
        }
        lemma_log_stays(log, before, path, cwd, is_dir, date, fewer);
        assert((start + later).drop_last() =~= start + fewer);
        assert((start + later).last() == later[later.len() - 1]);
        assert(keeps_target(later[later.len() - 1]));
    }
}

} // verus!
