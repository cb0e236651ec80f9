//! The persisted layout: `layout.json` beside the configuration.
//!
//! The current durable layout is saved after a quiet period that follows the
//! last event that changed it, and restored once at startup. A debug trail goes
//! to `layout.log` in the same directory. Nothing here is fatal: a file that is
//! missing, empty, broken or of another version leaves the default behaviour.
use vstd::prelude::*;
use vstd::string::StringExecFns;

use std::time::SystemTime;

use crate::layout_snapshot;
use crate::layout_snapshot::LayoutSnapshot;
use crate::load_layout_snapshot;
use crate::load_layout_snapshot::{LiveWindow, LoadLayoutSummary, RestorePlan};
use crate::monitor_match::LiveMonitor;
use crate::paths;
use crate::text;
use crate::timestamp;
use crate::wm_event;
use crate::wm_event::WmEvent;

verus! {

/// Quiet period before the layout is written, in seconds.
pub const LAYOUT_AUTO_SAVE_DEBOUNCE: u64 = 5;

/// The same in milliseconds.
pub const AUTO_SAVE_DEBOUNCE_MILLIS: u64 = 5000;

/// Name of the persisted layout, beside the configuration.
pub const LAYOUT_SNAPSHOT_FILE_NAME: &'static str = "layout.json";

/// Name of the debug log, beside the persisted layout.
pub const LAYOUT_DEBUG_LOG_FILE_NAME: &'static str = "layout.log";

/// Size from which on the debug log is rotated.
pub const LAYOUT_DEBUG_LOG_MAX_BYTES: u64 = 2_097_152;

/// How often the startup restore is tried again.
pub const STARTUP_LAYOUT_RETRIES: u32 = 4;

/// Seconds between two tries.
pub const STARTUP_LAYOUT_RETRY_SECS: u64 = 2;

// ---------------------------------------------------------------------------
// Paths
// ---------------------------------------------------------------------------

/// The active configuration, of which only the path of its file matters here.
#[derive(Debug, PartialEq, Eq)]
pub struct UserConfig {
    pub path: String,
}

/// `layout.json` in the directory of the active configuration.
pub fn layout_snapshot_path(config: &UserConfig) -> (r: String)
    ensures
        r@ == paths::with_name(config.path@, LAYOUT_SNAPSHOT_FILE_NAME@),
{
    layout_snapshot_path_from_config_path(config.path.as_str())
}

/// `layout.json` in the directory of the file `config_path`.
pub fn layout_snapshot_path_from_config_path(config_path: &str) -> (r: String)
    ensures
        r@ == paths::with_name(config_path@, LAYOUT_SNAPSHOT_FILE_NAME@),
{
    paths::with_file_name(config_path, LAYOUT_SNAPSHOT_FILE_NAME)
}

/// `layout.log` in the directory of the active configuration.
pub fn layout_debug_log_path(config: &UserConfig) -> (r: String)
    ensures
        r@ == paths::with_name(config.path@, LAYOUT_DEBUG_LOG_FILE_NAME@),
{
    layout_debug_log_path_from_config_path(config.path.as_str())
}

/// `layout.log` in the directory of the file `config_path`.
pub fn layout_debug_log_path_from_config_path(config_path: &str) -> (r: String)
    ensures
        r@ == paths::with_name(config_path@, LAYOUT_DEBUG_LOG_FILE_NAME@),
{
    paths::with_file_name(config_path, LAYOUT_DEBUG_LOG_FILE_NAME)
}

// ---------------------------------------------------------------------------
// Debug log
// ---------------------------------------------------------------------------

/// Where debug lines go, once that is known.
#[derive(Debug, PartialEq, Eq)]
pub struct LayoutDebugLog {
    pub path: Option<String>,
}

/// What to do with a debug line.
#[derive(Debug, PartialEq, Eq)]
pub enum LogStep {
    /// No log is set; the line is dropped.
    Skip,
    /// Append `line` to the file `path`, after renaming that file to `backup`
    /// where one is given.
    Append { path: String, backup: Option<String>, line: String },
}

/// Remembers where debug lines go.
pub fn set_layout_debug_log_path(log: &mut LayoutDebugLog, path: String)
    ensures
        final(log).path == Some(path),
{
    log.path = Some(path);
}

/// One line of the log: the time in square brackets, then the message.
pub open spec fn log_line(stamp: Seq<char>, message: Seq<char>) -> Seq<char> {
    "["@ + stamp + "] "@ + message + "\n"@
}

/// Whether `step` is what a log does with a message at the time `stamp`, given
/// the size of its file if there is one. A file that has reached its cap is kept
/// under the extension `log.1`.
pub open spec fn is_log_step(
    step: LogStep,
    log: LayoutDebugLog,
    message: Seq<char>,
    stamp: Seq<char>,
    size: Option<u64>,
) -> bool {
    match (log.path, step) {
        (None, LogStep::Skip) => true,
        (Some(at), LogStep::Append { path, backup, line }) => {
            &&& path@ == at@
            &&& text::opt_view(backup) == if size is Some && size->0 >= LAYOUT_DEBUG_LOG_MAX_BYTES {
                Some(paths::with_ext(at@, "log.1"@))
            } else {
                None
            }
            &&& line@ == log_line(stamp, message)
        },
        _ => false,
    }
}

/// Decides what to do with a debug line at the time `stamp`.
pub fn debug_log_step(log: &LayoutDebugLog, message: &str, stamp: &str, size: Option<u64>) -> (r:
    LogStep)
    ensures
        is_log_step(r, *log, message@, stamp@, size),
{
    match &log.path {
        None => LogStep::Skip,
        Some(path) => {
            let full = match size {
                Some(n) => n >= LAYOUT_DEBUG_LOG_MAX_BYTES,
                None => false,
            };
            let backup = if full {
                Some(paths::with_extension(path.as_str(), "log.1"))
            } else {
                None
            };
            let mut line = "[".to_owned();
            line.append(stamp);
            line.append("] ");
            line.append(message);
            line.append("\n");
            LogStep::Append { path: path.clone(), backup, line }
        },
    }
}

/// Decides what to do with a debug line at the time `now`, given the size of
/// the log file if it exists.
pub fn layout_debug_log(
    log: &LayoutDebugLog,
    message: &str,
    now: SystemTime,
    size: Option<u64>,
) -> (r: LogStep)
    ensures
        is_log_step(
            r,
            *log,
            message@,
            timestamp::rfc3339_since_epoch(timestamp::since_epoch(now)),
            size,
        ),
{
    let stamp = timestamp::format_system_time_rfc3339(now);
    debug_log_step(log, message, stamp.as_str(), size)
}

// ---------------------------------------------------------------------------
// Auto-save
// ---------------------------------------------------------------------------

/// The state of the auto-save: where it writes, when the pending save is due
/// and whether saving is allowed yet.
#[verifier::ext_equal]
pub struct AutoSaveModel {
    pub path: Seq<char>,
    pub due: Option<int>,
    pub enabled: bool,
}

/// Debounced writer of the persisted layout. Times are milliseconds of a
/// monotonic clock.
#[derive(Debug, PartialEq, Eq)]
pub struct LayoutAutoSave {
    path: String,
    due: Option<u64>,
    enabled: bool,
}

impl View for LayoutAutoSave {
    type V = AutoSaveModel;

    closed spec fn view(&self) -> AutoSaveModel {
        AutoSaveModel {
            path: self.path@,
            due: match self.due {
                Some(at) => Some(at as int),
                None => None,
            },
            enabled: self.enabled,
        }
    }
}

/// What came of an event that asks for a save.
#[derive(Clone, Copy, Debug, PartialEq, Eq, Structural)]
pub enum ScheduleOutcome {
    /// Saving is not allowed yet.
    Suppressed,
    /// A save is now pending.
    Scheduled,
    /// A save was pending already; its quiet period begins again.
    Coalesced,
}

/// What to do when a pending save fires.
#[derive(Debug, PartialEq, Eq)]
pub enum FlushStep {
    Skip { message: String },
    Write { path: String, message: String },
}

/// The state after an event that asks for a save at the time `now`.
pub open spec fn scheduled(state: AutoSaveModel, now: int) -> AutoSaveModel {
    if state.enabled {
        AutoSaveModel { due: Some(now + AUTO_SAVE_DEBOUNCE_MILLIS), ..state }
    } else {
        state
    }
}

/// The debug message for an event that asks for a save.
pub open spec fn schedule_message(outcome: ScheduleOutcome, event: WmEvent) -> Seq<char> {
    match outcome {
        ScheduleOutcome::Suppressed =>
            "auto-save suppressed (startup drain / disabled); event="@ + wm_event::kind_name(event),
        ScheduleOutcome::Scheduled => "auto-save scheduled; event="@ + wm_event::kind_name(event)
            + "; quiet="@ + text::decimal(LAYOUT_AUTO_SAVE_DEBOUNCE as nat) + "s"@,
        ScheduleOutcome::Coalesced => "auto-save debounce coalesced; event="@
            + wm_event::kind_name(event) + "; quiet="@ + text::decimal(
            LAYOUT_AUTO_SAVE_DEBOUNCE as nat,
        ) + "s"@,
    }
}

/// `{name} (workspaces=.., windows=..)`, as the debug messages count.
pub open spec fn with_counts(s: Seq<char>, workspaces: nat, windows: nat) -> Seq<char> {
    s + " (workspaces="@ + text::decimal(workspaces) + ", windows="@ + text::decimal(windows)
        + ")"@
}

fn push_counts(out: &mut String, workspaces: usize, windows: usize)
    ensures
        final(out)@ == with_counts(old(out)@, workspaces as nat, windows as nat),
{
    out.append(" (workspaces=");
    text::push_decimal(out, workspaces as u64);
    out.append(", windows=");
    text::push_decimal(out, windows as u64);
    out.append(")");
}

/// The debug message when saving to `path` becomes allowed.
pub open spec fn enabled_text(path: Seq<char>) -> Seq<char> {
    "auto-save enabled (debounce "@ + text::decimal(LAYOUT_AUTO_SAVE_DEBOUNCE as nat) + "s) -> "@
        + path
}

impl LayoutAutoSave {
    /// An auto-save that is not allowed to save yet.
    pub fn new(path: String) -> (r: LayoutAutoSave)
        ensures
            r@ == (AutoSaveModel { path: path@, due: None, enabled: false }),
    {
        LayoutAutoSave { path, due: None, enabled: false }
    }

    /// The file that is written.
    pub fn path(&self) -> (r: &str)
        ensures
            r@ == self@.path,
    {
        self.path.as_str()
    }

    /// Whether saving is allowed.
    pub fn enabled(&self) -> (r: bool)
        ensures
            r == self@.enabled,
    {
        self.enabled
    }

    /// Whether a save is pending.
    pub fn is_armed(&self) -> (r: bool)
        ensures
            r == (self@.due is Some),
    {
        self.due.is_some()
    }

    /// When the pending save is due.
    pub fn due(&self) -> (r: Option<u64>)
        ensures
            match r {
                Some(at) => self@.due == Some(at as int),
                None => self@.due is None,
            },
    {
        self.due
    }

    /// Allows saving and drops a pending save. Gives the debug message.
    pub fn enable(&mut self) -> (message: String)
        ensures
            final(self)@ == (AutoSaveModel { due: None, enabled: true, ..old(self)@ }),
            message@ == enabled_text(old(self)@.path),
    {
        self.enabled = true;
        self.due = None;
        self.enabled_message()
    }

    /// The debug message when saving becomes allowed.
    pub fn enabled_message(&self) -> (r: String)
        ensures
            r@ == enabled_text(self@.path),
    {
        let mut out = "auto-save enabled (debounce ".to_owned();
        text::push_decimal(&mut out, LAYOUT_AUTO_SAVE_DEBOUNCE);
        out.append("s) -> ");
        out.append(self.path.as_str());
        out
    }

    /// Schedules a save for an event at the time `now`, or starts the quiet
    /// period of the pending one again. Whether an event asks for a save is for
    /// the caller to decide. Gives the debug message too.
    pub fn schedule(&mut self, event: &WmEvent, now: u64) -> (r: (ScheduleOutcome, String))
        requires
            now + AUTO_SAVE_DEBOUNCE_MILLIS <= u64::MAX,
        ensures
            final(self)@ == scheduled(old(self)@, now as int),
            r.0 == if !old(self)@.enabled {
                ScheduleOutcome::Suppressed
            } else if old(self)@.due is Some {
                ScheduleOutcome::Coalesced
            } else {
                ScheduleOutcome::Scheduled
            },
            r.1@ == schedule_message(r.0, *event),
    {
        let kind = wm_event::wm_event_kind_name(event);
        if !self.enabled {
            let mut out = "auto-save suppressed (startup drain / disabled); event=".to_owned();
            out.append(kind);
            return (ScheduleOutcome::Suppressed, out);
        }
        let pending = self.due.is_some();
        self.due = Some(now + AUTO_SAVE_DEBOUNCE_MILLIS);
        let (outcome, mut out) = if pending {
            (ScheduleOutcome::Coalesced, "auto-save debounce coalesced; event=".to_owned())
        } else {
            (ScheduleOutcome::Scheduled, "auto-save scheduled; event=".to_owned())
        };
        out.append(kind);
        out.append("; quiet=");
        text::push_decimal(&mut out, LAYOUT_AUTO_SAVE_DEBOUNCE);
        out.append("s");
        (outcome, out)
    }

    /// Takes the pending save: the caller writes the current layout, unless
    /// saving is not allowed.
    pub fn flush(&mut self, workspaces: usize, windows: usize) -> (r: FlushStep)
        ensures
            final(self)@ == (AutoSaveModel { due: None, ..old(self)@ }),
            match r {
                FlushStep::Skip { message } => !old(self)@.enabled && message@
                    == "auto-save flush skipped (disabled)"@,
                FlushStep::Write { path, message } => {
                    &&& old(self)@.enabled
                    &&& path@ == old(self)@.path
                    &&& message@ == with_counts(
                        "auto-save debounce fired; writing "@ + old(self)@.path,
                        workspaces as nat,
                        windows as nat,
                    )
                },
            },
    {
        self.due = None;
        if !self.enabled {
            return FlushStep::Skip { message: "auto-save flush skipped (disabled)".to_owned() };
        }
        let mut out = "auto-save debounce fired; writing ".to_owned();
        out.append(self.path.as_str());
        push_counts(&mut out, workspaces, windows);
        FlushStep::Write { path: self.path.clone(), message: out }
    }

    /// The debug message after a write that succeeded, or failed with `error`.
    pub fn flush_result(&self, error: Option<&str>, workspaces: usize, windows: usize) -> (r:
        String)
        ensures
            r@ == match error {
                None => with_counts(
                    "auto-save success -> "@ + self@.path,
                    workspaces as nat,
                    windows as nat,
                ),
                Some(e) => "auto-save failed -> "@ + self@.path + ": "@ + e@,
            },
    {
        match error {
            None => {
                let mut out = "auto-save success -> ".to_owned();
                out.append(self.path.as_str());
                push_counts(&mut out, workspaces, windows);
                out
            },
            Some(e) => {
                let mut out = "auto-save failed -> ".to_owned();
                out.append(self.path.as_str());
                out.append(": ");
                out.append(e);
                out
            },
        }
    }
}

/// The state after events that ask for a save at the given times.
pub open spec fn after_events(state: AutoSaveModel, times: Seq<int>) -> AutoSaveModel
    decreases times.len(),
{
    if times.len() == 0 {
        state
    } else {
        scheduled(after_events(state, times.drop_last()), times.last())
    }
}

/// However many events ask for a save, one save is pending, and it is due one
/// quiet period after the last of them.
pub proof fn law_last_event_decides(state: AutoSaveModel, times: Seq<int>)
    requires
        state.enabled,
        times.len() > 0,
    ensures
        after_events(state, times) == (AutoSaveModel {
            due: Some(times.last() + AUTO_SAVE_DEBOUNCE_MILLIS),
            ..state
        }),
    decreases times.len(),
{
    if times.len() > 1 {
        law_last_event_decides(state, times.drop_last());
    } else {
        assert(after_events(state, times.drop_last()) == state);
    }
}

/// While saving is not allowed, no event makes a save pending.
pub proof fn law_disabled_never_saves(state: AutoSaveModel, times: Seq<int>)
    requires
        !state.enabled,
    ensures
        after_events(state, times) == state,
    decreases times.len(),
{
    if times.len() > 0 {
        law_disabled_never_saves(state, times.drop_last());
    }
}

// ---------------------------------------------------------------------------
// Restore at startup
// ---------------------------------------------------------------------------

/// What was found where the persisted layout should be.
#[derive(Debug, PartialEq, Eq)]
pub enum PersistedFile {
    Missing,
    Unreadable { error: String },
    Text(String),
}

/// The debug message before a load.
pub fn load_attempt_message(path: &str) -> (r: String)
    ensures
        r@ == "startup load attempting from "@ + path@,
{
    let mut out = "startup load attempting from ".to_owned();
    out.append(path);
    out
}

/// Gives the text to parse, or the debug message that says why there is none: no
/// file, a file that cannot be read, or one that holds only white space.
pub fn persisted_text(path: &str, found: PersistedFile) -> (r: Result<String, String>)
    ensures
        match (found, r) {
            (PersistedFile::Missing, Err(message)) => message@ == "startup load: no file at "@
                + path@ + "; using default layout behaviour"@,
            (PersistedFile::Unreadable { error }, Err(message)) => message@
                == "startup load: failed to read "@ + path@ + ": "@ + error@ + "; using default"@,
            (PersistedFile::Text(content), Err(message)) => text::trim(content@).len() == 0
                && message@ == "startup load: "@ + path@
                + " is empty; using default layout behaviour"@,
            (PersistedFile::Text(content), Ok(kept)) => text::trim(content@).len() > 0 && kept@
                == content@,
            _ => false,
        },
{
    match found {
        PersistedFile::Missing => {
            let mut out = "startup load: no file at ".to_owned();
            out.append(path);
            out.append("; using default layout behaviour");
            Err(out)
        },
        PersistedFile::Unreadable { error } => {
            let mut out = "startup load: failed to read ".to_owned();
            out.append(path);
            out.append(": ");
            out.append(error.as_str());
            out.append("; using default");
            Err(out)
        },
        PersistedFile::Text(content) => {
            let trimmed = text::trim_text(content.as_str());
            if trimmed.as_str().unicode_len() == 0 {
                let mut out = "startup load: ".to_owned();
                out.append(path);
                out.append(" is empty; using default layout behaviour");
                Err(out)
            } else {
                Ok(content)
            }
        },
    }
}

/// The debug message for a file that does not hold a snapshot.
pub open spec fn parse_failed(path: Seq<char>, error: Seq<char>) -> Seq<char> {
    "startup load: parse failed for "@ + path + ": "@ + error + "; using default"@
}

/// The debug message for a snapshot that could not be restored.
pub open spec fn restore_failed(path: Seq<char>, error: Seq<char>) -> Seq<char> {
    "startup load: restore failed for "@ + path + ": "@ + error + "; using default"@
}

/// The debug message for a snapshot that could not be restored.
pub fn restore_failed_message(path: &str, error: &str) -> (r: String)
    ensures
        r@ == restore_failed(path@, error@),
{
    let mut out = "startup load: restore failed for ".to_owned();
    out.append(path);
    out.append(": ");
    out.append(error);
    out.append("; using default");
    out
}

/// The debug message for a restored layout that did not reach the screen. The
/// layout counts as restored all the same.
pub fn sync_failed_message(error: &str) -> (r: String)
    ensures
        r@ == "platform_sync after persisted layout load failed: "@ + error@,
{
    let mut out = "platform_sync after persisted layout load failed: ".to_owned();
    out.append(error);
    out
}

/// Plans the restore of a persisted layout, or gives the debug message that says
/// why the default behaviour stays: the file does not hold a snapshot, or one of
/// another version.
pub fn try_load_persisted_layout_snapshot(
    path: &str,
    parsed: Result<LayoutSnapshot, String>,
    live_monitors: &[LiveMonitor],
    live_windows: &[LiveWindow],
) -> (r: Result<RestorePlan, String>)
    ensures
        match (parsed, r) {
            (Err(error), Err(message)) => message@ == parse_failed(path@, error@),
            (Ok(snapshot), Ok(plan)) => snapshot.version
                == layout_snapshot::LAYOUT_SNAPSHOT_VERSION
                && load_layout_snapshot::is_restore_plan(
                snapshot@,
                live_monitors@,
                live_windows@,
                plan,
            ),
            (Ok(snapshot), Err(message)) => snapshot.version
                != layout_snapshot::LAYOUT_SNAPSHOT_VERSION && message@ == restore_failed(
                path@,
                layout_snapshot::unsupported_version_message(snapshot.version),
            ),
            _ => false,
        },
{
    match parsed {
        Err(error) => {
            let mut out = "startup load: parse failed for ".to_owned();
            out.append(path);
            out.append(": ");
            out.append(error.as_str());
            out.append("; using default");
            Err(out)
        },
        Ok(snapshot) => match load_layout_snapshot::load_layout_snapshot(
            &snapshot,
            live_monitors,
            live_windows,
        ) {
            Ok(plan) => Ok(plan),
            Err(error) => Err(restore_failed_message(path, error.as_str())),
        },
    }
}

/// The debug message after a restore.
pub open spec fn load_success(path: Seq<char>, s: LoadLayoutSummary) -> Seq<char> {
    "startup load success from "@ + path + ": "@ + load_layout_snapshot::summary_text(s)
}

/// The debug message after a restore.
pub fn load_success_message(path: &str, summary: &LoadLayoutSummary) -> (r: String)
    ensures
        r@ == load_success(path@, *summary),
{
    let mut out = "startup load success from ".to_owned();
    out.append(path);
    out.append(": ");
    out.append(summary.counts().as_str());
    out
}

// ---------------------------------------------------------------------------
// Retries
// ---------------------------------------------------------------------------

/// A load left saved windows without a match. A load that failed leaves none.
pub open spec fn left_unmatched(load: Option<LoadLayoutSummary>) -> bool {
    load is Some && load->0.unmatched_snapshot > 0
}

/// The restore at startup, until it has settled. Windows that appear late are
/// matched by trying again; the auto-save stays off meanwhile, so that the
/// incomplete arrangement is not written over the saved one.
#[verifier::ext_equal]
pub struct StartupModel {
    pub auto_save: AutoSaveModel,
    pub retries_left: nat,
}

impl StartupModel {
    /// The auto-save is allowed exactly once no retry is left.
    pub open spec fn wf(self) -> bool {
        self.auto_save.enabled == (self.retries_left == 0)
    }
}

/// The restore at startup and the auto-save that follows it.
#[derive(Debug, PartialEq, Eq)]
pub struct StartupLayout {
    auto_save: LayoutAutoSave,
    retries_left: u32,
}

impl View for StartupLayout {
    type V = StartupModel;

    closed spec fn view(&self) -> StartupModel {
        StartupModel { auto_save: self.auto_save@, retries_left: self.retries_left as nat }
    }
}

/// What follows a try.
#[derive(Clone, Copy, Debug, PartialEq, Eq, Structural)]
pub enum RetryStep {
    /// Try again after [`STARTUP_LAYOUT_RETRY_SECS`], if nothing comes before.
    Wait,
    /// The restore has settled.
    Settled,
}

/// The state once the restore has settled.
pub open spec fn settled(state: StartupModel) -> StartupModel {
    StartupModel {
        auto_save: AutoSaveModel { due: None, enabled: true, ..state.auto_save },
        retries_left: 0,
    }
}

/// The state after a timed try.
pub open spec fn after_timed_try(
    state: StartupModel,
    load: Option<LoadLayoutSummary>,
) -> StartupModel {
    if left_unmatched(load) && state.retries_left > 1 {
        StartupModel { retries_left: (state.retries_left - 1) as nat, ..state }
    } else {
        settled(state)
    }
}

/// The state after a try because a window appeared.
pub open spec fn after_window_try(
    state: StartupModel,
    load: Option<LoadLayoutSummary>,
) -> StartupModel {
    if load is Some && load->0.unmatched_snapshot == 0 {
        settled(state)
    } else {
        state
    }
}

impl StartupLayout {
    /// The state after the first load at startup.
    pub fn new(path: String, first_load: Option<LoadLayoutSummary>) -> (r: StartupLayout)
        ensures
            r@.wf(),
            r@.auto_save.path == path@,
            r@.auto_save.due is None,
            r@.retries_left == if left_unmatched(first_load) {
                STARTUP_LAYOUT_RETRIES as nat
            } else {
                0
            },
    {
        let unmatched = match first_load {
            Some(summary) => summary.unmatched_snapshot > 0,
            None => false,
        };
        let mut auto_save = LayoutAutoSave::new(path);
        if unmatched {
            StartupLayout { auto_save, retries_left: STARTUP_LAYOUT_RETRIES }
        } else {
            auto_save.enable();
            StartupLayout { auto_save, retries_left: 0 }
        }
    }

    /// How many timed tries are left.
    pub fn retries_left(&self) -> (r: u32)
        ensures
            r == self@.retries_left,
    {
        self.retries_left
    }

    /// The auto-save.
    pub fn auto_save(&self) -> (r: &LayoutAutoSave)
        ensures
            r@ == self@.auto_save,
    {
        &self.auto_save
    }

    /// Whether an event is a reason to try again at once.
    pub fn should_retry_on(&self, event: &WmEvent) -> (r: bool)
        ensures
            r == (self@.retries_left > 0 && *event is WindowManaged),
    {
        self.retries_left > 0 && matches!(event, WmEvent::WindowManaged)
    }

    /// Takes in what a timed try came to.
    pub fn timed_try(&mut self, load: Option<LoadLayoutSummary>) -> (r: RetryStep)
        requires
            old(self)@.retries_left > 0,
        ensures
            final(self)@ == after_timed_try(old(self)@, load),
            old(self)@.wf() ==> final(self)@.wf(),
            r == if final(self)@.retries_left > 0 {
                RetryStep::Wait
            } else {
                RetryStep::Settled
            },
    {
        let unmatched = match load {
            Some(summary) => summary.unmatched_snapshot > 0,
            None => false,
        };
        if unmatched && self.retries_left > 1 {
            self.retries_left = self.retries_left - 1;
            RetryStep::Wait
        } else {
            self.retries_left = 0;
            self.auto_save.enable();
            RetryStep::Settled
        }
    }

    /// Takes in what a try came to that a new window caused. It does not use up
    /// a timed try.
    pub fn window_try(&mut self, load: Option<LoadLayoutSummary>) -> (r: RetryStep)
        requires
            old(self)@.retries_left > 0,
        ensures
            final(self)@ == after_window_try(old(self)@, load),
            old(self)@.wf() ==> final(self)@.wf(),
            r == if final(self)@.retries_left > 0 {
                RetryStep::Wait
            } else {
                RetryStep::Settled
            },
    {
        let matched = match load {
            Some(summary) => summary.unmatched_snapshot == 0,
            None => false,
        };
        if matched {
            self.retries_left = 0;
            self.auto_save.enable();
            RetryStep::Settled
        } else {
            RetryStep::Wait
        }
    }

    /// Takes in an event at the time `now`: one that changes the layout asks the
    /// auto-save for a save.
    pub fn observe(&mut self, event: &WmEvent, now: u64) -> (r: Option<(ScheduleOutcome, String)>)
        requires
            now + AUTO_SAVE_DEBOUNCE_MILLIS <= u64::MAX,
        ensures
            final(self)@.retries_left == old(self)@.retries_left,
            final(self)@.auto_save == if wm_event::affects_layout(*event) {
                scheduled(old(self)@.auto_save, now as int)
            } else {
                old(self)@.auto_save
            },
            old(self)@.wf() ==> final(self)@.wf(),
            r is Some == wm_event::affects_layout(*event),
            r matches Some(o) ==> o.1@ == schedule_message(o.0, *event) && o.0 == if !old(
                self,
            )@.auto_save.enabled {
                ScheduleOutcome::Suppressed
            } else if old(self)@.auto_save.due is Some {
                ScheduleOutcome::Coalesced
            } else {
                ScheduleOutcome::Scheduled
            },
    {
        if wm_event::wm_event_affects_layout_snapshot(event) {
            Some(self.auto_save.schedule(event, now))
        } else {
            None
        }
    }

    /// Takes the pending save.
    pub fn flush(&mut self, workspaces: usize, windows: usize) -> (r: FlushStep)
        ensures
            final(self)@ == (StartupModel {
                auto_save: AutoSaveModel { due: None, ..old(self)@.auto_save },
                ..old(self)@
            }),
            r is Write == old(self)@.auto_save.enabled,
            r matches FlushStep::Skip { message } ==> message@
                == "auto-save flush skipped (disabled)"@,
            r matches FlushStep::Write { path, message } ==> path@ == old(self)@.auto_save.path
                && message@ == with_counts(
                "auto-save debounce fired; writing "@ + old(self)@.auto_save.path,
                workspaces as nat,
                windows as nat,
            ),
    {
        self.auto_save.flush(workspaces, windows)
    }
}

/// The state after timed tries with the given results.
pub open spec fn after_tries(
    state: StartupModel,
    loads: Seq<Option<LoadLayoutSummary>>,
) -> StartupModel
    decreases loads.len(),
{
    if loads.len() == 0 {
        state
    } else {
        after_timed_try(after_tries(state, loads.drop_last()), loads.last())
    }
}

/// The startup restore settles: after as many timed tries as were left, whatever
/// they came to, none is left and the auto-save is allowed.
pub proof fn law_retries_end(state: StartupModel, loads: Seq<Option<LoadLayoutSummary>>)
    requires
        state.wf(),
        loads.len() >= state.retries_left,
    ensures
        after_tries(state, loads).retries_left == 0,
        after_tries(state, loads).auto_save.enabled,
{
    lemma_tries_count_down(state, loads);
}

proof fn lemma_tries_count_down(state: StartupModel, loads: Seq<Option<LoadLayoutSummary>>)
    requires
        state.wf(),
    ensures
        after_tries(state, loads).wf(),
        after_tries(state, loads).retries_left <= if loads.len() >= state.retries_left {
            0int
        } else {
            state.retries_left - loads.len()
        },
    decreases loads.len(),
{
    if loads.len() > 0 {
        lemma_tries_count_down(state, loads.drop_last());
    }
}

/// While tries are left, nothing is saved: no event makes a save pending.
pub proof fn law_nothing_is_saved_before_settling(state: StartupModel, times: Seq<int>)
    requires
        state.wf(),
        state.retries_left > 0,
    ensures
        after_events(state.auto_save, times) == state.auto_save,
{
    law_disabled_never_saves(state.auto_save, times);
}

/// A save waits until the layout was left alone for five seconds, and goes where it
/// was to go.
pub proof fn law_save_waits_for_quiet(state: AutoSaveModel, now: int)
    requires
        state.enabled,
    ensures
        scheduled(state, now).due == Some(now + 5000),
        scheduled(state, now).path == state.path,
        scheduled(state, now).enabled,
{
}

/// While saved windows are without a match, a timed try uses up one of those that are
/// left and saving stays off; the last one, a load that matched everything, and one
/// that failed end the restore, and saving begins with nothing pending.
pub proof fn law_timed_tries_wait_for_windows(state: StartupModel, summary: LoadLayoutSummary)
    requires
        state.wf(),
        state.retries_left > 0,
    ensures
        ({
            let after = after_timed_try(state, Some(summary));
            &&& summary.unmatched_snapshot > 0 && state.retries_left > 1 ==> after.retries_left
                == state.retries_left - 1 && after.auto_save == state.auto_save
            &&& summary.unmatched_snapshot == 0 || state.retries_left == 1 ==> after.retries_left
                == 0 && after.auto_save.enabled && after.auto_save.due is None
            &&& after.auto_save.path == state.auto_save.path
        }),
        after_timed_try(state, None).retries_left == 0,
        after_timed_try(state, None).auto_save.enabled,
{
}

/// A try that a new window caused ends the restore exactly if it matched every saved
/// window; otherwise everything stays as it was.
pub proof fn law_window_tries_cost_nothing(state: StartupModel, summary: LoadLayoutSummary)
    requires
        state.wf(),
        state.retries_left > 0,
    ensures
        ({
            let after = after_window_try(state, Some(summary));
            &&& summary.unmatched_snapshot > 0 ==> after == state
            &&& summary.unmatched_snapshot == 0 ==> after.retries_left == 0
                && after.auto_save.enabled && after.auto_save.due is None && after.auto_save.path
                == state.auto_save.path
        }),
        after_window_try(state, None) == state,
{
}

/// A log that has reached two mebibytes is put aside before the next line; the line goes
/// to the log's own file and holds the time and the message. Without a log nothing is
/// written.
pub proof fn law_full_log_is_put_aside(
    step: LogStep,
    log: LayoutDebugLog,
    message: Seq<char>,
    stamp: Seq<char>,
    size: Option<u64>,
)
    requires
        is_log_step(step, log, message, stamp, size),
    ensures
        log.path is None <==> step is Skip,
        step matches LogStep::Append { path, backup, line } ==> {
            &&& path@ == (log.path->0)@
            &&& backup is Some <==> size is Some && size->0 >= 2097152
            &&& line@ == seq!['['] + stamp + seq![']', ' '] + message + seq!['\n']
        },
{
    reveal_strlit("[");
    reveal_strlit("] ");
    reveal_strlit("\n");
    if let LogStep::Append { path, backup, line } = step {
        assert("["@ =~= seq!['[']);
        assert("] "@ =~= seq![']', ' ']);
        assert("\n"@ =~= seq!['\n']);
    }
}

} // verus!
