//! What to do when the IPC port is taken.
//!
//! A crashed or half-dead instance can keep the port, and so can a ghost: a
//! listening socket whose process is gone. The manager tries its preferred port;
//! if that is in use it asks whether to end the other instance, tries again for a
//! while, and at last falls back to the next ports and then to any free one. The
//! port that was bound is left in a file for the clients.
use vstd::prelude::*;
use vstd::string::StringExecFns;

use crate::ipc;
use crate::text;

verus! {

/// How often the user is asked to end the other instance.
pub const MAX_KILL_RETRY_ROUNDS: u32 = 2;

/// How many ports after the preferred one are tried.
pub const FALLBACK_PORT_SPAN: u32 = 10;

/// The system's error number for an address in use, on Windows.
pub const WSAEADDRINUSE: i32 = 10048;

/// How long binding is tried after a kill, and how often, in milliseconds.
pub const POST_KILL_POLL_MILLIS: u64 = 5000;

pub const POST_KILL_POLL_INTERVAL_MILLIS: u64 = 250;

/// Whether binding is tried again `elapsed_millis` after a kill.
pub fn poll_again(elapsed_millis: u64) -> (r: bool)
    ensures
        r == (elapsed_millis < POST_KILL_POLL_MILLIS),
{
    elapsed_millis < POST_KILL_POLL_MILLIS
}

/// Title of the question.
pub const DIALOG_TITLE: &'static str = "GlazeWM — IPC port in use";

// ---------------------------------------------------------------------------
// Errors
// ---------------------------------------------------------------------------

/// The kinds of error that binding a port can end in.
#[derive(Clone, Copy, Debug, PartialEq, Eq, Structural)]
pub enum BindErrorKind {
    AddrInUse,
    Other,
}

/// Why a port could not be bound.
#[derive(Debug, PartialEq, Eq)]
pub struct BindError {
    pub kind: BindErrorKind,
    pub raw_os_error: Option<i32>,
    pub message: String,
}

/// Whether an error says that the address is in use, by its kind, its number or
/// its text.
pub open spec fn addr_in_use(err: BindError) -> bool {
    ||| err.kind is AddrInUse
    ||| err.raw_os_error == Some(WSAEADDRINUSE)
    ||| text::has_substring(err.message@, "10048"@)
    ||| text::has_substring(err.message@, "address already in use"@)
    ||| text::has_substring(err.message@, "Only one usage of each socket address"@)
}

/// Whether an error says that the address is in use.
#[must_use]
pub fn is_addr_in_use(err: &BindError) -> (r: bool)
    ensures
        r == addr_in_use(*err),
{
    if matches!(err.kind, BindErrorKind::AddrInUse) {
        return true;
    }
    if let Some(code) = err.raw_os_error {
        if code == WSAEADDRINUSE {
            return true;
        }
    }
    let message = err.message.as_str();
    text::contains_text(message, "10048") || text::contains_text(message, "address already in use")
        || text::contains_text(message, "Only one usage of each socket address")
}

// ---------------------------------------------------------------------------
// Binding
// ---------------------------------------------------------------------------

/// Where the attempt to bind stands.
#[verifier::ext_equal]
pub enum PhaseModel {
    /// The preferred port is being tried.
    Preferred,
    /// It is in use; is its listener a ghost?
    GhostCheck { error: Seq<char> },
    /// The user is being asked.
    Asking,
    /// The other instance is being ended.
    Killing,
    /// The preferred port is being tried for a while.
    Polling,
    /// It is still in use; is its listener a ghost?
    GhostRecheck,
    /// A later port is being tried.
    Fallback { port: u32 },
    /// Any port is being tried.
    Ephemeral,
    /// The attempt is over.
    Over,
}

/// The attempt to bind.
#[verifier::ext_equal]
pub struct BindModel {
    pub preferred: u32,
    pub kill_rounds: u32,
    pub saw_ghost: bool,
    pub last_detail: Seq<char>,
    pub phase: PhaseModel,
}

/// What came of the last action.
#[verifier::ext_equal]
pub enum EventModel {
    Bound,
    Failed { in_use: bool, message: Seq<char> },
    GhostFound(bool),
    Answer(bool),
    Report(Seq<char>),
    Polled(bool),
    EphemeralBound(u32),
}

/// What to do next.
#[verifier::ext_equal]
pub enum ActionModel {
    /// Bind a port of the local machine.
    TryPort(u32),
    /// Find out whether the listener on the preferred port is a ghost.
    CheckGhost,
    /// Ask whether to end the other instance.
    Ask { prompt: Seq<char> },
    /// End the other instance and report what was done.
    Kill,
    /// Try the preferred port for a while.
    Poll,
    /// Bind any free port.
    TryEphemeral,
    /// The port is bound.
    Finish { port: u32, kill_rounds: u32 },
    /// Give up.
    Fail { message: Seq<char> },
}

/// The last port that is tried before any free one.
pub open spec fn last_fallback(preferred: u32) -> int {
    if preferred + FALLBACK_PORT_SPAN > u32::MAX {
        u32::MAX as int
    } else {
        preferred + FALLBACK_PORT_SPAN
    }
}

/// The first port that is tried after the preferred one.
pub open spec fn first_fallback(preferred: u32) -> int {
    if preferred == u32::MAX {
        u32::MAX as int
    } else {
        preferred + 1
    }
}

impl BindModel {
    /// The user is asked at most [`MAX_KILL_RETRY_ROUNDS`] times, and only the
    /// next ports are tried.
    pub open spec fn wf(self) -> bool {
        &&& self.kill_rounds <= MAX_KILL_RETRY_ROUNDS
        &&& self.phase is Asking ==> self.kill_rounds < MAX_KILL_RETRY_ROUNDS
        &&& self.phase matches PhaseModel::Fallback { port } ==> first_fallback(self.preferred)
            <= port <= last_fallback(self.preferred)
    }
}

/// What the question adds about a ghost or about the last attempt.
pub open spec fn hint(ghost: bool, last_detail: Seq<char>) -> Seq<char> {
    if ghost {
        "\n\nDetected a GHOST listen socket (netstat PID is not a live process). Kill cannot free it — after this attempt GlazeWM will bind an alternate port."@
    } else if last_detail.len() == 0 {
        ""@
    } else {
        "\n\nPrevious attempt notes:\n"@ + last_detail
    }
}

/// The question whether to end the other instance.
pub open spec fn prompt(preferred: u32, error: Seq<char>, hint: Seq<char>) -> Seq<char> {
    "GlazeWM could not bind the IPC socket on 127.0.0.1:"@ + text::decimal(preferred as nat)
        + ".\n\n"@ + error
        + "\n\nAnother GlazeWM instance may still be running, or a ghost socket may still own this port."@
        + hint
        + "\n\nYes — Kill existing GlazeWM / watcher processes and retry\nNo — Quit (do not start this instance)"@
}

/// The error where the user quits.
pub open spec fn quit_message(preferred: u32) -> Seq<char> {
    "IPC port "@ + text::decimal(preferred as nat)
        + " in use; user chose Quit (abort this instance)"@
}

/// The error where the port cannot be bound for another reason.
pub open spec fn bind_failed_message(preferred: u32) -> Seq<char> {
    "Failed to bind IPC listener on 127.0.0.1:"@ + text::decimal(preferred as nat)
}

pub open spec fn bool_text(b: bool) -> Seq<char> {
    if b {
        "true"@
    } else {
        "false"@
    }
}

/// The error where not even a free port could be bound.
pub open spec fn no_port_message(s: BindModel, error: Seq<char>) -> Seq<char> {
    "IPC port "@ + text::decimal(s.preferred as nat) + " still in use (ghost="@ + bool_text(
        s.saw_ghost,
    ) + ") and all fallbacks failed. Last error: "@ + error + ". "@ + s.last_detail
        + " Set GLAZEWM_IPC_PORT to a free port, or reboot to clear a ghost socket."@
}

/// Gives up the preferred port.
pub open spec fn fall_back(s: BindModel) -> (BindModel, ActionModel) {
    let port = first_fallback(s.preferred) as u32;
    (BindModel { phase: PhaseModel::Fallback { port }, ..s }, ActionModel::TryPort(port))
}

/// The step that an event leads to; `None` where the event does not answer the
/// last action.
pub open spec fn next(s: BindModel, event: EventModel) -> Option<(BindModel, ActionModel)> {
    match (s.phase, event) {
        (PhaseModel::Preferred, EventModel::Bound) => Some(
            (
                BindModel { phase: PhaseModel::Over, ..s },
                ActionModel::Finish { port: s.preferred, kill_rounds: s.kill_rounds },
            ),
        ),
        (PhaseModel::Preferred, EventModel::Failed { in_use, message }) => if in_use {
            Some(
                (
                    BindModel { phase: PhaseModel::GhostCheck { error: message }, ..s },
                    ActionModel::CheckGhost,
                ),
            )
        } else {
            Some(
                (
                    BindModel { phase: PhaseModel::Over, ..s },
                    ActionModel::Fail { message: bind_failed_message(s.preferred) },
                ),
            )
        },
        (PhaseModel::GhostCheck { error }, EventModel::GhostFound(ghost)) => {
            let seen = BindModel { saw_ghost: s.saw_ghost || ghost, ..s };
            // A ghost cannot be ended, so one attempt is enough to know.
            if (ghost && s.kill_rounds >= 1) || s.kill_rounds >= MAX_KILL_RETRY_ROUNDS {
                Some(fall_back(seen))
            } else {
                Some(
                    (
                        BindModel { phase: PhaseModel::Asking, ..seen },
                        ActionModel::Ask {
                            prompt: prompt(s.preferred, error, hint(ghost, s.last_detail)),
                        },
                    ),
                )
            }
        },
        (PhaseModel::Asking, EventModel::Answer(kill)) => if kill {
            Some(
                (
                    BindModel {
                        kill_rounds: (s.kill_rounds + 1) as u32,
                        phase: PhaseModel::Killing,
                        ..s
                    },
                    ActionModel::Kill,
                ),
            )
        } else {
            Some(
                (
                    BindModel { phase: PhaseModel::Over, ..s },
                    ActionModel::Fail { message: quit_message(s.preferred) },
                ),
            )
        },
        (PhaseModel::Killing, EventModel::Report(report)) => Some(
            (
                BindModel { last_detail: report, phase: PhaseModel::Polling, ..s },
                ActionModel::Poll,
            ),
        ),
        (PhaseModel::Polling, EventModel::Polled(bound)) => if bound {
            Some(
                (
                    BindModel { phase: PhaseModel::Over, ..s },
                    ActionModel::Finish { port: s.preferred, kill_rounds: s.kill_rounds },
                ),
            )
        } else {
            Some((BindModel { phase: PhaseModel::GhostRecheck, ..s }, ActionModel::CheckGhost))
        },
        (PhaseModel::GhostRecheck, EventModel::GhostFound(ghost)) => if ghost {
            Some(fall_back(BindModel { saw_ghost: true, ..s }))
        } else {
            Some(
                (
                    BindModel { phase: PhaseModel::Preferred, ..s },
                    ActionModel::TryPort(s.preferred),
                ),
            )
        },
        (PhaseModel::Fallback { port }, EventModel::Bound) => Some(
            (
                BindModel { phase: PhaseModel::Over, ..s },
                ActionModel::Finish { port, kill_rounds: 0 },
            ),
        ),
        (PhaseModel::Fallback { port }, EventModel::Failed { .. }) => if port < last_fallback(
            s.preferred,
        ) {
            let later = (port + 1) as u32;
            Some(
                (
                    BindModel { phase: PhaseModel::Fallback { port: later }, ..s },
                    ActionModel::TryPort(later),
                ),
            )
        } else {
            Some((BindModel { phase: PhaseModel::Ephemeral, ..s }, ActionModel::TryEphemeral))
        },
        (PhaseModel::Ephemeral, EventModel::EphemeralBound(port)) => Some(
            (
                BindModel { phase: PhaseModel::Over, ..s },
                ActionModel::Finish { port, kill_rounds: 0 },
            ),
        ),
        (PhaseModel::Ephemeral, EventModel::Failed { message, .. }) => Some(
            (
                BindModel { phase: PhaseModel::Over, ..s },
                ActionModel::Fail { message: no_port_message(s, message) },
            ),
        ),
        _ => None,
    }
}

#[derive(Debug, PartialEq, Eq)]
enum BindPhase {
    Preferred,
    GhostCheck { error: String },
    Asking,
    Killing,
    Polling,
    GhostRecheck,
    Fallback { port: u32 },
    Ephemeral,
    Over,
}

/// The attempt to bind the IPC port.
#[derive(Debug, PartialEq, Eq)]
pub struct IpcBind {
    preferred: u32,
    kill_rounds: u32,
    saw_ghost: bool,
    last_detail: String,
    phase: BindPhase,
}

/// What came of the last action.
#[derive(Debug, PartialEq, Eq)]
pub enum BindEvent {
    Bound,
    Failed(BindError),
    GhostFound(bool),
    Answer(bool),
    Report(String),
    Polled(bool),
    EphemeralBound(u32),
}

/// What to do next.
#[derive(Debug, PartialEq, Eq)]
pub enum BindAction {
    TryPort(u32),
    CheckGhost,
    Ask { prompt: String },
    Kill,
    Poll,
    TryEphemeral,
    Finish { port: u32, kill_rounds: u32 },
    Fail { message: String },
}

impl View for BindEvent {
    type V = EventModel;

    open spec fn view(&self) -> EventModel {
        match *self {
            BindEvent::Bound => EventModel::Bound,
            BindEvent::Failed(err) => EventModel::Failed {
                in_use: addr_in_use(err),
                message: err.message@,
            },
            BindEvent::GhostFound(ghost) => EventModel::GhostFound(ghost),
            BindEvent::Answer(kill) => EventModel::Answer(kill),
            BindEvent::Report(report) => EventModel::Report(report@),
            BindEvent::Polled(bound) => EventModel::Polled(bound),
            BindEvent::EphemeralBound(port) => EventModel::EphemeralBound(port),
        }
    }
}

impl View for BindAction {
    type V = ActionModel;

    open spec fn view(&self) -> ActionModel {
        match *self {
            BindAction::TryPort(port) => ActionModel::TryPort(port),
            BindAction::CheckGhost => ActionModel::CheckGhost,
            BindAction::Ask { prompt } => ActionModel::Ask { prompt: prompt@ },
            BindAction::Kill => ActionModel::Kill,
            BindAction::Poll => ActionModel::Poll,
            BindAction::TryEphemeral => ActionModel::TryEphemeral,
            BindAction::Finish { port, kill_rounds } => ActionModel::Finish { port, kill_rounds },
            BindAction::Fail { message } => ActionModel::Fail { message: message@ },
        }
    }
}

impl View for IpcBind {
    type V = BindModel;

    closed spec fn view(&self) -> BindModel {
        BindModel {
            preferred: self.preferred,
            kill_rounds: self.kill_rounds,
            saw_ghost: self.saw_ghost,
            last_detail: self.last_detail@,
            phase: match self.phase {
                BindPhase::Preferred => PhaseModel::Preferred,
                BindPhase::GhostCheck { error } => PhaseModel::GhostCheck { error: error@ },
                BindPhase::Asking => PhaseModel::Asking,
                BindPhase::Killing => PhaseModel::Killing,
                BindPhase::Polling => PhaseModel::Polling,
                BindPhase::GhostRecheck => PhaseModel::GhostRecheck,
                BindPhase::Fallback { port } => PhaseModel::Fallback { port },
                BindPhase::Ephemeral => PhaseModel::Ephemeral,
                BindPhase::Over => PhaseModel::Over,
            },
        }
    }
}

fn prompt_text(preferred: u32, error: &str, ghost: bool, last_detail: &str) -> (r: String)
    ensures
        r@ == prompt(preferred, error@, hint(ghost, last_detail@)),
{
    let mut out = "GlazeWM could not bind the IPC socket on 127.0.0.1:".to_owned();
    text::push_decimal(&mut out, preferred as u64);
    out.append(".\n\n");
    out.append(error);
    out.append(
        "\n\nAnother GlazeWM instance may still be running, or a ghost socket may still own this port.",
    );
    let mut extra = "".to_owned();
    if ghost {
        extra =
        "\n\nDetected a GHOST listen socket (netstat PID is not a live process). Kill cannot free it — after this attempt GlazeWM will bind an alternate port.".to_owned();
    } else if !last_detail.is_empty() {
        extra = "\n\nPrevious attempt notes:\n".to_owned();
        extra.append(last_detail);
    }
    out.append(extra.as_str());
    out.append(
        "\n\nYes — Kill existing GlazeWM / watcher processes and retry\nNo — Quit (do not start this instance)",
    );
    out
}

impl IpcBind {
    /// Begins with the preferred port.
    pub fn new(preferred: u32) -> (r: (IpcBind, BindAction))
        ensures
            r.0@.wf(),
            r.0@.preferred == preferred,
            r.0@.kill_rounds == 0,
            !r.0@.saw_ghost,
            r.0@.last_detail.len() == 0,
            r.0@.phase is Preferred,
            r.1@ == ActionModel::TryPort(preferred),
    {
        let state = IpcBind {
            preferred,
            kill_rounds: 0,
            saw_ghost: false,
            last_detail: String::new(),
            phase: BindPhase::Preferred,
        };
        (state, BindAction::TryPort(preferred))
    }

    fn fall_back(&mut self) -> (action: BindAction)
        requires
            old(self)@.wf(),
        ensures
            (final(self)@, action@) == fall_back(old(self)@),
            final(self)@.wf(),
    {
        let port: u32 = if self.preferred == u32::MAX {
            u32::MAX
        } else {
            self.preferred + 1
        };
        self.phase = BindPhase::Fallback { port };
        BindAction::TryPort(port)
    }

    /// Takes in what came of the last action and says what to do next. An event
    /// that does not answer the last action changes nothing.
    pub fn bind_ipc_listener(&mut self, event: BindEvent) -> (r: Option<BindAction>)
        requires
            old(self)@.wf(),
        ensures
            final(self)@.wf(),
            match (r, next(old(self)@, event@)) {
                (Some(action), Some(step)) => final(self)@ == step.0 && action@ == step.1,
                (None, None) => final(self)@ == old(self)@,
                _ => false,
            },
    {
        let preferred: u32 = self.preferred;
        match (&self.phase, event) {
            (BindPhase::Preferred, BindEvent::Bound) => {
                self.phase = BindPhase::Over;
                Some(BindAction::Finish { port: preferred, kill_rounds: self.kill_rounds })
            },
            (BindPhase::Preferred, BindEvent::Failed(err)) => {
                if is_addr_in_use(&err) {
                    self.phase = BindPhase::GhostCheck { error: err.message };
                    Some(BindAction::CheckGhost)
                } else {
                    self.phase = BindPhase::Over;
                    let mut message = "Failed to bind IPC listener on 127.0.0.1:".to_owned();
                    text::push_decimal(&mut message, preferred as u64);
                    Some(BindAction::Fail { message })
                }
            },
            (BindPhase::GhostCheck { error }, BindEvent::GhostFound(ghost)) => {
                if (ghost && self.kill_rounds >= 1) || self.kill_rounds >= MAX_KILL_RETRY_ROUNDS {
                    self.saw_ghost = self.saw_ghost || ghost;
                    Some(self.fall_back())
                } else {
                    let prompt = prompt_text(
                        preferred,
                        error.as_str(),
                        ghost,
                        self.last_detail.as_str(),
                    );
                    self.saw_ghost = self.saw_ghost || ghost;
                    self.phase = BindPhase::Asking;
                    Some(BindAction::Ask { prompt })
                }
            },
            (BindPhase::Asking, BindEvent::Answer(kill)) => {
                if kill {
                    self.kill_rounds = self.kill_rounds + 1;
                    self.phase = BindPhase::Killing;
                    Some(BindAction::Kill)
                } else {
                    self.phase = BindPhase::Over;
                    let mut message = "IPC port ".to_owned();
                    text::push_decimal(&mut message, preferred as u64);
                    message.append(" in use; user chose Quit (abort this instance)");
                    Some(BindAction::Fail { message })
                }
            },
            (BindPhase::Killing, BindEvent::Report(report)) => {
                self.last_detail = report;
                self.phase = BindPhase::Polling;
                Some(BindAction::Poll)
            },
            (BindPhase::Polling, BindEvent::Polled(bound)) => {
                if bound {
                    self.phase = BindPhase::Over;
                    Some(BindAction::Finish { port: preferred, kill_rounds: self.kill_rounds })
                } else {
                    self.phase = BindPhase::GhostRecheck;
                    Some(BindAction::CheckGhost)
                }
            },
            (BindPhase::GhostRecheck, BindEvent::GhostFound(ghost)) => {
                if ghost {
                    self.saw_ghost = true;
                    Some(self.fall_back())
                } else {
                    self.phase = BindPhase::Preferred;
                    Some(BindAction::TryPort(preferred))
                }
            },
            (BindPhase::Fallback { port }, BindEvent::Bound) => {
                let bound: u32 = *port;
                self.phase = BindPhase::Over;
                Some(BindAction::Finish { port: bound, kill_rounds: 0 })
            },
            (BindPhase::Fallback { port }, BindEvent::Failed(_)) => {
                let tried: u32 = *port;
                let end: u32 = if preferred > u32::MAX - FALLBACK_PORT_SPAN {
                    u32::MAX
                } else {
                    preferred + FALLBACK_PORT_SPAN
                };
                if tried < end {
                    let later: u32 = tried + 1;
                    self.phase = BindPhase::Fallback { port: later };
                    Some(BindAction::TryPort(later))
                } else {
                    self.phase = BindPhase::Ephemeral;
                    Some(BindAction::TryEphemeral)
                }
            },
            (BindPhase::Ephemeral, BindEvent::EphemeralBound(port)) => {
                self.phase = BindPhase::Over;
                Some(BindAction::Finish { port, kill_rounds: 0 })
            },
            (BindPhase::Ephemeral, BindEvent::Failed(err)) => {
                let mut message = "IPC port ".to_owned();
                text::push_decimal(&mut message, preferred as u64);
                message.append(" still in use (ghost=");
                message.append(
                    if self.saw_ghost {
                        "true"
                    } else {
                        "false"
                    },
                );
                message.append(") and all fallbacks failed. Last error: ");
                message.append(err.message.as_str());
                message.append(". ");
                message.append(self.last_detail.as_str());
                message.append(
                    " Set GLAZEWM_IPC_PORT to a free port, or reboot to clear a ghost socket.",
                );
                self.phase = BindPhase::Over;
                Some(BindAction::Fail { message })
            },
            _ => None,
        }
    }
}

// ---------------------------------------------------------------------------
// A bound port
// ---------------------------------------------------------------------------

/// What happens to the port file.
#[derive(Clone, Copy, Debug, PartialEq, Eq, Structural)]
pub enum PortFileStep {
    /// The default port needs no file.
    Clear,
    /// The file is to name the bound port.
    Write,
}

/// What follows a successful bind.
#[derive(Debug, PartialEq, Eq)]
pub struct FinishedBind {
    /// The address that is listened on.
    pub address: String,
    pub port_file: PortFileStep,
    /// The debug message, if the bind took more than one attempt.
    pub message: Option<String>,
}

/// The address of a port of the local machine.
pub open spec fn local_address(port: u32) -> Seq<char> {
    "127.0.0.1:"@ + text::decimal(port as nat)
}

/// The address of a port of the local machine.
pub fn local_address_text(port: u32) -> (r: String)
    ensures
        r@ == local_address(port),
{
    let mut out = "127.0.0.1:".to_owned();
    text::push_decimal(&mut out, port as u64);
    out
}

/// Settles a bind: clients find the default port by themselves and any other
/// port in the port file.
pub fn finish_bind(bound_port: u32, preferred: u32, kill_rounds: u32) -> (r: FinishedBind)
    ensures
        r.address@ == local_address(bound_port),
        r.port_file == if bound_port == ipc::DEFAULT_IPC_PORT {
            PortFileStep::Clear
        } else {
            PortFileStep::Write
        },
        text::opt_view(r.message) == if kill_rounds > 0 || bound_port != preferred {
            Some(
                "IPC bind succeeded on "@ + local_address(bound_port) + " (preferred="@
                    + text::decimal(preferred as nat) + ", kill_rounds="@ + text::decimal(
                    kill_rounds as nat,
                ) + ")"@,
            )
        } else {
            None
        },
{
    let address = local_address_text(bound_port);
    let port_file = if bound_port == ipc::DEFAULT_IPC_PORT {
        PortFileStep::Clear
    } else {
        PortFileStep::Write
    };
    let message = if kill_rounds > 0 || bound_port != preferred {
        let mut out = "IPC bind succeeded on ".to_owned();
        out.append(address.as_str());
        out.append(" (preferred=");
        text::push_decimal(&mut out, preferred as u64);
        out.append(", kill_rounds=");
        text::push_decimal(&mut out, kill_rounds as u64);
        out.append(")");
        Some(out)
    } else {
        None
    };
    FinishedBind { address, port_file, message }
}

// ---------------------------------------------------------------------------
// Ending the other instance
// ---------------------------------------------------------------------------

/// The image names of the processes to end. The watcher comes first, because it
/// may start the manager again.
pub fn images_to_kill() -> (r: Vec<String>)
    ensures
        text::views(r@) == seq!["glazewm-watcher.exe"@, "glazewm.exe"@],
{
    let mut out: Vec<String> = Vec::new();
    out.push("glazewm-watcher.exe".to_owned());
    out.push("glazewm.exe".to_owned());
    assert(text::views(out@) =~= seq!["glazewm-watcher.exe"@, "glazewm.exe"@]);
    out
}

/// What came of ending a process.
#[derive(Debug, PartialEq, Eq)]
pub enum KillOutcome {
    Killed,
    Gone,
    Failed { error: String },
}

/// The processes of one image other than this one, and what came of ending
/// each; or why they could not be listed.
#[derive(Debug, PartialEq, Eq)]
pub struct ImageKills {
    pub name: String,
    pub kills: Result<Vec<(u32, KillOutcome)>, String>,
}

/// The processes other than this one.
pub fn other_pids(pids: &[u32], self_pid: u32) -> (r: Vec<u32>)
    ensures
        r@ == pids@.filter(|p: u32| p != self_pid),
{
    let ghost other = |p: u32| p != self_pid;
    let mut out: Vec<u32> = Vec::new();
    let mut i: usize = 0;
    proof {
        reveal(Seq::filter);
        assert(pids@.take(0).filter(other) =~= Seq::<u32>::empty());
    }
    while i < pids.len()
        invariant
            i <= pids@.len(),
            other == (|p: u32| p != self_pid),
            out@ == pids@.take(i as int).filter(other),
        decreases pids@.len() - i,
    {
        proof {
            reveal(Seq::filter);
            assert(pids@.take(i + 1).drop_last() =~= pids@.take(i as int));
            assert(pids@.take(i + 1).last() == pids@[i as int]);
        }
        if pids[i] != self_pid {
            out.push(pids[i]);
        }
        i = i + 1;
    }
    assert(pids@.take(i as int) =~= pids@);
    out
}

/// The note on a process that was to be ended because of its name.
pub open spec fn named_kill_note(name: Seq<char>, pid: u32, outcome: KillOutcome) -> Seq<char> {
    match outcome {
        KillOutcome::Killed => "killed "@ + name + " PID "@ + text::decimal(pid as nat),
        KillOutcome::Gone => name + " PID "@ + text::decimal(pid as nat)
            + " already gone / unkillable"@,
        KillOutcome::Failed { error } => "failed killing "@ + name + " PID "@ + text::decimal(
            pid as nat,
        ) + ": "@ + error@,
    }
}

/// The notes on the processes of one image.
pub open spec fn image_notes(image: ImageKills) -> Seq<Seq<char>> {
    match image.kills {
        Err(error) => seq!["tasklist for "@ + image.name@ + " failed: "@ + error@],
        Ok(kills) => if kills@.len() == 0 {
            seq![image.name@ + ": none other than self"@]
        } else {
            kills@.map_values(|k: (u32, KillOutcome)| named_kill_note(image.name@, k.0, k.1))
        },
    }
}

/// The notes on the processes of some images, in order.
pub open spec fn images_notes(images: Seq<ImageKills>) -> Seq<Seq<char>>
    decreases images.len(),
{
    if images.len() == 0 {
        Seq::empty()
    } else {
        images_notes(images.drop_last()) + image_notes(images.last())
    }
}

fn named_note(name: &str, pid: u32, outcome: &KillOutcome) -> (r: String)
    ensures
        r@ == named_kill_note(name@, pid, *outcome),
{
    match outcome {
        KillOutcome::Killed => {
            let mut out = "killed ".to_owned();
            out.append(name);
            out.append(" PID ");
            text::push_decimal(&mut out, pid as u64);
            out
        },
        KillOutcome::Gone => {
            let mut out = name.to_owned();
            out.append(" PID ");
            text::push_decimal(&mut out, pid as u64);
            out.append(" already gone / unkillable");
            out
        },
        KillOutcome::Failed { error } => {
            let mut out = "failed killing ".to_owned();
            out.append(name);
            out.append(" PID ");
            text::push_decimal(&mut out, pid as u64);
            out.append(": ");
            out.append(error.as_str());
            out
        },
    }
}

fn push_note(notes: &mut Vec<String>, note: String)
    ensures
        text::views(final(notes)@) == text::views(old(notes)@).push(note@),
{
    notes.push(note);
    assert(text::views(notes@) =~= text::views(old(notes)@).push(note@));
}

fn push_image_notes(notes: &mut Vec<String>, image: &ImageKills)
    ensures
        text::views(final(notes)@) == text::views(old(notes)@) + image_notes(*image),
{
    let ghost before = text::views(notes@);
    match &image.kills {
        Err(error) => {
            let mut out = "tasklist for ".to_owned();
            out.append(image.name.as_str());
            out.append(" failed: ");
            out.append(error.as_str());
            push_note(notes, out);
            assert(text::views(notes@) =~= before + image_notes(*image));
        },
        Ok(kills) => {
            if kills.len() == 0 {
                let mut out = image.name.clone();
                out.append(": none other than self");
                push_note(notes, out);
                assert(text::views(notes@) =~= before + image_notes(*image));
                return;
            }
            let ghost all = kills@.map_values(
                |k: (u32, KillOutcome)| named_kill_note(image.name@, k.0, k.1),
            );
            let mut i: usize = 0;
            assert(text::views(notes@) =~= before + all.take(0));
            while i < kills.len()
                invariant
                    i <= kills@.len(),
                    all == kills@.map_values(
                        |k: (u32, KillOutcome)| named_kill_note(image.name@, k.0, k.1),
                    ),
                    text::views(notes@) == before + all.take(i as int),
                decreases kills@.len() - i,
            {
                let note = named_note(image.name.as_str(), kills[i].0, &kills[i].1);
                push_note(notes, note);
                assert(text::views(notes@) =~= before + all.take(i + 1));
                i = i + 1;
            }
            assert(all.take(i as int) =~= all);
        },
    }
}

/// The report on the processes that were to be ended because of their names.
pub fn kill_named_others(images: &[ImageKills]) -> (r: String)
    ensures
        r@ == text::join(images_notes(images@), "; "@),
{
    let mut notes: Vec<String> = Vec::new();
    let mut i: usize = 0;
    assert(text::views(notes@) =~= images_notes(images@.take(0)));
    while i < images.len()
        invariant
            i <= images@.len(),
            text::views(notes@) == images_notes(images@.take(i as int)),
        decreases images@.len() - i,
    {
        assert(images@.take(i + 1).drop_last() =~= images@.take(i as int));
        push_image_notes(&mut notes, &images[i]);
        i = i + 1;
    }
    assert(images@.take(i as int) =~= images@);
    text::join_text(&notes, "; ")
}

/// The report on the watcher, which is ended when the manager exits.
pub fn kill_watcher_on_exit(watcher: &ImageKills) -> (r: String)
    ensures
        r@ == text::join(image_notes(*watcher), "; "@),
{
    let mut notes: Vec<String> = Vec::new();
    push_image_notes(&mut notes, watcher);
    assert(text::views(notes@) =~= image_notes(*watcher));
    text::join_text(&notes, "; ")
}

/// What is done about a process that listens on the port.
#[derive(Clone, Copy, Debug, PartialEq, Eq, Structural)]
pub enum ListenerAction {
    /// It is this process.
    SkipSelf,
    /// It is gone; there is nothing to end.
    SkipGhost,
    Kill,
}

/// Decides about a process that listens on the port.
pub fn listener_action(pid: u32, self_pid: u32, alive: bool) -> (r: ListenerAction)
    ensures
        r == if pid == self_pid {
            ListenerAction::SkipSelf
        } else if !alive {
            ListenerAction::SkipGhost
        } else {
            ListenerAction::Kill
        },
{
    if pid == self_pid {
        ListenerAction::SkipSelf
    } else if !alive {
        ListenerAction::SkipGhost
    } else {
        ListenerAction::Kill
    }
}

/// What became of a process that listens on the port.
#[derive(Debug, PartialEq, Eq)]
pub enum ListenerFate {
    ThisProcess,
    GhostSocket,
    Killed,
    NotFound,
    Failed { error: String },
}

/// The note on a process that listens on the port.
pub open spec fn listener_note(pid: u32, port: u32, fate: ListenerFate) -> Seq<char> {
    let process = text::decimal(pid as nat);
    let place = " on port "@ + text::decimal(port as nat);
    match fate {
        ListenerFate::ThisProcess => "netstat listener PID "@ + process
            + " is this process; skipped"@,
        ListenerFate::GhostSocket => "GHOST IPC listener PID "@ + process + place
            + " (not in tasklist) — cannot taskkill"@,
        ListenerFate::Killed => "killed IPC listener PID "@ + process + place,
        ListenerFate::NotFound => "IPC listener PID "@ + process + place
            + " not found after kill attempt"@,
        ListenerFate::Failed { error } => "failed to kill IPC listener PID "@ + process + place
            + ": "@ + error@,
    }
}

/// The notes on the processes that listen on the port.
pub open spec fn listener_notes(
    port: u32,
    listeners: Result<Vec<(u32, ListenerFate)>, String>,
) -> Seq<Seq<char>> {
    match listeners {
        Err(error) => seq!["netstat lookup failed: "@ + error@],
        Ok(list) => if list@.len() == 0 {
            seq![
                "netstat: no LISTENING PID found on 127.0.0.1:"@ + text::decimal(port as nat),
            ]
        } else {
            list@.map_values(|l: (u32, ListenerFate)| listener_note(l.0, port, l.1))
        },
    }
}

fn place_text(port: u32) -> (r: String)
    ensures
        r@ == " on port "@ + text::decimal(port as nat),
{
    let mut out = " on port ".to_owned();
    text::push_decimal(&mut out, port as u64);
    out
}

fn listener_note_text(pid: u32, port: u32, fate: &ListenerFate) -> (r: String)
    ensures
        r@ == listener_note(pid, port, *fate),
{
    let process = text::decimal_string(pid as u64);
    let place = place_text(port);
    match fate {
        ListenerFate::ThisProcess => {
            let mut out = "netstat listener PID ".to_owned();
            out.append(process.as_str());
            out.append(" is this process; skipped");
            out
        },
        ListenerFate::GhostSocket => {
            let mut out = "GHOST IPC listener PID ".to_owned();
            out.append(process.as_str());
            out.append(place.as_str());
            out.append(" (not in tasklist) — cannot taskkill");
            out
        },
        ListenerFate::Killed => {
            let mut out = "killed IPC listener PID ".to_owned();
            out.append(process.as_str());
            out.append(place.as_str());
            out
        },
        ListenerFate::NotFound => {
            let mut out = "IPC listener PID ".to_owned();
            out.append(process.as_str());
            out.append(place.as_str());
            out.append(" not found after kill attempt");
            out
        },
        ListenerFate::Failed { error } => {
            let mut out = "failed to kill IPC listener PID ".to_owned();
            out.append(process.as_str());
            out.append(place.as_str());
            out.append(": ");
            out.append(error.as_str());
            out
        },
    }
}

/// The report on an attempt to free the port: what became of the processes with
/// the names of the manager, then what became of those that listen on the port.
pub fn kill_existing_glazewm_and_free_port(
    port: u32,
    named: &[ImageKills],
    listeners: &Result<Vec<(u32, ListenerFate)>, String>,
) -> (r: String)
    ensures
        r@ == text::join(
            seq![text::join(images_notes(named@), "; "@)] + listener_notes(port, *listeners),
            "; "@,
        ),
{
    let mut notes: Vec<String> = Vec::new();
    push_note(&mut notes, kill_named_others(named));
    let ghost first = text::views(notes@);
    assert(first =~= seq![text::join(images_notes(named@), "; "@)]);
    match listeners {
        Err(error) => {
            let mut out = "netstat lookup failed: ".to_owned();
            out.append(error.as_str());
            push_note(&mut notes, out);
            assert(text::views(notes@) =~= first + listener_notes(port, *listeners));
        },
        Ok(list) => {
            if list.len() == 0 {
                let mut out = "netstat: no LISTENING PID found on 127.0.0.1:".to_owned();
                text::push_decimal(&mut out, port as u64);
                push_note(&mut notes, out);
                assert(text::views(notes@) =~= first + listener_notes(port, *listeners));
            } else {
                let ghost all = list@.map_values(
                    |l: (u32, ListenerFate)| listener_note(l.0, port, l.1),
                );
                let mut i: usize = 0;
                assert(text::views(notes@) =~= first + all.take(0));
                while i < list.len()
                    invariant
                        i <= list@.len(),
                        all == list@.map_values(
                            |l: (u32, ListenerFate)| listener_note(l.0, port, l.1),
                        ),
                        text::views(notes@) == first + all.take(i as int),
                    decreases list@.len() - i,
                {
                    let note = listener_note_text(list[i].0, port, &list[i].1);
                    push_note(&mut notes, note);
                    assert(text::views(notes@) =~= first + all.take(i + 1));
                    i = i + 1;
                }
                assert(all.take(i as int) =~= all);
            }
        },
    }
    text::join_text(&notes, "; ")
}

// ---------------------------------------------------------------------------
// Laws
// ---------------------------------------------------------------------------

/// How far an attempt is from its end, at most.
pub open spec fn steps_left(s: BindModel) -> int {
    let rounds = (MAX_KILL_RETRY_ROUNDS - s.kill_rounds) * 10;
    match s.phase {
        PhaseModel::Killing => 100 + rounds + 9,
        PhaseModel::Polling => 100 + rounds + 8,
        PhaseModel::GhostRecheck => 100 + rounds + 7,
        PhaseModel::Preferred => 100 + rounds + 6,
        PhaseModel::GhostCheck { .. } => 100 + rounds + 5,
        PhaseModel::Asking => 100 + rounds + 4,
        PhaseModel::Fallback { port } => 20 - (port - s.preferred),
        PhaseModel::Ephemeral => 5,
        PhaseModel::Over => 0,
    }
}

/// Every attempt ends: each step brings it nearer to its end, and no step
/// follows the end.
pub proof fn law_bind_ends(s: BindModel, event: EventModel)
    requires
        s.wf(),
        next(s, event) is Some,
    ensures
        ({
            let (after, _) = next(s, event)->0;
            after.wf() && 0 <= steps_left(after) < steps_left(s)
        }),
{
}

/// Nothing is ended unless the user was asked and agreed, and they are asked at
/// most [`MAX_KILL_RETRY_ROUNDS`] times.
pub proof fn law_nothing_is_killed_unasked(s: BindModel, event: EventModel)
    requires
        s.wf(),
        next(s, event) is Some,
        ({
            let (_, action) = next(s, event)->0;
            action is Kill
        }),
    ensures
        s.phase is Asking,
        event == EventModel::Answer(true),
        s.kill_rounds < MAX_KILL_RETRY_ROUNDS,
        ({
            let (after, _) = next(s, event)->0;
            after.kill_rounds == s.kill_rounds + 1
        }),
{
}

/// Who declines ends the attempt.
pub proof fn law_declining_quits(s: BindModel)
    requires
        s.phase is Asking,
    ensures
        next(s, EventModel::Answer(false)) == Some(
            (
                BindModel { phase: PhaseModel::Over, ..s },
                ActionModel::Fail { message: quit_message(s.preferred) },
            ),
        ),
{
}

/// A port is bound only where it was tried: the preferred one, one of the next
/// ones, or the free one that the system gave.
pub proof fn law_bound_port_was_tried(s: BindModel, event: EventModel, port: u32, rounds: u32)
    requires
        s.wf(),
        next(s, event) is Some,
        ({
            let (_, action) = next(s, event)->0;
            action == (ActionModel::Finish { port, kill_rounds: rounds })
        }),
    ensures
        port == s.preferred || first_fallback(s.preferred) <= port <= last_fallback(s.preferred)
            || event == EventModel::EphemeralBound(port),
{
}

/// A bound port is found by clients: the default one without a port file, any
/// other one through it.
pub proof fn law_clients_find_bound_port(port: u32)
    requires
        port > 0,
    ensures
        port == ipc::DEFAULT_IPC_PORT ==> ipc::client_port(None, None) == port,
        port != ipc::DEFAULT_IPC_PORT ==> ipc::client_port(
            None,
            Some(ipc::port_file_contents(port)),
        ) == port,
{
    ipc::law_port_file_is_found(port);
}

/// The port that the server says it has is the one that it bound: when an attempt to
/// bind a port succeeds, the end names that port.
pub proof fn law_end_names_the_bound_port(s: BindModel, event: EventModel, port: u32)
    requires
        ({
            let step = next(s, event);
            step is Some && (step->0).1 == ActionModel::TryPort(port)
        }),
    ensures
        ({
            let (after, _) = next(s, event)->0;
            let last = next(after, EventModel::Bound);
            &&& last is Some
            &&& (last->0).1 is Finish
            &&& (last->0).1->Finish_port == port
            &&& s.wf() && port == s.preferred && port < u32::MAX ==> (last->0).1->Finish_kill_rounds
                == s.kill_rounds
        }),
{
}

/// Trying for a while is about the preferred port, and the system's free port is the
/// one that it gave.
pub proof fn law_other_ends_name_the_bound_port(s: BindModel, event: EventModel, given: u32)
    requires
        next(s, event) is Some,
    ensures
        ({
            let (after, action) = next(s, event)->0;
            let polled = next(after, EventModel::Polled(true));
            let free = next(after, EventModel::EphemeralBound(given));
            &&& action is Poll ==> polled is Some && (polled->0).1 is Finish && (polled->0)
                .1->Finish_port == s.preferred && (polled->0).1->Finish_kill_rounds
                == s.kill_rounds
            &&& action is TryEphemeral ==> free is Some && (free->0).1 is Finish && (free->0)
                .1->Finish_port == given
        }),
{
}

/// The preferred port stays what it was, and so does what was seen: rounds are
/// counted up and a ghost is not forgotten.
pub proof fn law_attempt_remembers(s: BindModel, event: EventModel)
    requires
        next(s, event) is Some,
        s.wf(),
    ensures
        ({
            let (after, action) = next(s, event)->0;
            &&& after.preferred == s.preferred
            &&& after.kill_rounds == s.kill_rounds + (if action is Kill {
                1int
            } else {
                0
            })
            &&& s.saw_ghost ==> after.saw_ghost
            &&& event == EventModel::GhostFound(true) ==> after.saw_ghost
            &&& after.saw_ghost && !s.saw_ghost ==> event == EventModel::GhostFound(true)
            &&& event matches EventModel::Report(report) ==> after.last_detail == report
            &&& event !is Report ==> after.last_detail == s.last_detail
        }),
{
}

/// After the preferred port the next ten are tried one after the other, and then any
/// free one: when an attempt at another port than the preferred one fails, the next
/// port follows, unless it was the last.
pub proof fn law_ports_are_tried_in_turn(
    s: BindModel,
    event: EventModel,
    port: u32,
    in_use: bool,
    message: Seq<char>,
)
    requires
        ({
            let step = next(s, event);
            step is Some && (step->0).1 == ActionModel::TryPort(port)
        }),
        s.wf(),
        port != s.preferred,
    ensures
        ({
            let (after, _) = next(s, event)->0;
            let step = next(after, EventModel::Failed { in_use, message });
            &&& step is Some
            &&& port < s.preferred + 10 && port < u32::MAX ==> (step->0).1
                == ActionModel::TryPort((port + 1) as u32)
            &&& port == s.preferred + 10 || port == u32::MAX ==> (step->0).1 is TryEphemeral
            &&& s.phase !is Fallback ==> port == s.preferred + 1
        }),
{
}

/// A preferred port that is in use leads to the question, once a listener was looked
/// for; only a ghost that one attempt could not end, or a second round, lead past it.
pub proof fn law_taken_port_leads_to_the_question(
    s: BindModel,
    event: EventModel,
    message: Seq<char>,
    ghost: bool,
)
    requires
        s.wf(),
        ({
            let step = next(s, event);
            step is Some && (step->0).1 == ActionModel::TryPort(s.preferred)
        }),
        s.preferred < u32::MAX,
    ensures
        ({
            let (tried, _) = next(s, event)->0;
            let taken = next(tried, EventModel::Failed { in_use: true, message });
            let other = next(tried, EventModel::Failed { in_use: false, message });
            &&& taken is Some && (taken->0).1 is CheckGhost
            &&& other is Some && (other->0).1 is Fail
            &&& ({
                let step = next((taken->0).0, EventModel::GhostFound(ghost));
                &&& step is Some
                &&& (step->0).1 is Ask <==> s.kill_rounds < 2 && !(ghost && s.kill_rounds
                    >= 1)
                &&& (step->0).1 !is Ask ==> (step->0).1 == ActionModel::TryPort(
                    (s.preferred + 1) as u32,
                )
            })
        }),
{
}

/// After the other instance was ended the port is tried for a while. If that fails, a
/// ghost leads to the next port, and anything else to another attempt at the same
/// one.
pub proof fn law_kill_is_followed_by_another_attempt(
    s: BindModel,
    event: EventModel,
    report: Seq<char>,
    ghost: bool,
)
    requires
        s.wf(),
        s.preferred < u32::MAX,
        ({
            let step = next(s, event);
            step is Some && (step->0).1 is Kill
        }),
    ensures
        ({
            let (killing, _) = next(s, event)->0;
            let reported = next(killing, EventModel::Report(report));
            let failed = next((reported->0).0, EventModel::Polled(false));
            let step = next((failed->0).0, EventModel::GhostFound(ghost));
            &&& reported is Some && (reported->0).1 is Poll
            &&& failed is Some && (failed->0).1 is CheckGhost
            &&& step is Some && (step->0).1 == ActionModel::TryPort(
                if ghost {
                    (s.preferred + 1) as u32
                } else {
                    s.preferred
                },
            )
        }),
{
}

proof fn lemma_part_occurs(before: Seq<char>, part: Seq<char>, after: Seq<char>)
    ensures
        text::has_substring(before + part + after, part),
{
    let whole = before + part + after;
    assert(whole.subrange(before.len() as int, (before.len() + part.len()) as int) =~= part);
    assert(text::occurs_at(whole, part, before.len() as int));
}

/// The question names the port and shows the error and the hint. The hint shows the notes
/// of the last attempt, unless the listener is a ghost.
pub proof fn law_question_shows_what_is_known(
    preferred: u32,
    error: Seq<char>,
    extra: Seq<char>,
    detail: Seq<char>,
)
    ensures
        text::has_substring(prompt(preferred, error, extra), text::decimal(preferred as nat)),
        text::has_substring(prompt(preferred, error, extra), error),
        text::has_substring(prompt(preferred, error, extra), extra),
        detail.len() > 0 ==> text::has_substring(hint(false, detail), detail),
        hint(false, Seq::empty()).len() == 0,
        hint(true, detail) == hint(true, Seq::empty()),
        hint(true, detail).len() > 0,
{
    reveal_strlit("");
    reveal_strlit(
        "\n\nDetected a GHOST listen socket (netstat PID is not a live process). Kill cannot free it — after this attempt GlazeWM will bind an alternate port.",
    );
    let a = "GlazeWM could not bind the IPC socket on 127.0.0.1:"@;
    let port = text::decimal(preferred as nat);
    let b = ".\n\n"@;
    let c =
        "\n\nAnother GlazeWM instance may still be running, or a ghost socket may still own this port."@;
    let d =
        "\n\nYes — Kill existing GlazeWM / watcher processes and retry\nNo — Quit (do not start this instance)"@;
    let whole = prompt(preferred, error, extra);
    lemma_part_occurs(a, port, b + error + c + extra + d);
    assert(whole =~= a + port + (b + error + c + extra + d));
    lemma_part_occurs(a + port + b, error, c + extra + d);
    assert(whole =~= (a + port + b) + error + (c + extra + d));
    lemma_part_occurs(a + port + b + error + c, extra, d);
    if detail.len() > 0 {
        let notes = "\n\nPrevious attempt notes:\n"@;
        lemma_part_occurs(notes, detail, Seq::empty());
        assert(hint(false, detail) =~= notes + detail + Seq::empty());
    }
}

/// The last error tells which port was wanted, whether a ghost was seen, what went wrong
/// in the end and what was tried.
pub proof fn law_last_error_shows_what_is_known(s: BindModel, error: Seq<char>)
    ensures
        text::has_substring(no_port_message(s, error), text::decimal(s.preferred as nat)),
        text::has_substring(no_port_message(s, error), error),
        text::has_substring(no_port_message(s, error), s.last_detail),
        s.saw_ghost ==> text::has_substring(no_port_message(s, error), "true"@),
        !s.saw_ghost ==> text::has_substring(no_port_message(s, error), "false"@),
{
    let a = "IPC port "@;
    let port = text::decimal(s.preferred as nat);
    let b = " still in use (ghost="@;
    let g = bool_text(s.saw_ghost);
    let c = ") and all fallbacks failed. Last error: "@;
    let d = ". "@;
    let e = " Set GLAZEWM_IPC_PORT to a free port, or reboot to clear a ghost socket."@;
    let whole = no_port_message(s, error);
    lemma_part_occurs(a, port, b + g + c + error + d + s.last_detail + e);
    assert(whole =~= a + port + (b + g + c + error + d + s.last_detail + e));
    lemma_part_occurs(a + port + b, g, c + error + d + s.last_detail + e);
    assert(whole =~= (a + port + b) + g + (c + error + d + s.last_detail + e));
    lemma_part_occurs(a + port + b + g + c, error, d + s.last_detail + e);
    assert(whole =~= (a + port + b + g + c) + error + (d + s.last_detail + e));
    lemma_part_occurs(a + port + b + g + c + error + d, s.last_detail, e);
}

} // verus!
