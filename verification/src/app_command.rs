//! Commands of the command line and of IPC clients.
use vstd::prelude::*;

use crate::dto::ContainerId;
use crate::text;

verus! {

/// How much is logged.
#[derive(Clone, Copy, Debug, PartialEq, Eq, Structural)]
pub enum LogLevel {
    Error,
    Info,
    Debug,
}

/// Flags that set how much is logged.
#[derive(Clone, Copy, Debug, PartialEq, Eq, Structural)]
pub struct Verbosity {
    /// Log more.
    pub verbose: bool,
    /// Log errors only.
    pub quiet: bool,
}

impl Verbosity {
    /// The log level that the flags ask for. `verbose` comes first.
    #[must_use]
    pub fn level(&self) -> (r: LogLevel)
        ensures
            r == if self.verbose {
                LogLevel::Debug
            } else if self.quiet {
                LogLevel::Error
            } else {
                LogLevel::Info
            },
    {
        match (self.verbose, self.quiet) {
            (true, _) => LogLevel::Debug,
            (_, true) => LogLevel::Error,
            _ => LogLevel::Info,
        }
    }
}

/// Parts of the manager's state that can be asked for.
#[derive(Debug, PartialEq, Eq)]
pub enum QueryCommand {
    AppMetadata,
    BindingModes,
    /// The focused window or empty workspace.
    Focused,
    TilingDirection,
    Monitors,
    Windows,
    Workspaces,
    Paused,
    /// A snapshot of the layout. A client may write it to `output`; the server
    /// ignores that.
    Layout { output: Option<String> },
    Ignored,
    /// How a snapshot file would match the running windows.
    LayoutMatch { path: String },
}

/// Events that a client can subscribe to.
#[derive(Clone, Copy, Debug, PartialEq, Eq, Structural)]
pub enum SubscribableEvent {
    All,
    ApplicationExiting,
    BindingModesChanged,
    FocusChanged,
    FocusedContainerMoved,
    MonitorAdded,
    MonitorUpdated,
    MonitorRemoved,
    TilingDirectionChanged,
    UserConfigChanged,
    WindowManaged,
    WindowUnmanaged,
    WorkspaceActivated,
    WorkspaceDeactivated,
    WorkspaceUpdated,
    PauseChanged,
}

#[derive(Clone, Copy, Debug, PartialEq, Eq, Structural)]
pub enum TitleBarVisibility {
    Shown,
    Hidden,
}

#[derive(Clone, Copy, Debug, PartialEq, Eq, Structural)]
pub struct InvokePositionCommand {
    pub centered: bool,
    pub x_pos: Option<i32>,
    pub y_pos: Option<i32>,
}

#[derive(Debug, PartialEq, Eq)]
pub struct InvokeUpdateWorkspaceConfig {
    pub name: Option<String>,
    pub display_name: Option<String>,
    pub bind_to_monitor: Option<u32>,
    pub keep_alive: Option<bool>,
}

/// A command to the manager. Loading a layout is handled by the server itself;
/// every other command `C` is passed on.
#[derive(Debug, PartialEq, Eq)]
pub enum InvokeCommand<C> {
    LoadLayout { path: String },
    Other(C),
}

/// A command of the command line or of an IPC client.
#[allow(inconsistent_fields)]
#[derive(Debug, PartialEq, Eq)]
pub enum AppCommand<C> {
    /// Starts the manager.
    Start { config_path: Option<String>, verbosity: Verbosity },
    Query { command: QueryCommand },
    Command { subject_container_id: Option<ContainerId>, command: InvokeCommand<C> },
    /// Subscribes to events.
    Sub { events: Vec<SubscribableEvent> },
    Unsub { subscription_id: ContainerId },
    /// Writes a durable snapshot to `path`, on the client's side.
    SaveLayout { path: String },
    /// Restores a snapshot from a file or from the clipboard.
    LoadLayout { path: Option<String>, clipboard: bool },
    /// Matches a snapshot without restoring it.
    InspectLayout { path: String },
    /// Copies a durable snapshot to the clipboard, on the client's side.
    CopyLayout,
}

impl<C> AppCommand<C> {
    /// The command for a command line that holds nothing but the program name:
    /// start, with the default configuration and verbosity. `None` where the
    /// arguments have to be parsed.
    #[must_use]
    pub fn parse_with_default(args: &Vec<String>) -> (r: Option<AppCommand<C>>)
        ensures
            r == if args@.len() == 1 {
                Some(
                    AppCommand::<C>::Start {
                        config_path: None,
                        verbosity: (Verbosity { verbose: false, quiet: false }),
                    },
                )
            } else {
                None
            },
    {
        if args.len() == 1 {
            Some(
                AppCommand::Start {
                    config_path: None,
                    verbosity: Verbosity { verbose: false, quiet: false },
                },
            )
        } else {
            None
        }
    }
}

/// An error without the words that announce it as one.
pub open spec fn plain_error(s: Seq<char>) -> Seq<char>
    decreases s.len(),
{
    if "error: "@.is_prefix_of(s) && "error: "@.len() > 0 {
        plain_error(s.skip("error: "@.len() as int))
    } else {
        s
    }
}

/// Removes the words that announce an error from the start of its text.
pub fn without_error_prefix(message: &str) -> (r: String)
    ensures
        r@ == plain_error(message@),
{
    proof {
        reveal_strlit("error: ");
    }
    let mut rest = message.to_owned();
    while text::starts_with_text(rest.as_str(), "error: ")
        invariant
            plain_error(rest@) == plain_error(message@),
            "error: "@.len() == 7,
        decreases rest@.len(),
    {
        let chars = text::chars_of(rest.as_str());
        let ghost before = rest@;
        rest = text::string_of_range(&chars, 7, chars.len());
        assert(rest@ =~= before.skip(7));
    }
    rest
}

} // verus!
