//! Ports and messages between the window manager and its clients.
use vstd::prelude::*;
use vstd::string::StringExecFns;

use crate::dto::{ContainerDto, ContainerId, TilingDirection};
use crate::layout_snapshot::{IgnoredWindowsData, LayoutSnapshot};
use crate::layout_snapshot_matcher::LayoutMatchReport;
use crate::load_layout_snapshot::LoadLayoutSummary;
use crate::paths;
use crate::text;
use crate::wm_event::WmEvent;

verus! {

pub const DEFAULT_IPC_PORT: u32 = 6123;

/// Name of the file in which the manager leaves its port when that is not the
/// default one. It stands in the configuration directory.
pub const IPC_PORT_FILE_NAME: &'static str = "ipc.port";

// ---------------------------------------------------------------------------
// Ports
// ---------------------------------------------------------------------------

/// The path of the port file below a home directory.
pub open spec fn port_file(home: Seq<char>) -> Seq<char> {
    paths::joined(paths::joined(paths::joined(home, ".glzr"@), "glazewm"@), IPC_PORT_FILE_NAME@)
}

/// `~/.glzr/glazewm/ipc.port`, where there is a home directory.
#[must_use]
pub fn ipc_port_file_path(home: Option<&str>) -> (r: Option<String>)
    ensures
        text::opt_view(r) == match home {
            Some(h) => Some(port_file(h@)),
            None => None,
        },
{
    match home {
        Some(h) => {
            let base = paths::join_path(h, ".glzr");
            let dir = paths::join_path(base.as_str(), "glazewm");
            Some(paths::join_path(dir.as_str(), IPC_PORT_FILE_NAME))
        },
        None => None,
    }
}

/// The port that a text names: a positive number.
pub open spec fn port_in(s: Seq<char>) -> Option<u32> {
    if text::parse_u32(s) is Some && text::parse_u32(s)->0 > 0 {
        text::parse_u32(s)
    } else {
        None
    }
}

fn read_port(s: &str) -> (r: Option<u32>)
    ensures
        r == port_in(s@),
{
    match text::parse_u32_text(s) {
        Some(port) => if port > 0 {
            Some(port)
        } else {
            None
        },
        None => None,
    }
}

/// The port that the manager tries first: the one named by the environment, else
/// the default. The port file does not count here, so that one fallback does not
/// keep the manager off the port where clients look first.
pub open spec fn bind_port(env: Option<Seq<char>>) -> u32 {
    if env is Some && port_in(env->0) is Some {
        port_in(env->0)->0
    } else {
        DEFAULT_IPC_PORT
    }
}

/// The port where a client looks: the one named by the environment, else the one
/// in the port file, else the default.
pub open spec fn client_port(env: Option<Seq<char>>, file: Option<Seq<char>>) -> u32 {
    if env is Some && port_in(env->0) is Some {
        port_in(env->0)->0
    } else if file is Some && port_in(text::trim(file->0)) is Some {
        port_in(text::trim(file->0))->0
    } else {
        DEFAULT_IPC_PORT
    }
}

/// The port that the manager tries first, given the value of `GLAZEWM_IPC_PORT`.
#[must_use]
pub fn preferred_bind_port(env: Option<&str>) -> (r: u32)
    ensures
        r == bind_port(text::opt_str_view(env)),
{
    if let Some(s) = env {
        if let Some(port) = read_port(s) {
            return port;
        }
    }
    DEFAULT_IPC_PORT
}

/// The port where a client looks, given the value of `GLAZEWM_IPC_PORT` and what
/// the port file holds.
#[must_use]
pub fn ipc_port(env: Option<&str>, file: Option<&str>) -> (r: u32)
    ensures
        r == client_port(text::opt_str_view(env), text::opt_str_view(file)),
{
    if let Some(s) = env {
        if let Some(port) = read_port(s) {
            return port;
        }
    }
    if let Some(s) = file {
        let trimmed = text::trim_text(s);
        if let Some(port) = read_port(trimmed.as_str()) {
            return port;
        }
    }
    DEFAULT_IPC_PORT
}

/// A file to write.
#[derive(Debug, PartialEq, Eq)]
pub struct FileWrite {
    pub path: String,
    pub contents: String,
}

/// What the port file holds for a port.
pub open spec fn port_file_contents(port: u32) -> Seq<char> {
    text::decimal(port as nat) + "\n"@
}

/// What to write where, so that clients find `port`. Fails without a home
/// directory.
pub fn write_ipc_port_file(home: Option<&str>, port: u32) -> (r: Result<FileWrite, String>)
    ensures
        match (home, r) {
            (Some(h), Ok(write)) => write.path@ == port_file(h@) && write.contents@
                == port_file_contents(port),
            (None, Err(message)) => message@ == "no home directory"@,
            _ => false,
        },
{
    match ipc_port_file_path(home) {
        Some(path) => {
            let mut contents = text::decimal_string(port as u64);
            contents.append("\n");
            Ok(FileWrite { path, contents })
        },
        None => Err("no home directory".to_owned()),
    }
}

/// The port file to remove once the default port is bound.
pub fn clear_ipc_port_file(home: Option<&str>) -> (r: Option<String>)
    ensures
        text::opt_view(r) == match home {
            Some(h) => Some(port_file(h@)),
            None => None,
        },
{
    ipc_port_file_path(home)
}

/// A client finds the port that the port file was written for, unless the
/// environment names another one.
pub proof fn law_port_file_is_found(port: u32)
    requires
        port > 0,
    ensures
        client_port(None, Some(port_file_contents(port))) == port,
{
    let digits = text::decimal(port as nat);
    let contents = port_file_contents(port);
    reveal_strlit("\n");
    text::law_decimal_reads_back(port as nat);
    assert(digits.len() > 0);
    assert(text::is_ascii_digit(digits[0]));
    assert(text::is_ascii_digit(digits.last()));
    assert(contents[0] == digits[0]);
    assert(text::trim_start(contents) == contents);
    assert(contents.last() == '\n');
    assert(contents.drop_last() =~= digits);
    assert(text::trim_end(digits) == digits);
    assert(text::trim(contents) == digits);
    assert(digits[0] != '+');
}

// ---------------------------------------------------------------------------
// Messages
// ---------------------------------------------------------------------------

/// A binding mode, of which only the name matters here.
#[derive(Debug, PartialEq, Eq)]
pub struct BindingModeConfig {
    pub name: String,
}

#[derive(Debug, PartialEq, Eq)]
pub struct AppMetadataData {
    pub version: String,
}

#[derive(Debug, PartialEq, Eq)]
pub struct BindingModesData {
    pub binding_modes: Vec<BindingModeConfig>,
}

#[derive(Clone, Copy, Debug, PartialEq, Eq, Structural)]
pub struct CommandData {
    pub subject_container_id: ContainerId,
}

#[derive(Clone, Copy, Debug, PartialEq, Eq, Structural)]
pub struct EventSubscribeData {
    pub subscription_id: ContainerId,
}

#[derive(Debug, PartialEq, Eq)]
pub struct FocusedData {
    pub focused: ContainerDto,
}

#[derive(Debug, PartialEq, Eq)]
pub struct MonitorsData {
    pub monitors: Vec<ContainerDto>,
}

#[derive(Debug, PartialEq, Eq)]
pub struct TilingDirectionData {
    pub tiling_direction: TilingDirection,
    pub direction_container: ContainerDto,
}

#[derive(Debug, PartialEq, Eq)]
pub struct WindowsData {
    pub windows: Vec<ContainerDto>,
}

#[derive(Debug, PartialEq, Eq)]
pub struct WorkspacesData {
    pub workspaces: Vec<ContainerDto>,
}

/// What a client is told of a restore.
#[derive(Clone, Copy, Debug, PartialEq, Eq, Structural)]
pub struct LoadLayoutData {
    pub matched: usize,
    pub unmatched_snapshot: usize,
    pub unmatched_live: usize,
    pub workspace_moves: usize,
    pub state_updates: usize,
}

impl LoadLayoutData {
    /// The part of a summary that a client is told.
    pub open spec fn of(summary: LoadLayoutSummary) -> LoadLayoutData {
        LoadLayoutData {
            matched: summary.matched,
            unmatched_snapshot: summary.unmatched_snapshot,
            unmatched_live: summary.unmatched_live,
            workspace_moves: summary.workspace_moves,
            state_updates: summary.state_updates,
        }
    }

    /// The part of a summary that a client is told.
    pub fn from_summary(summary: &LoadLayoutSummary) -> (r: LoadLayoutData)
        ensures
            r == LoadLayoutData::of(*summary),
    {
        LoadLayoutData {
            matched: summary.matched,
            unmatched_snapshot: summary.unmatched_snapshot,
            unmatched_live: summary.unmatched_live,
            workspace_moves: summary.workspace_moves,
            state_updates: summary.state_updates,
        }
    }
}

/// What a client gets back for a request that succeeded.
#[derive(Debug, PartialEq, Eq)]
pub enum ClientResponseData {
    AppMetadata(AppMetadataData),
    Layout(LayoutSnapshot),
    LayoutMatch(LayoutMatchReport),
    LoadLayout(LoadLayoutData),
    BindingModes(BindingModesData),
    Command(CommandData),
    EventSubscribe(EventSubscribeData),
    EventUnsubscribe,
    Focused(FocusedData),
    Monitors(MonitorsData),
    TilingDirection(TilingDirectionData),
    Windows(WindowsData),
    Workspaces(WorkspacesData),
    Paused(bool),
    Ignored(IgnoredWindowsData),
}

/// The answer to one request.
#[derive(Debug, PartialEq, Eq)]
pub struct ClientResponseMessage {
    pub client_message: String,
    pub data: Option<ClientResponseData>,
    pub error: Option<String>,
    pub success: bool,
}

/// An event for a subscriber.
#[derive(Debug, PartialEq, Eq)]
pub struct EventSubscriptionMessage {
    pub data: Option<WmEvent>,
    pub error: Option<String>,
    pub subscription_id: ContainerId,
    pub success: bool,
}

/// A message from the manager to a client.
#[derive(Debug, PartialEq, Eq)]
pub enum ServerMessage {
    ClientResponse(ClientResponseMessage),
    EventSubscription(EventSubscriptionMessage),
}

/// The answer to `client_message`: the data of a request that succeeded, or the
/// error of one that did not.
pub fn to_client_response_msg(
    client_message: String,
    response: Result<ClientResponseData, String>,
) -> (r: ServerMessage)
    ensures
        r == ServerMessage::ClientResponse(
            (ClientResponseMessage {
                client_message,
                data: match response {
                    Ok(data) => Some(data),
                    Err(_) => None,
                },
                error: match response {
                    Ok(_) => None,
                    Err(message) => Some(message),
                },
                success: response is Ok,
            }),
        ),
{
    match response {
        Ok(data) => ServerMessage::ClientResponse(
            ClientResponseMessage { client_message, data: Some(data), error: None, success: true },
        ),
        Err(message) => ServerMessage::ClientResponse(
            ClientResponseMessage {
                client_message,
                data: None,
                error: Some(message),
                success: false,
            },
        ),
    }
}

/// The message that carries `event` to a subscriber.
pub fn to_event_subscription_msg(subscription_id: ContainerId, event: WmEvent) -> (r: ServerMessage)
    ensures
        r == ServerMessage::EventSubscription(
            (EventSubscriptionMessage {
                data: Some(event),
                error: None,
                subscription_id,
                success: true,
            }),
        ),
{
    ServerMessage::EventSubscription(
        EventSubscriptionMessage {
            data: Some(event),
            error: None,
            subscription_id,
            success: true,
        },
    )
}

/// A port that the environment names counts for manager and client alike, whatever
/// the port file holds. Without it the client follows the port file, and the manager
/// does not. Without either both meet at the default port.
pub proof fn law_ports_are_looked_up_in_turn(
    port: u32,
    other: u32,
    junk: Seq<char>,
    file: Option<Seq<char>>,
)
    requires
        port > 0,
        other > 0,
        text::parse_u32(junk) is None || text::parse_u32(junk) == Some(0u32),
    ensures
        bind_port(Some(text::decimal(port as nat))) == port,
        client_port(Some(text::decimal(port as nat)), file) == port,
        client_port(Some(junk), Some(port_file_contents(other))) == other,
        bind_port(Some(junk)) == 6123,
        bind_port(None) == 6123,
        client_port(None, None) == 6123,
        client_port(Some(junk), None) == 6123,
{
    text::law_decimal_reads_back(port as nat);
    let digits = text::decimal(port as nat);
    assert(text::is_ascii_digit(digits[0]));
    assert(digits[0] != '+');
    law_port_file_is_found(other);
}

/// A client is told each count of a restore under its own name.
pub proof fn law_client_is_told_the_counts(summary: LoadLayoutSummary)
    ensures
        LoadLayoutData::of(summary).matched == summary.matched,
        LoadLayoutData::of(summary).unmatched_snapshot == summary.unmatched_snapshot,
        LoadLayoutData::of(summary).unmatched_live == summary.unmatched_live,
        LoadLayoutData::of(summary).workspace_moves == summary.workspace_moves,
        LoadLayoutData::of(summary).state_updates == summary.state_updates,
{
}

} // verus!
