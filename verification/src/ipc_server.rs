//! What the IPC server does with requests and events.
//!
//! A request is routed to an action; the caller performs it and the result is
//! turned into the answer. Subscriptions decide event by event what to send.
use vstd::prelude::*;

use std::time::SystemTime;

use crate::app_command::{AppCommand, InvokeCommand, QueryCommand, SubscribableEvent};
use crate::container_id;
use crate::dto::{ContainerDto, ContainerId, TilingDirection};
use crate::ipc;
use crate::ipc::{
    AppMetadataData, BindingModeConfig, BindingModesData, ClientResponseData, CommandData,
    EventSubscribeData, EventSubscriptionMessage, FocusedData, LoadLayoutData, MonitorsData,
    ServerMessage, TilingDirectionData, WindowsData, WorkspacesData,
};
use crate::layout_snapshot;
use crate::layout_snapshot::{IgnoredWindowsData, LayoutSnapshot};
use crate::layout_snapshot_matcher;
use crate::load_layout_snapshot;
use crate::load_layout_snapshot::{LiveWindow, LoadLayoutSummary, RestorePlan};
use crate::monitor_match::LiveMonitor;
use crate::save_layout_snapshot;
use crate::save_layout_snapshot::SnapshotFileError;
use crate::snapshot_capture;
use crate::snapshot_capture::{DesktopState, NativeWindowInfo};
use crate::timestamp;
use crate::window_state::FloatingStateConfig;
use crate::wm_event::WmEvent;

verus! {

// ---------------------------------------------------------------------------
// Requests
// ---------------------------------------------------------------------------

/// Requests that the server does not take.
#[derive(Clone, Copy, Debug, PartialEq, Eq, Structural)]
pub enum Refusal {
    /// The clipboard belongs to the client.
    ClipboardIsLocal,
    /// Files and clipboard are written by the client.
    SavingIsLocal,
    /// A running manager cannot be started.
    Unsupported,
}

impl Refusal {
    pub open spec fn text(self) -> Seq<char> {
        match self {
            Refusal::ClipboardIsLocal =>
                "load-layout --clipboard is handled by glazewm-cli locally."@,
            Refusal::SavingIsLocal =>
                "save-layout/copy-layout are handled by glazewm-cli locally."@,
            Refusal::Unsupported => "Unsupported IPC command."@,
        }
    }

    /// The error that the client gets.
    pub fn message(&self) -> (r: String)
        ensures
            r@ == self.text(),
    {
        match self {
            Refusal::ClipboardIsLocal =>
                "load-layout --clipboard is handled by glazewm-cli locally.".to_owned(),
            Refusal::SavingIsLocal =>
                "save-layout/copy-layout are handled by glazewm-cli locally.".to_owned(),
            Refusal::Unsupported => "Unsupported IPC command.".to_owned(),
        }
    }
}

/// What the server does for a request.
#[derive(Debug, PartialEq, Eq)]
pub enum IpcAction<C> {
    ReadWindows,
    ReadWorkspaces,
    ReadMonitors,
    ReadBindingModes,
    ReadFocused,
    ReadVersion,
    ReadTilingDirection,
    ReadPaused,
    ReadIgnored,
    /// Capture a snapshot, with ids and handles.
    CaptureLayout,
    /// Match the snapshot in a file; nothing changes.
    MatchLayout { path: String },
    /// Restore the snapshot in a file.
    LoadLayout { path: String },
    /// Hand a command to the manager.
    Run { subject_container_id: Option<ContainerId>, command: C },
    Subscribe { events: Vec<SubscribableEvent> },
    Unsubscribe { subscription_id: ContainerId },
    Refuse(Refusal),
}

/// The action for a request.
pub open spec fn routed<C>(command: AppCommand<C>) -> IpcAction<C> {
    match command {
        AppCommand::Query { command } => match command {
            QueryCommand::Windows => IpcAction::ReadWindows,
            QueryCommand::Workspaces => IpcAction::ReadWorkspaces,
            QueryCommand::Monitors => IpcAction::ReadMonitors,
            QueryCommand::BindingModes => IpcAction::ReadBindingModes,
            QueryCommand::Focused => IpcAction::ReadFocused,
            QueryCommand::AppMetadata => IpcAction::ReadVersion,
            QueryCommand::TilingDirection => IpcAction::ReadTilingDirection,
            QueryCommand::Paused => IpcAction::ReadPaused,
            QueryCommand::Layout { .. } => IpcAction::CaptureLayout,
            QueryCommand::Ignored => IpcAction::ReadIgnored,
            QueryCommand::LayoutMatch { path } => IpcAction::MatchLayout { path },
        },
        AppCommand::LoadLayout { path, clipboard } => match path {
            Some(file) if !clipboard => IpcAction::LoadLayout { path: file },
            _ => IpcAction::Refuse(Refusal::ClipboardIsLocal),
        },
        AppCommand::Command { subject_container_id, command } => match command {
            InvokeCommand::LoadLayout { path } => IpcAction::LoadLayout { path },
            InvokeCommand::Other(other) => IpcAction::Run { subject_container_id, command: other },
        },
        AppCommand::InspectLayout { path } => IpcAction::MatchLayout { path },
        AppCommand::SaveLayout { .. } => IpcAction::Refuse(Refusal::SavingIsLocal),
        AppCommand::CopyLayout => IpcAction::Refuse(Refusal::SavingIsLocal),
        AppCommand::Sub { events } => IpcAction::Subscribe { events },
        AppCommand::Unsub { subscription_id } => IpcAction::Unsubscribe { subscription_id },
        AppCommand::Start { .. } => IpcAction::Refuse(Refusal::Unsupported),
    }
}

/// Decides what the server does for a request.
pub fn handle_app_command<C>(command: AppCommand<C>) -> (r: IpcAction<C>)
    ensures
        r == routed(command),
{
    match command {
        AppCommand::Query { command } => match command {
            QueryCommand::Windows => IpcAction::ReadWindows,
            QueryCommand::Workspaces => IpcAction::ReadWorkspaces,
            QueryCommand::Monitors => IpcAction::ReadMonitors,
            QueryCommand::BindingModes => IpcAction::ReadBindingModes,
            QueryCommand::Focused => IpcAction::ReadFocused,
            QueryCommand::AppMetadata => IpcAction::ReadVersion,
            QueryCommand::TilingDirection => IpcAction::ReadTilingDirection,
            QueryCommand::Paused => IpcAction::ReadPaused,
            QueryCommand::Layout { .. } => IpcAction::CaptureLayout,
            QueryCommand::Ignored => IpcAction::ReadIgnored,
            QueryCommand::LayoutMatch { path } => IpcAction::MatchLayout { path },
        },
        AppCommand::LoadLayout { path, clipboard } => {
            if clipboard {
                return IpcAction::Refuse(Refusal::ClipboardIsLocal);
            }
            match path {
                Some(file) => IpcAction::LoadLayout { path: file },
                None => IpcAction::Refuse(Refusal::ClipboardIsLocal),
            }
        },
        AppCommand::Command { subject_container_id, command } => match command {
            InvokeCommand::LoadLayout { path } => IpcAction::LoadLayout { path },
            InvokeCommand::Other(other) => IpcAction::Run { subject_container_id, command: other },
        },
        AppCommand::InspectLayout { path } => IpcAction::MatchLayout { path },
        AppCommand::SaveLayout { .. } => IpcAction::Refuse(Refusal::SavingIsLocal),
        AppCommand::CopyLayout => IpcAction::Refuse(Refusal::SavingIsLocal),
        AppCommand::Sub { events } => IpcAction::Subscribe { events },
        AppCommand::Unsub { subscription_id } => IpcAction::Unsubscribe { subscription_id },
        AppCommand::Start { .. } => IpcAction::Refuse(Refusal::Unsupported),
    }
}

/// What the server does about a message.
#[derive(Debug, PartialEq, Eq)]
pub enum MessageStep<C> {
    /// Answer at once.
    Reply(ServerMessage),
    /// Perform an action, then answer with what it came to.
    Perform { client_message: String, action: IpcAction<C> },
}

/// The answer to a message that could not be served.
pub open spec fn is_error_reply(reply: ServerMessage, client_message: String, error: Seq<char>) -> bool {
    reply matches ServerMessage::ClientResponse(response) && {
        &&& response.client_message == client_message
        &&& response.data is None
        &&& response.error is Some
        &&& response.error->0@ == error
        &&& !response.success
    }
}

/// Decides what to do about a message, given the request that its arguments were
/// parsed into. What cannot be parsed and what is refused is answered with the
/// error; an action to perform is never a refusal.
pub fn process_message<C>(
    client_message: String,
    parsed: Result<AppCommand<C>, String>,
) -> (r: MessageStep<C>)
    ensures
        match parsed {
            Err(error) => r matches MessageStep::Reply(reply) && is_error_reply(
                reply,
                client_message,
                error@,
            ),
            Ok(command) => match routed(command) {
                IpcAction::Refuse(refusal) => r matches MessageStep::Reply(reply) && is_error_reply(
                    reply,
                    client_message,
                    refusal.text(),
                ),
                action => r == (MessageStep::Perform { client_message, action }),
            },
        },
{
    match parsed {
        Err(error) => MessageStep::Reply(ipc::to_client_response_msg(client_message, Err(error))),
        Ok(command) => match handle_app_command(command) {
            IpcAction::Refuse(refusal) => MessageStep::Reply(
                ipc::to_client_response_msg(client_message, Err(refusal.message())),
            ),
            action => MessageStep::Perform { client_message, action },
        },
    }
}

// ---------------------------------------------------------------------------
// Answers
// ---------------------------------------------------------------------------

/// What was read for a query.
#[derive(Debug, PartialEq, Eq)]
pub enum QueryResult {
    Windows(Vec<ContainerDto>),
    Workspaces(Vec<ContainerDto>),
    Monitors(Vec<ContainerDto>),
    BindingModes(Vec<BindingModeConfig>),
    /// The focused container, if there is one.
    Focused(Option<ContainerDto>),
    Version(String),
    /// The container whose direction a new window would follow, if there is one.
    TilingDirection(Option<(ContainerDto, TilingDirection)>),
    Paused(bool),
}

/// The answer to a query that reads state.
pub fn query_response(result: QueryResult) -> (r: Result<ClientResponseData, String>)
    ensures
        match result {
            QueryResult::Windows(windows) => r == Ok::<ClientResponseData, String>(
                ClientResponseData::Windows((WindowsData { windows })),
            ),
            QueryResult::Workspaces(workspaces) => r == Ok::<ClientResponseData, String>(
                ClientResponseData::Workspaces((WorkspacesData { workspaces })),
            ),
            QueryResult::Monitors(monitors) => r == Ok::<ClientResponseData, String>(
                ClientResponseData::Monitors((MonitorsData { monitors })),
            ),
            QueryResult::BindingModes(binding_modes) => r == Ok::<ClientResponseData, String>(
                ClientResponseData::BindingModes((BindingModesData { binding_modes })),
            ),
            QueryResult::Focused(Some(focused)) => r == Ok::<ClientResponseData, String>(
                ClientResponseData::Focused((FocusedData { focused })),
            ),
            QueryResult::Focused(None) => r is Err && r->Err_0@ == "No focused container."@,
            QueryResult::Version(version) => r == Ok::<ClientResponseData, String>(
                ClientResponseData::AppMetadata((AppMetadataData { version })),
            ),
            QueryResult::TilingDirection(Some((direction_container, tiling_direction))) => r == Ok::<
                ClientResponseData,
                String,
            >(
                ClientResponseData::TilingDirection(
                    (TilingDirectionData { tiling_direction, direction_container }),
                ),
            ),
            QueryResult::TilingDirection(None) => r is Err && r->Err_0@ == "No direction container."@,
            QueryResult::Paused(paused) => r == Ok::<ClientResponseData, String>(
                ClientResponseData::Paused(paused),
            ),
        },
{
    match result {
        QueryResult::Windows(windows) => Ok(ClientResponseData::Windows(WindowsData { windows })),
        QueryResult::Workspaces(workspaces) => Ok(
            ClientResponseData::Workspaces(WorkspacesData { workspaces }),
        ),
        QueryResult::Monitors(monitors) => Ok(
            ClientResponseData::Monitors(MonitorsData { monitors }),
        ),
        QueryResult::BindingModes(binding_modes) => Ok(
            ClientResponseData::BindingModes(BindingModesData { binding_modes }),
        ),
        QueryResult::Focused(found) => match found {
            Some(focused) => Ok(ClientResponseData::Focused(FocusedData { focused })),
            None => Err("No focused container.".to_owned()),
        },
        QueryResult::Version(version) => Ok(
            ClientResponseData::AppMetadata(AppMetadataData { version }),
        ),
        QueryResult::TilingDirection(found) => match found {
            Some((direction_container, tiling_direction)) => Ok(
                ClientResponseData::TilingDirection(
                    TilingDirectionData { tiling_direction, direction_container },
                ),
            ),
            None => Err("No direction container.".to_owned()),
        },
        QueryResult::Paused(paused) => Ok(ClientResponseData::Paused(paused)),
    }
}

/// The answer to a query for ignored windows.
pub fn ignored_response(windows: &[NativeWindowInfo], floating: FloatingStateConfig) -> (r:
    ClientResponseData)
    ensures
        r matches ClientResponseData::Ignored(data) && layout_snapshot::window_views(data.windows@)
            == windows@.map_values(
            |w: NativeWindowInfo| snapshot_capture::captured_native(w, floating),
        ),
{
    ClientResponseData::Ignored(
        IgnoredWindowsData {
            windows: snapshot_capture::snapshots_from_native_windows(windows, floating),
        },
    )
}

/// The answer to a query for the layout, captured at the time `stamp`.
pub fn layout_response_at(
    desktop: &DesktopState,
    floating: FloatingStateConfig,
    version: &str,
    stamp: String,
) -> (r: ClientResponseData)
    requires
        snapshot_capture::numbers_fit(desktop.monitors@),
    ensures
        r matches ClientResponseData::Layout(snapshot) && snapshot@
            == snapshot_capture::captured_desktop(*desktop, floating, version@, stamp@),
{
    ClientResponseData::Layout(
        snapshot_capture::build_layout_snapshot(desktop, floating, version, stamp),
    )
}

/// The answer to a query for the layout, captured at the time `now`.
pub fn layout_response(
    desktop: &DesktopState,
    floating: FloatingStateConfig,
    version: &str,
    now: SystemTime,
) -> (r: ClientResponseData)
    requires
        snapshot_capture::numbers_fit(desktop.monitors@),
    ensures
        r matches ClientResponseData::Layout(snapshot) && snapshot@
            == snapshot_capture::captured_desktop(
            *desktop,
            floating,
            version@,
            timestamp::rfc3339_since_epoch(timestamp::since_epoch(now)),
        ),
{
    layout_response_at(desktop, floating, version, timestamp::format_system_time_rfc3339(now))
}

/// The answer to a request to match the snapshot in the file `path`.
pub fn layout_match_response(
    path: &str,
    file: Result<LayoutSnapshot, SnapshotFileError>,
    windows: &[LiveWindow],
) -> (r: Result<ClientResponseData, String>)
    ensures
        match (file, r) {
            (Err(error), Err(message)) => message@ == save_layout_snapshot::file_error(path@, error),
            (Ok(snapshot), Ok(data)) => {
                &&& snapshot.version == layout_snapshot::LAYOUT_SNAPSHOT_VERSION
                &&& data matches ClientResponseData::LayoutMatch(report)
                &&& report@ == layout_snapshot_matcher::match_report(
                    layout_snapshot_matcher::snapshot_match_windows(snapshot@),
                    windows@.map_values(
                        |w: LiveWindow| load_layout_snapshot::running_match_window(w),
                    ),
                )
            },
            (Ok(snapshot), Err(message)) => snapshot.version
                != layout_snapshot::LAYOUT_SNAPSHOT_VERSION && message@
                == layout_snapshot::unsupported_version_message(snapshot.version),
            _ => false,
        },
{
    match save_layout_snapshot::read_layout_snapshot_file(path, file) {
        Err(message) => Err(message),
        Ok(snapshot) => match load_layout_snapshot::inspect_layout_snapshot(&snapshot, windows) {
            Err(message) => Err(message),
            Ok(report) => Ok(ClientResponseData::LayoutMatch(report)),
        },
    }
}

/// Plans the restore that a request for the snapshot in the file `path` asks
/// for.
pub fn load_layout_request(
    path: &str,
    file: Result<LayoutSnapshot, SnapshotFileError>,
    live_monitors: &[LiveMonitor],
    live_windows: &[LiveWindow],
) -> (r: Result<RestorePlan, String>)
    ensures
        match (file, r) {
            (Err(error), Err(message)) => message@ == save_layout_snapshot::file_error(path@, error),
            (Ok(snapshot), Ok(plan)) => {
                &&& snapshot.version == layout_snapshot::LAYOUT_SNAPSHOT_VERSION
                &&& load_layout_snapshot::is_restore_plan(
                    snapshot@,
                    live_monitors@,
                    live_windows@,
                    plan,
                )
            },
            (Ok(snapshot), Err(message)) => snapshot.version
                != layout_snapshot::LAYOUT_SNAPSHOT_VERSION && message@
                == layout_snapshot::unsupported_version_message(snapshot.version),
            _ => false,
        },
{
    match save_layout_snapshot::read_layout_snapshot_file(path, file) {
        Err(message) => Err(message),
        Ok(snapshot) => load_layout_snapshot::load_layout_snapshot(
            &snapshot,
            live_monitors,
            live_windows,
        ),
    }
}

/// The answer after a restore.
pub fn load_layout_response(summary: &LoadLayoutSummary) -> (r: ClientResponseData)
    ensures
        r == ClientResponseData::LoadLayout(LoadLayoutData::of(*summary)),
{
    ClientResponseData::LoadLayout(LoadLayoutData::from_summary(summary))
}

/// The answer after a command was carried out on a container.
pub fn command_response(subject_container_id: ContainerId) -> (r: ClientResponseData)
    ensures
        r == ClientResponseData::Command((CommandData { subject_container_id })),
{
    ClientResponseData::Command(CommandData { subject_container_id })
}

/// The answer to a request to end a subscription; `sent` says whether the
/// subscriptions could be told.
pub fn unsubscribe_response(sent: bool) -> (r: Result<ClientResponseData, String>)
    ensures
        match r {
            Ok(data) => sent && data == ClientResponseData::EventUnsubscribe,
            Err(message) => !sent && message@ == "Failed to unsubscribe from event."@,
        },
{
    if sent {
        Ok(ClientResponseData::EventUnsubscribe)
    } else {
        Err("Failed to unsubscribe from event.".to_owned())
    }
}

// ---------------------------------------------------------------------------
// Subscriptions
// ---------------------------------------------------------------------------

/// The kind under which an event can be subscribed to.
pub open spec fn event_type(event: WmEvent) -> SubscribableEvent {
    match event {
        WmEvent::ApplicationExiting => SubscribableEvent::ApplicationExiting,
        WmEvent::BindingModesChanged => SubscribableEvent::BindingModesChanged,
        WmEvent::FocusChanged => SubscribableEvent::FocusChanged,
        WmEvent::FocusedContainerMoved => SubscribableEvent::FocusedContainerMoved,
        WmEvent::MonitorAdded => SubscribableEvent::MonitorAdded,
        WmEvent::MonitorUpdated => SubscribableEvent::MonitorUpdated,
        WmEvent::MonitorRemoved => SubscribableEvent::MonitorRemoved,
        WmEvent::TilingDirectionChanged => SubscribableEvent::TilingDirectionChanged,
        WmEvent::UserConfigChanged => SubscribableEvent::UserConfigChanged,
        WmEvent::WindowManaged => SubscribableEvent::WindowManaged,
        WmEvent::WindowUnmanaged => SubscribableEvent::WindowUnmanaged,
        WmEvent::WorkspaceActivated => SubscribableEvent::WorkspaceActivated,
        WmEvent::WorkspaceDeactivated => SubscribableEvent::WorkspaceDeactivated,
        WmEvent::WorkspaceUpdated => SubscribableEvent::WorkspaceUpdated,
        WmEvent::PauseChanged { .. } => SubscribableEvent::PauseChanged,
    }
}

/// The kind under which an event is sent to subscribers.
pub fn process_event(event: &WmEvent) -> (r: SubscribableEvent)
    ensures
        r == event_type(*event),
{
    match event {
        WmEvent::ApplicationExiting => SubscribableEvent::ApplicationExiting,
        WmEvent::BindingModesChanged => SubscribableEvent::BindingModesChanged,
        WmEvent::FocusChanged => SubscribableEvent::FocusChanged,
        WmEvent::FocusedContainerMoved => SubscribableEvent::FocusedContainerMoved,
        WmEvent::MonitorAdded => SubscribableEvent::MonitorAdded,
        WmEvent::MonitorUpdated => SubscribableEvent::MonitorUpdated,
        WmEvent::MonitorRemoved => SubscribableEvent::MonitorRemoved,
        WmEvent::TilingDirectionChanged => SubscribableEvent::TilingDirectionChanged,
        WmEvent::UserConfigChanged => SubscribableEvent::UserConfigChanged,
        WmEvent::WindowManaged => SubscribableEvent::WindowManaged,
        WmEvent::WindowUnmanaged => SubscribableEvent::WindowUnmanaged,
        WmEvent::WorkspaceActivated => SubscribableEvent::WorkspaceActivated,
        WmEvent::WorkspaceDeactivated => SubscribableEvent::WorkspaceDeactivated,
        WmEvent::WorkspaceUpdated => SubscribableEvent::WorkspaceUpdated,
        WmEvent::PauseChanged { .. } => SubscribableEvent::PauseChanged,
    }
}

/// A client's subscription.
#[derive(Debug, PartialEq, Eq)]
pub struct Subscription {
    pub id: ContainerId,
    pub events: Vec<SubscribableEvent>,
}

/// What a subscription hears of.
#[derive(Clone, Copy, Debug, PartialEq, Eq, Structural)]
pub enum SubscriptionSignal {
    /// The client is gone.
    Disconnected,
    /// A subscription was ended, this one or another.
    Unsubscribed(ContainerId),
    Event(WmEvent),
    /// The last message could not be sent.
    SendFailed,
}

/// What a subscription does.
#[derive(Debug, PartialEq, Eq)]
pub enum SubscriptionStep {
    Stay,
    Stop,
    Send(ServerMessage),
}

/// Whether someone who subscribed to `events` gets events of a kind.
pub open spec fn subscribes(events: Seq<SubscribableEvent>, kind: SubscribableEvent) -> bool {
    events.contains(kind) || events.contains(SubscribableEvent::All)
}

/// `Uuid::new_v4`: an id at random. Of every outcome it holds that the digit
/// for the version is 4 and the one for the variant is 8, 9, a or b; nothing
/// else is known of it, also not that it is new.
#[verifier::external_body]
fn random_id() -> (r: ContainerId)
    ensures
        container_id::hex_digit(r, 19) == 4,
        8 <= container_id::hex_digit(r, 15) <= 11,
{
    uuid::Uuid::new_v4().as_u128()
}

fn names(events: &[SubscribableEvent], kind: SubscribableEvent) -> (r: bool)
    ensures
        r == events@.contains(kind),
{
    let mut i: usize = 0;
    while i < events.len()
        invariant
            i <= events@.len(),
            forall|j: int| 0 <= j < i ==> events@[j] != kind,
        decreases events@.len() - i,
    {
        if events[i] == kind {
            assert(events@[i as int] == kind);
            return true;
        }
        i = i + 1;
    }
    false
}

impl Subscription {
    /// A subscription under a random id.
    pub fn subscribe(events: Vec<SubscribableEvent>) -> (r: Subscription)
        ensures
            r.events == events,
            container_id::hex_digit(r.id, 19) == 4,
            8 <= container_id::hex_digit(r.id, 15) <= 11,
    {
        Subscription { id: random_id(), events }
    }

    /// The answer that tells the client its id.
    pub fn response(&self) -> (r: ClientResponseData)
        ensures
            r == ClientResponseData::EventSubscribe(
                (EventSubscribeData { subscription_id: self.id }),
            ),
    {
        ClientResponseData::EventSubscribe(EventSubscribeData { subscription_id: self.id })
    }

    /// Decides what to do about a signal.
    pub fn on_signal(&self, signal: SubscriptionSignal) -> (r: SubscriptionStep)
        ensures
            match signal {
                SubscriptionSignal::Disconnected => r is Stop,
                SubscriptionSignal::SendFailed => r is Stop,
                SubscriptionSignal::Unsubscribed(id) => if id == self.id {
                    r is Stop
                } else {
                    r is Stay
                },
                SubscriptionSignal::Event(event) => if subscribes(self.events@, event_type(event)) {
                    r == SubscriptionStep::Send(
                        ServerMessage::EventSubscription(
                            (EventSubscriptionMessage {
                                data: Some(event),
                                error: None,
                                subscription_id: self.id,
                                success: true,
                            }),
                        ),
                    )
                } else {
                    r is Stay
                },
            },
    {
        match signal {
            SubscriptionSignal::Disconnected => SubscriptionStep::Stop,
            SubscriptionSignal::SendFailed => SubscriptionStep::Stop,
            SubscriptionSignal::Unsubscribed(id) => if id == self.id {
                SubscriptionStep::Stop
            } else {
                SubscriptionStep::Stay
            },
            SubscriptionSignal::Event(event) => {
                let kind = process_event(&event);
                if names(&self.events, kind) || names(&self.events, SubscribableEvent::All) {
                    SubscriptionStep::Send(ipc::to_event_subscription_msg(self.id, event))
                } else {
                    SubscriptionStep::Stay
                }
            },
        }
    }
}

// ---------------------------------------------------------------------------
// Laws
// ---------------------------------------------------------------------------

/// Who subscribes to everything gets every event; who does not gets exactly the
/// kinds that they named.
pub proof fn law_subscribers_get_what_they_named(events: Seq<SubscribableEvent>, event: WmEvent)
    ensures
        events.contains(SubscribableEvent::All) ==> subscribes(events, event_type(event)),
        !events.contains(SubscribableEvent::All) ==> (subscribes(events, event_type(event))
            == events.contains(event_type(event))),
{
}

/// Events of different kinds are subscribed to under different names, and none
/// is sent under the name that stands for all of them.
pub proof fn law_event_types_differ(a: WmEvent, b: WmEvent)
    ensures
        event_type(a) != SubscribableEvent::All,
        event_type(a) == event_type(b) ==> (a == b || (a is PauseChanged && b is PauseChanged)),
{
}

/// Saving, copying and loading from the clipboard are the client's own business:
/// the server refuses them.
pub proof fn law_local_requests_are_refused<C>(path: Option<String>, file: String)
    ensures
        routed(AppCommand::<C>::CopyLayout) == IpcAction::<C>::Refuse(Refusal::SavingIsLocal),
        routed((AppCommand::<C>::SaveLayout { path: file })) == IpcAction::<C>::Refuse(
            Refusal::SavingIsLocal,
        ),
        routed((AppCommand::<C>::LoadLayout { path, clipboard: true })) == IpcAction::<C>::Refuse(
            Refusal::ClipboardIsLocal,
        ),
{
}

/// An event is sent under the name of its own kind.
pub proof fn law_events_are_sent_under_their_own_name(event: WmEvent)
    ensures
        event_type(event) is ApplicationExiting <==> event is ApplicationExiting,
        event_type(event) is BindingModesChanged <==> event is BindingModesChanged,
        event_type(event) is FocusChanged <==> event is FocusChanged,
        event_type(event) is FocusedContainerMoved <==> event is FocusedContainerMoved,
        event_type(event) is MonitorAdded <==> event is MonitorAdded,
        event_type(event) is MonitorUpdated <==> event is MonitorUpdated,
        event_type(event) is MonitorRemoved <==> event is MonitorRemoved,
        event_type(event) is TilingDirectionChanged <==> event is TilingDirectionChanged,
        event_type(event) is UserConfigChanged <==> event is UserConfigChanged,
        event_type(event) is WindowManaged <==> event is WindowManaged,
        event_type(event) is WindowUnmanaged <==> event is WindowUnmanaged,
        event_type(event) is WorkspaceActivated <==> event is WorkspaceActivated,
        event_type(event) is WorkspaceDeactivated <==> event is WorkspaceDeactivated,
        event_type(event) is WorkspaceUpdated <==> event is WorkspaceUpdated,
        event_type(event) is PauseChanged <==> event is PauseChanged,
{
}

/// A query is answered with what it asks for, and no two queries with the same but
/// those for a match, which a request to inspect asks for too.
pub proof fn law_queries_read_what_they_ask_for<C>(q: QueryCommand)
    ensures
        ({
            let action = routed((AppCommand::<C>::Query { command: q }));
            &&& action is ReadWindows <==> q is Windows
            &&& action is ReadWorkspaces <==> q is Workspaces
            &&& action is ReadMonitors <==> q is Monitors
            &&& action is ReadBindingModes <==> q is BindingModes
            &&& action is ReadFocused <==> q is Focused
            &&& action is ReadVersion <==> q is AppMetadata
            &&& action is ReadTilingDirection <==> q is TilingDirection
            &&& action is ReadPaused <==> q is Paused
            &&& action is ReadIgnored <==> q is Ignored
            &&& action is CaptureLayout <==> q is Layout
            &&& action is MatchLayout <==> q is LayoutMatch
            &&& q matches QueryCommand::LayoutMatch { path } ==> action == (IpcAction::<
                C,
            >::MatchLayout { path })
        }),
{
}

/// Only a request to load changes the layout, and it loads the file that it names,
/// whether it comes by itself or as a command. Inspecting a file changes nothing.
pub proof fn law_only_loading_restores<C>(request: AppCommand<C>, file: String)
    ensures
        routed(request) is LoadLayout ==> request is LoadLayout || request is Command,
        routed((AppCommand::<C>::LoadLayout { path: Some(file), clipboard: false })) == (IpcAction::<
            C,
        >::LoadLayout { path: file }),
        routed((AppCommand::<C>::LoadLayout { path: None, clipboard: false })) is Refuse,
        routed((AppCommand::<C>::InspectLayout { path: file })) == (IpcAction::<C>::MatchLayout {
            path: file,
        }),
{
}

/// Any other command goes to the manager as it is, with the container that it is
/// meant for.
pub proof fn law_commands_reach_the_manager<C>(
    subject: Option<ContainerId>,
    command: C,
    file: String,
)
    ensures
        routed(
            (AppCommand::<C>::Command {
                subject_container_id: subject,
                command: InvokeCommand::Other(command),
            }),
        ) == (IpcAction::<C>::Run { subject_container_id: subject, command }),
        routed(
            (AppCommand::<C>::Command {
                subject_container_id: subject,
                command: InvokeCommand::LoadLayout { path: file },
            }),
        ) == (IpcAction::<C>::LoadLayout { path: file }),
{
}

/// Subscriptions begin and end with what the request names.
pub proof fn law_subscriptions_follow_requests<C>(
    events: Vec<SubscribableEvent>,
    subscription_id: ContainerId,
)
    ensures
        routed((AppCommand::<C>::Sub { events })) == (IpcAction::<C>::Subscribe { events }),
        routed((AppCommand::<C>::Unsub { subscription_id })) == (IpcAction::<C>::Unsubscribe {
            subscription_id,
        }),
{
}

} // verus!
