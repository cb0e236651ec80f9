//! Events that the window manager emits.
use vstd::prelude::*;

verus! {

/// What happened. Of what an event carries, only the pause flag matters here.
#[derive(Clone, Copy, Debug, PartialEq, Eq, Structural)]
pub enum WmEvent {
    ApplicationExiting,
    BindingModesChanged,
    FocusChanged,
    FocusedContainerMoved,
    MonitorAdded,
    MonitorUpdated,
    MonitorRemoved,
    TilingDirectionChanged,
    UserConfigChanged,
    WindowManaged,
    WindowUnmanaged,
    WorkspaceActivated,
    WorkspaceDeactivated,
    WorkspaceUpdated,
    PauseChanged { is_paused: bool },
}

/// Mouse events that a listener can be asked for.
#[derive(Clone, Copy, Debug, PartialEq, Eq, Structural)]
pub enum MouseEventKind {
    Move,
    LeftButtonUp,
}

/// What the input listeners have to do about an event.
#[derive(Clone, Copy, Debug, PartialEq, Eq, Structural)]
pub struct ListenerUpdate {
    /// Switches the mouse listener on or off.
    pub mouse_enabled: Option<bool>,
    /// The key bindings and the mouse events are to be set again.
    pub refresh: bool,
}

/// The mouse listener is off while the manager is paused. A new configuration,
/// new binding modes and a pause change what the listeners listen for.
pub fn listener_update(event: &WmEvent) -> (r: ListenerUpdate)
    ensures
        r.mouse_enabled == match *event {
            WmEvent::PauseChanged { is_paused } => Some(!is_paused),
            _ => None,
        },
        r.refresh == (*event is UserConfigChanged || *event is BindingModesChanged
            || *event is PauseChanged),
{
    match event {
        WmEvent::PauseChanged { is_paused } => ListenerUpdate {
            mouse_enabled: Some(!*is_paused),
            refresh: true,
        },
        WmEvent::UserConfigChanged => ListenerUpdate { mouse_enabled: None, refresh: true },
        WmEvent::BindingModesChanged => ListenerUpdate { mouse_enabled: None, refresh: true },
        _ => ListenerUpdate { mouse_enabled: None, refresh: false },
    }
}

/// The mouse events to listen for: moves matter only where focus follows the
/// cursor.
pub fn enabled_mouse_events(focus_follows_cursor: bool) -> (r: Vec<MouseEventKind>)
    ensures
        r@ == if focus_follows_cursor {
            seq![MouseEventKind::Move, MouseEventKind::LeftButtonUp]
        } else {
            seq![MouseEventKind::LeftButtonUp]
        },
{
    let mut out: Vec<MouseEventKind> = Vec::new();
    if focus_follows_cursor {
        out.push(MouseEventKind::Move);
    }
    out.push(MouseEventKind::LeftButtonUp);
    assert(out@ =~= if focus_follows_cursor {
        seq![MouseEventKind::Move, MouseEventKind::LeftButtonUp]
    } else {
        seq![MouseEventKind::LeftButtonUp]
    });
    out
}

/// The name of an event's kind.
pub open spec fn kind_name(event: WmEvent) -> Seq<char> {
    match event {
        WmEvent::ApplicationExiting => "ApplicationExiting"@,
        WmEvent::BindingModesChanged => "BindingModesChanged"@,
        WmEvent::FocusChanged => "FocusChanged"@,
        WmEvent::FocusedContainerMoved => "FocusedContainerMoved"@,
        WmEvent::MonitorAdded => "MonitorAdded"@,
        WmEvent::MonitorRemoved => "MonitorRemoved"@,
        WmEvent::MonitorUpdated => "MonitorUpdated"@,
        WmEvent::TilingDirectionChanged => "TilingDirectionChanged"@,
        WmEvent::UserConfigChanged => "UserConfigChanged"@,
        WmEvent::WindowManaged => "WindowManaged"@,
        WmEvent::WindowUnmanaged => "WindowUnmanaged"@,
        WmEvent::WorkspaceActivated => "WorkspaceActivated"@,
        WmEvent::WorkspaceDeactivated => "WorkspaceDeactivated"@,
        WmEvent::WorkspaceUpdated => "WorkspaceUpdated"@,
        WmEvent::PauseChanged { .. } => "PauseChanged"@,
    }
}

/// The name of an event's kind, for the debug log.
pub fn wm_event_kind_name(event: &WmEvent) -> (r: &'static str)
    ensures
        r@ == kind_name(*event),
{
    match event {
        WmEvent::ApplicationExiting => "ApplicationExiting",
        WmEvent::BindingModesChanged => "BindingModesChanged",
        WmEvent::FocusChanged => "FocusChanged",
        WmEvent::FocusedContainerMoved => "FocusedContainerMoved",
        WmEvent::MonitorAdded => "MonitorAdded",
        WmEvent::MonitorRemoved => "MonitorRemoved",
        WmEvent::MonitorUpdated => "MonitorUpdated",
        WmEvent::TilingDirectionChanged => "TilingDirectionChanged",
        WmEvent::UserConfigChanged => "UserConfigChanged",
        WmEvent::WindowManaged => "WindowManaged",
        WmEvent::WindowUnmanaged => "WindowUnmanaged",
        WmEvent::WorkspaceActivated => "WorkspaceActivated",
        WmEvent::WorkspaceDeactivated => "WorkspaceDeactivated",
        WmEvent::WorkspaceUpdated => "WorkspaceUpdated",
        WmEvent::PauseChanged { .. } => "PauseChanged",
    }
}

/// Events that change what a snapshot holds. Focus, pause, configuration and
/// binding modes do not.
pub open spec fn affects_layout(event: WmEvent) -> bool {
    match event {
        WmEvent::FocusedContainerMoved => true,
        WmEvent::WindowManaged => true,
        WmEvent::WindowUnmanaged => true,
        WmEvent::WorkspaceActivated => true,
        WmEvent::WorkspaceDeactivated => true,
        WmEvent::WorkspaceUpdated => true,
        WmEvent::TilingDirectionChanged => true,
        WmEvent::MonitorAdded => true,
        WmEvent::MonitorRemoved => true,
        WmEvent::MonitorUpdated => true,
        _ => false,
    }
}

/// Whether an event calls for an auto-save of the layout.
pub fn wm_event_affects_layout_snapshot(event: &WmEvent) -> (r: bool)
    ensures
        r == affects_layout(*event),
{
    match event {
        WmEvent::FocusedContainerMoved => true,
        WmEvent::WindowManaged => true,
        WmEvent::WindowUnmanaged => true,
        WmEvent::WorkspaceActivated => true,
        WmEvent::WorkspaceDeactivated => true,
        WmEvent::WorkspaceUpdated => true,
        WmEvent::TilingDirectionChanged => true,
        WmEvent::MonitorAdded => true,
        WmEvent::MonitorRemoved => true,
        WmEvent::MonitorUpdated => true,
        _ => false,
    }
}

/// Everything but focus, pause, configuration, binding modes and the end of the manager
/// changes what a snapshot holds.
pub proof fn law_what_changes_the_layout(event: WmEvent)
    ensures
        affects_layout(event) <==> !(event is FocusChanged || event is PauseChanged
            || event is UserConfigChanged || event is BindingModesChanged
            || event is ApplicationExiting),
{
}

} // verus!
