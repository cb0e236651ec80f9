//! What the manager does about each thing that it waits for.
//!
//! The caller waits for the next event, asks what to do about it and does that
//! in the given order.
use vstd::prelude::*;

use crate::layout_persistence::StartupLayout;
use crate::wm_event;
use crate::wm_event::WmEvent;

verus! {

/// What the manager waits for.
#[derive(Clone, Copy, Debug, PartialEq, Eq, Structural)]
pub enum LoopEvent {
    /// The process was interrupted.
    Interrupted,
    /// A command asked the manager to exit.
    ExitCommand,
    /// The tray menu asked the manager to exit.
    ExitFromTray,
    UncloakRequested,
    /// The mouse, the keyboard, a window or the displays.
    Platform,
    /// Invalid windows are to be looked for.
    CleanupDue,
    /// The restore at startup is to be tried again.
    RetryDue,
    /// A client sent a message.
    Message,
    Wm(WmEvent),
    /// The quiet period of the auto-save is over.
    SaveDue,
    ReloadRequested,
    CopyRequested,
    SaveRequested,
    LoadRequested,
}

/// One thing to do.
#[derive(Clone, Copy, Debug, PartialEq, Eq, Structural)]
pub enum LoopStep {
    Exit,
    /// Uncloak the windows that are not managed, then manage what appeared.
    Uncloak,
    HandlePlatformEvent,
    RemoveInvalidWindows,
    /// Try the restore at startup again, because time has passed.
    TimedRetry,
    /// Try the restore at startup again, because a window appeared.
    WindowRetry,
    AnswerMessage,
    /// Switch the mouse listener on or off.
    EnableMouse(bool),
    /// Set the key bindings and mouse events that are listened for.
    RefreshListeners,
    /// Ask the auto-save for a save.
    ScheduleSave,
    /// Send the event to subscribers.
    ForwardEvent,
    /// Write the layout.
    WriteLayout,
    ReloadConfig,
    CopySnapshot,
    SaveSnapshot,
    LoadSnapshot,
}

/// What the input listeners have to do about an event.
pub open spec fn listener_steps(event: WmEvent) -> Seq<LoopStep> {
    match event {
        WmEvent::PauseChanged { is_paused } => seq![
            LoopStep::EnableMouse(!is_paused),
            LoopStep::RefreshListeners,
        ],
        WmEvent::UserConfigChanged => seq![LoopStep::RefreshListeners],
        WmEvent::BindingModesChanged => seq![LoopStep::RefreshListeners],
        _ => Seq::empty(),
    }
}

/// What is done about an event of the manager that the restore at startup
/// caused: clients see it, but it is no reason to save.
pub open spec fn drained(event: WmEvent) -> Seq<LoopStep> {
    listener_steps(event).push(LoopStep::ForwardEvent)
}

/// What is done about an event of the manager while `retries_left` tries of the
/// restore at startup are left.
pub open spec fn observed(event: WmEvent, retries_left: nat) -> Seq<LoopStep> {
    let retry = if retries_left > 0 && event is WindowManaged {
        seq![LoopStep::WindowRetry]
    } else {
        Seq::empty()
    };
    let save = if wm_event::affects_layout(event) {
        seq![LoopStep::ScheduleSave]
    } else {
        Seq::empty()
    };
    listener_steps(event) + retry + save + seq![LoopStep::ForwardEvent]
}

/// What is done about an event.
pub open spec fn steps(event: LoopEvent, is_paused: bool, retries_left: nat) -> Seq<LoopStep> {
    match event {
        LoopEvent::Interrupted => seq![LoopStep::Exit],
        LoopEvent::ExitCommand => seq![LoopStep::Exit],
        LoopEvent::ExitFromTray => seq![LoopStep::Exit],
        LoopEvent::UncloakRequested => seq![LoopStep::Uncloak],
        LoopEvent::Platform => seq![LoopStep::HandlePlatformEvent],
        LoopEvent::CleanupDue => if is_paused {
            Seq::empty()
        } else {
            seq![LoopStep::RemoveInvalidWindows]
        },
        LoopEvent::RetryDue => if retries_left > 0 {
            seq![LoopStep::TimedRetry]
        } else {
            Seq::empty()
        },
        LoopEvent::Message => seq![LoopStep::AnswerMessage],
        LoopEvent::Wm(wm) => observed(wm, retries_left),
        LoopEvent::SaveDue => seq![LoopStep::WriteLayout],
        LoopEvent::ReloadRequested => seq![LoopStep::ReloadConfig],
        LoopEvent::CopyRequested => seq![LoopStep::CopySnapshot],
        LoopEvent::SaveRequested => seq![LoopStep::SaveSnapshot],
        LoopEvent::LoadRequested => seq![LoopStep::LoadSnapshot],
    }
}

fn push_listener_steps(out: &mut Vec<LoopStep>, event: &WmEvent)
    ensures
        final(out)@ == old(out)@ + listener_steps(*event),
{
    let update = wm_event::listener_update(event);
    if let Some(enabled) = update.mouse_enabled {
        out.push(LoopStep::EnableMouse(enabled));
    }
    if update.refresh {
        out.push(LoopStep::RefreshListeners);
    }
    assert(out@ =~= old(out)@ + listener_steps(*event));
}

/// What to do about an event of the manager that the restore at startup caused.
pub fn drain_steps(event: &WmEvent) -> (r: Vec<LoopStep>)
    ensures
        r@ == drained(*event),
{
    let mut out: Vec<LoopStep> = Vec::new();
    push_listener_steps(&mut out, event);
    out.push(LoopStep::ForwardEvent);
    assert(out@ =~= drained(*event));
    out
}

/// What to do about an event.
pub fn loop_steps(event: &LoopEvent, is_paused: bool, startup: &StartupLayout) -> (r: Vec<LoopStep>)
    ensures
        r@ == steps(*event, is_paused, startup@.retries_left),
{
    let mut out: Vec<LoopStep> = Vec::new();
    match event {
        LoopEvent::Interrupted => out.push(LoopStep::Exit),
        LoopEvent::ExitCommand => out.push(LoopStep::Exit),
        LoopEvent::ExitFromTray => out.push(LoopStep::Exit),
        LoopEvent::UncloakRequested => out.push(LoopStep::Uncloak),
        LoopEvent::Platform => out.push(LoopStep::HandlePlatformEvent),
        LoopEvent::CleanupDue => {
            if !is_paused {
                out.push(LoopStep::RemoveInvalidWindows);
            }
        },
        LoopEvent::RetryDue => {
            if startup.retries_left() > 0 {
                out.push(LoopStep::TimedRetry);
            }
        },
        LoopEvent::Message => out.push(LoopStep::AnswerMessage),
        LoopEvent::Wm(wm) => {
            push_listener_steps(&mut out, wm);
            if startup.should_retry_on(wm) {
                out.push(LoopStep::WindowRetry);
            }
            if wm_event::wm_event_affects_layout_snapshot(wm) {
                out.push(LoopStep::ScheduleSave);
            }
            out.push(LoopStep::ForwardEvent);
        },
        LoopEvent::SaveDue => out.push(LoopStep::WriteLayout),
        LoopEvent::ReloadRequested => out.push(LoopStep::ReloadConfig),
        LoopEvent::CopyRequested => out.push(LoopStep::CopySnapshot),
        LoopEvent::SaveRequested => out.push(LoopStep::SaveSnapshot),
        LoopEvent::LoadRequested => out.push(LoopStep::LoadSnapshot),
    }
    assert(out@ =~= steps(*event, is_paused, startup@.retries_left));
    out
}

/// Every event of the manager reaches the subscribers, after everything else was
/// done about it, both at startup and later.
pub proof fn law_every_event_is_forwarded(event: WmEvent, retries_left: nat)
    ensures
        drained(event).last() == LoopStep::ForwardEvent,
        observed(event, retries_left).last() == LoopStep::ForwardEvent,
{
}

/// Events that the restore at startup causes never lead to a save.
pub proof fn law_startup_events_do_not_save(event: WmEvent)
    ensures
        !drained(event).contains(LoopStep::ScheduleSave),
        !drained(event).contains(LoopStep::WriteLayout),
{
    assert forall|i: int| 0 <= i < drained(event).len() implies drained(event)[i]
        != LoopStep::ScheduleSave && drained(event)[i] != LoopStep::WriteLayout by {
    }
}

/// The restore is tried again only while tries are left.
pub proof fn law_no_retry_after_settling(event: LoopEvent, is_paused: bool)
    ensures
        !steps(event, is_paused, 0).contains(LoopStep::TimedRetry),
        !steps(event, is_paused, 0).contains(LoopStep::WindowRetry),
{
    let all = steps(event, is_paused, 0);
    assert forall|i: int| 0 <= i < all.len() implies all[i] != LoopStep::TimedRetry && all[i]
        != LoopStep::WindowRetry by {
    }
}

/// What each kind of step is done for, and for nothing else.
pub proof fn law_steps_have_their_reasons(event: LoopEvent, is_paused: bool, retries_left: nat, i: int)
    requires
        0 <= i < steps(event, is_paused, retries_left).len(),
    ensures
        ({
            let step = steps(event, is_paused, retries_left)[i];
            &&& step is Exit <==> event is Interrupted || event is ExitCommand
                || event is ExitFromTray
            &&& step is Uncloak <==> event is UncloakRequested
            &&& step is HandlePlatformEvent <==> event is Platform
            &&& step is RemoveInvalidWindows <==> event is CleanupDue
            &&& step is RemoveInvalidWindows ==> !is_paused
            &&& step is TimedRetry <==> event is RetryDue
            &&& step is TimedRetry || step is WindowRetry ==> retries_left > 0
            &&& step is WindowRetry ==> event == LoopEvent::Wm(WmEvent::WindowManaged)
            &&& step is AnswerMessage <==> event is Message
            &&& step is WriteLayout <==> event is SaveDue
            &&& step is ReloadConfig <==> event is ReloadRequested
            &&& step is CopySnapshot <==> event is CopyRequested
            &&& step is SaveSnapshot <==> event is SaveRequested
            &&& step is LoadSnapshot <==> event is LoadRequested
            &&& step is ScheduleSave ==> event is Wm && wm_event::affects_layout(event->Wm_0)
            &&& step is ForwardEvent ==> event is Wm && i == steps(
                event,
                is_paused,
                retries_left,
            ).len() - 1
            &&& step matches LoopStep::EnableMouse(on) ==> event == LoopEvent::Wm(
                (WmEvent::PauseChanged { is_paused: !on }),
            )
            &&& step is RefreshListeners ==> event is Wm && (event->Wm_0 is PauseChanged
                || event->Wm_0 is UserConfigChanged || event->Wm_0 is BindingModesChanged)
        }),
{
}

/// What has to be done about an event of the manager is done: listeners are set again
/// when what they listen for may have changed, a window that appears is a reason to try
/// the restore again while tries are left, and a change of the layout is a reason to
/// save.
pub proof fn law_nothing_is_left_undone(event: WmEvent, retries_left: nat)
    ensures
        ({
            let all = observed(event, retries_left);
            &&& event is PauseChanged || event is UserConfigChanged || event is BindingModesChanged
                ==> all.contains(LoopStep::RefreshListeners)
            &&& event matches WmEvent::PauseChanged { is_paused } ==> all[0]
                == LoopStep::EnableMouse(!is_paused)
            &&& event is WindowManaged && retries_left > 0 ==> all.contains(LoopStep::WindowRetry)
            &&& wm_event::affects_layout(event) ==> all.contains(LoopStep::ScheduleSave)
        }),
        steps(LoopEvent::Wm(event), true, retries_left) == observed(event, retries_left),
        steps(LoopEvent::CleanupDue, false, retries_left).len() == 1,
        steps(LoopEvent::RetryDue, false, retries_left).len() == (if retries_left > 0 {
            1nat
        } else {
            0
        }),
{
    let all = observed(event, retries_left);
    let n = listener_steps(event).len() as int;
    if event is PauseChanged {
        assert(all[1] == LoopStep::RefreshListeners);
    } else if event is UserConfigChanged || event is BindingModesChanged {
        assert(all[0] == LoopStep::RefreshListeners);
    }
    if event is WindowManaged && retries_left > 0 {
        assert(all[n] == LoopStep::WindowRetry);
    }
    if wm_event::affects_layout(event) {
        assert(all[all.len() - 2] == LoopStep::ScheduleSave);
    }
}

} // verus!
