use std::time::{Duration, UNIX_EPOCH};

use glaze_layout::app_command::{
    AppCommand, InvokeCommand, QueryCommand, SubscribableEvent, Verbosity,
};
use glaze_layout::dto::{ContainerDto, MonitorDto, Rect, RootContainerDto, TilingDirection};
use glaze_layout::ipc::{ClientResponseData, LoadLayoutData, ServerMessage};
use glaze_layout::ipc_server::{
    command_response, handle_app_command, ignored_response, layout_match_response, layout_response,
    load_layout_request, load_layout_response, process_event, process_message, query_response,
    unsubscribe_response, IpcAction, MessageStep, QueryResult, Refusal, Subscription, SubscriptionSignal, SubscriptionStep,
};
use glaze_layout::layout_persistence::StartupLayout;
use glaze_layout::layout_snapshot::LayoutSnapshot;
use glaze_layout::load_layout_snapshot::LoadLayoutSummary;
use glaze_layout::save_layout_snapshot::SnapshotFileError;
use glaze_layout::snapshot_capture::{
    build_durable_snapshot, local_ids_fit, DesktopState, NativeWindowInfo,
};
use glaze_layout::window_state::{FloatingStateConfig, WindowState};
use glaze_layout::wm_event::WmEvent;
use glaze_layout::wm_loop::{drain_steps, loop_steps, LoopEvent, LoopStep};

const FLOATING: FloatingStateConfig = FloatingStateConfig { centered: true, shown_on_top: false };

fn query(command: QueryCommand) -> IpcAction<u8> {
    handle_app_command(AppCommand::Query { command })
}

#[test]
fn queries_are_routed() {
    assert_eq!(query(QueryCommand::Windows), IpcAction::ReadWindows);
    assert_eq!(query(QueryCommand::Workspaces), IpcAction::ReadWorkspaces);
    assert_eq!(query(QueryCommand::Monitors), IpcAction::ReadMonitors);
    assert_eq!(query(QueryCommand::BindingModes), IpcAction::ReadBindingModes);
    assert_eq!(query(QueryCommand::Focused), IpcAction::ReadFocused);
    assert_eq!(query(QueryCommand::AppMetadata), IpcAction::ReadVersion);
    assert_eq!(query(QueryCommand::TilingDirection), IpcAction::ReadTilingDirection);
    assert_eq!(query(QueryCommand::Paused), IpcAction::ReadPaused);
    assert_eq!(query(QueryCommand::Ignored), IpcAction::ReadIgnored);
    assert_eq!(
        query(QueryCommand::Layout { output: Some("o".to_string()) }),
        IpcAction::CaptureLayout
    );
    assert_eq!(
        query(QueryCommand::LayoutMatch { path: "p".to_string() }),
        IpcAction::MatchLayout { path: "p".to_string() }
    );
}

#[test]
fn commands_are_routed() {
    let path = || "p".to_string();
    let route = |command: AppCommand<u8>| handle_app_command(command);
    assert_eq!(
        route(AppCommand::LoadLayout { path: Some(path()), clipboard: false }),
        IpcAction::LoadLayout { path: path() }
    );
    assert_eq!(
        route(AppCommand::Command {
            subject_container_id: Some(1),
            command: InvokeCommand::LoadLayout { path: path() }
        }),
        IpcAction::LoadLayout { path: path() }
    );
    assert_eq!(
        route(AppCommand::Command {
            subject_container_id: Some(1),
            command: InvokeCommand::Other(9)
        }),
        IpcAction::Run { subject_container_id: Some(1), command: 9 }
    );
    assert_eq!(
        route(AppCommand::InspectLayout { path: path() }),
        IpcAction::MatchLayout { path: path() }
    );
    assert_eq!(
        route(AppCommand::Sub { events: vec![SubscribableEvent::All] }),
        IpcAction::Subscribe { events: vec![SubscribableEvent::All] }
    );
    assert_eq!(
        route(AppCommand::Unsub { subscription_id: 3 }),
        IpcAction::Unsubscribe { subscription_id: 3 }
    );
}

#[test]
fn local_requests_are_refused() {
    let refusal = |command: AppCommand<u8>| match handle_app_command(command) {
        IpcAction::Refuse(refusal) => refusal.message(),
        other => panic!("unexpected {other:?}"),
    };
    let clipboard = "load-layout --clipboard is handled by glazewm-cli locally.";
    assert_eq!(refusal(AppCommand::LoadLayout { path: None, clipboard: true }), clipboard);
    assert_eq!(
        refusal(AppCommand::LoadLayout { path: Some("p".to_string()), clipboard: true }),
        clipboard
    );
    assert_eq!(refusal(AppCommand::LoadLayout { path: None, clipboard: false }), clipboard);
    let saving = "save-layout/copy-layout are handled by glazewm-cli locally.";
    assert_eq!(refusal(AppCommand::SaveLayout { path: "p".to_string() }), saving);
    assert_eq!(refusal(AppCommand::CopyLayout), saving);
    assert_eq!(
        refusal(AppCommand::Start {
            config_path: None,
            verbosity: Verbosity { verbose: false, quiet: false }
        }),
        "Unsupported IPC command."
    );
    assert_ne!(Refusal::SavingIsLocal, Refusal::Unsupported);
}

#[test]
fn refused_messages_are_answered_with_the_error() {
    let error = |parsed: Result<AppCommand<u8>, String>| {
        match process_message("m".to_string(), parsed) {
            MessageStep::Reply(ServerMessage::ClientResponse(response)) => {
                assert_eq!(response.client_message, "m");
                assert_eq!(response.data, None);
                assert!(!response.success);
                response.error
            }
            other => panic!("unexpected {other:?}"),
        }
    };
    assert_eq!(error(Err("unknown command".to_string())), Some("unknown command".to_string()));
    assert_eq!(
        error(Ok(AppCommand::CopyLayout)),
        Some("save-layout/copy-layout are handled by glazewm-cli locally.".to_string())
    );
    let served: Result<AppCommand<u8>, String> =
        Ok(AppCommand::Query { command: QueryCommand::Paused });
    assert_eq!(
        process_message("query paused".to_string(), served),
        MessageStep::Perform {
            client_message: "query paused".to_string(),
            action: IpcAction::ReadPaused
        }
    );
}

fn root() -> ContainerDto {
    ContainerDto::Root(RootContainerDto { id: 1, children: vec![], child_focus_order: vec![] })
}

#[test]
fn queries_answer_with_what_was_read() {
    match query_response(QueryResult::Windows(vec![root()])) {
        Ok(ClientResponseData::Windows(data)) => assert_eq!(data.windows, vec![root()]),
        other => panic!("unexpected {other:?}"),
    }
    match query_response(QueryResult::TilingDirection(Some((root(), TilingDirection::Vertical)))) {
        Ok(ClientResponseData::TilingDirection(data)) => {
            assert_eq!(data.tiling_direction, TilingDirection::Vertical);
            assert_eq!(data.direction_container, root());
        }
        other => panic!("unexpected {other:?}"),
    }
    assert_eq!(
        query_response(QueryResult::Focused(None)),
        Err("No focused container.".to_string())
    );
    assert_eq!(
        query_response(QueryResult::TilingDirection(None)),
        Err("No direction container.".to_string())
    );
    assert_eq!(query_response(QueryResult::Paused(true)), Ok(ClientResponseData::Paused(true)));
    assert_eq!(unsubscribe_response(true), Ok(ClientResponseData::EventUnsubscribe));
    assert_eq!(
        unsubscribe_response(false),
        Err("Failed to unsubscribe from event.".to_string())
    );
    assert!(matches!(
        command_response(7),
        ClientResponseData::Command(data) if data.subject_container_id == 7
    ));
    let summary = LoadLayoutSummary { matched: 2, ..LoadLayoutSummary::default() };
    assert_eq!(
        load_layout_response(&summary),
        ClientResponseData::LoadLayout(LoadLayoutData::from_summary(&summary))
    );
}

fn native(name: Option<&str>) -> NativeWindowInfo {
    NativeWindowInfo {
        handle: 5,
        process_path: None,
        process_name: name.map(String::from),
        class_name: None,
        title: Some("t".to_string()),
        frame: Some(Rect::from_xy(1, 2, 3, 4)),
    }
}

fn desktop() -> DesktopState {
    DesktopState {
        monitors: vec![ContainerDto::Monitor(MonitorDto {
            id: 2,
            parent_id: None,
            children: vec![],
            child_focus_order: vec![],
            has_focus: false,
            width: 10,
            height: 20,
            x: 30,
            y: 40,
            dpi: 96,
            handle: None,
            device_name: "D".to_string(),
            device_path: None,
            hardware_id: None,
            working_rect: Rect::from_xy(0, 0, 1, 1),
            scale_factor_bits: 1.0f32.to_bits(),
        })],
        ignored_windows: vec![native(None)],
        is_paused: true,
        binding_modes: vec!["m".to_string()],
    }
}

#[test]
fn layout_is_captured_with_the_time() {
    let desktop = desktop();
    assert!(local_ids_fit(&desktop.monitors));
    let now = UNIX_EPOCH + Duration::from_secs(1_700_000_000);
    match layout_response(&desktop, FLOATING, "1.2.3", now) {
        ClientResponseData::Layout(snapshot) => {
            assert_eq!(snapshot.captured_at, "2023-11-14T22:13:20Z");
            assert_eq!(snapshot.glazewm_version.as_deref(), Some("1.2.3"));
            assert!(snapshot.paused);
            assert_eq!(snapshot.binding_modes, vec!["m"]);
            assert_eq!(snapshot.monitors[0].id, Some(2));
            assert_eq!(snapshot.ignored_windows[0].identity.process_name, "unknown");
            assert_eq!(snapshot.ignored_windows[0].state, WindowState::Floating(FLOATING));
            assert_eq!(snapshot.ignored_windows[0].handle, Some(5));
        }
        other => panic!("unexpected {other:?}"),
    }
    let durable = build_durable_snapshot(&desktop, FLOATING, "1.2.3", "t".to_string());
    assert_eq!(durable.monitors[0].id, None);
    assert_eq!(durable.ignored_windows[0].handle, None);
    match ignored_response(&[native(Some("n"))], FLOATING) {
        ClientResponseData::Ignored(data) => {
            assert_eq!(data.windows[0].identity.process_name, "n");
            assert_eq!(data.windows[0].floating_placement, Some(Rect::from_xy(1, 2, 3, 4)));
        }
        other => panic!("unexpected {other:?}"),
    }
}

fn snapshot(version: u32) -> LayoutSnapshot {
    LayoutSnapshot {
        version,
        captured_at: "t".to_string(),
        glazewm_version: None,
        paused: false,
        binding_modes: vec![],
        monitors: vec![],
        ignored_windows: vec![],
    }
}

#[test]
fn snapshot_files_are_checked() {
    let unreadable = || Err(SnapshotFileError::Unreadable);
    assert_eq!(
        layout_match_response("f", unreadable(), &[]),
        Err("Failed to read f".to_string())
    );
    assert_eq!(
        load_layout_request("f", unreadable(), &[], &[]),
        Err("Failed to read f".to_string())
    );
    let version = "Unsupported layout snapshot version 0 (expected 1).".to_string();
    assert_eq!(layout_match_response("f", Ok(snapshot(0)), &[]), Err(version.clone()));
    assert_eq!(load_layout_request("f", Ok(snapshot(0)), &[], &[]), Err(version));
    assert!(matches!(
        layout_match_response("f", Ok(snapshot(1)), &[]),
        Ok(ClientResponseData::LayoutMatch(report)) if report.matched.is_empty()
    ));
    assert!(load_layout_request("f", Ok(snapshot(1)), &[], &[]).is_ok());
}

#[test]
fn subscriptions_send_what_was_named() {
    let named = Subscription { id: 4, events: vec![SubscribableEvent::FocusChanged] };
    match named.on_signal(SubscriptionSignal::Event(WmEvent::FocusChanged)) {
        SubscriptionStep::Send(ServerMessage::EventSubscription(message)) => {
            assert_eq!(message.subscription_id, 4);
            assert_eq!(message.data, Some(WmEvent::FocusChanged));
            assert_eq!(message.error, None);
            assert!(message.success);
        }
        other => panic!("unexpected {other:?}"),
    }
    let event = SubscriptionSignal::Event(WmEvent::MonitorAdded);
    assert_eq!(named.on_signal(event), SubscriptionStep::Stay);
    let all = Subscription { id: 5, events: vec![SubscribableEvent::All] };
    assert!(matches!(all.on_signal(event), SubscriptionStep::Send(_)));
    assert_eq!(named.on_signal(SubscriptionSignal::Unsubscribed(5)), SubscriptionStep::Stay);
    assert_eq!(named.on_signal(SubscriptionSignal::Unsubscribed(4)), SubscriptionStep::Stop);
    assert_eq!(named.on_signal(SubscriptionSignal::Disconnected), SubscriptionStep::Stop);
    assert_eq!(named.on_signal(SubscriptionSignal::SendFailed), SubscriptionStep::Stop);
    assert_eq!(
        process_event(&WmEvent::PauseChanged { is_paused: true }),
        SubscribableEvent::PauseChanged
    );
}

#[test]
fn subscriptions_get_random_ids() {
    let made = Subscription::subscribe(vec![SubscribableEvent::All]);
    assert_eq!((made.id >> 76) & 0xf, 4);
    assert_eq!((made.id >> 62) & 0x3, 2);
    assert_ne!(made.id, Subscription::subscribe(vec![]).id);
    assert!(matches!(
        made.response(),
        ClientResponseData::EventSubscribe(data) if data.subscription_id == made.id
    ));
}

#[test]
fn events_are_handled_in_order() {
    let pending = StartupLayout::new(
        "l".to_string(),
        Some(LoadLayoutSummary { unmatched_snapshot: 1, ..LoadLayoutSummary::default() }),
    );
    let settled = StartupLayout::new("l".to_string(), None);
    let wm = LoopEvent::Wm(WmEvent::WindowManaged);
    assert_eq!(
        loop_steps(&wm, false, &pending),
        vec![LoopStep::WindowRetry, LoopStep::ScheduleSave, LoopStep::ForwardEvent]
    );
    assert_eq!(
        loop_steps(&wm, false, &settled),
        vec![LoopStep::ScheduleSave, LoopStep::ForwardEvent]
    );
    assert_eq!(drain_steps(&WmEvent::WindowManaged), vec![LoopStep::ForwardEvent]);
    let pause = WmEvent::PauseChanged { is_paused: true };
    let expected = vec![
        LoopStep::EnableMouse(false),
        LoopStep::RefreshListeners,
        LoopStep::ForwardEvent,
    ];
    assert_eq!(loop_steps(&LoopEvent::Wm(pause), true, &settled), expected);
    assert_eq!(drain_steps(&pause), expected);
    assert_eq!(loop_steps(&LoopEvent::RetryDue, false, &settled), vec![]);
    assert_eq!(loop_steps(&LoopEvent::RetryDue, false, &pending), vec![LoopStep::TimedRetry]);
    assert_eq!(loop_steps(&LoopEvent::CleanupDue, true, &settled), vec![]);
    assert_eq!(
        loop_steps(&LoopEvent::CleanupDue, false, &settled),
        vec![LoopStep::RemoveInvalidWindows]
    );
    assert_eq!(loop_steps(&LoopEvent::Interrupted, false, &settled), vec![LoopStep::Exit]);
    assert_eq!(loop_steps(&LoopEvent::SaveDue, false, &settled), vec![LoopStep::WriteLayout]);
}
