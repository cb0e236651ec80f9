use glaze_layout::app_command::{
    without_error_prefix, AppCommand, LogLevel, SubscribableEvent, Verbosity,
};
use glaze_layout::ipc::{
    clear_ipc_port_file, ipc_port, ipc_port_file_path, preferred_bind_port, to_client_response_msg,
    write_ipc_port_file, ClientResponseData, LoadLayoutData, ServerMessage, DEFAULT_IPC_PORT,
};
use glaze_layout::load_layout_snapshot::LoadLayoutSummary;

#[test]
fn port_file_stands_below_home() {
    assert_eq!(
        ipc_port_file_path(Some("/home/x")),
        Some("/home/x/.glzr/glazewm/ipc.port".to_string())
    );
    assert_eq!(ipc_port_file_path(None), None);
    assert_eq!(clear_ipc_port_file(Some("/h/")), Some("/h/.glzr/glazewm/ipc.port".to_string()));
}

#[test]
fn environment_names_the_port() {
    assert_eq!(preferred_bind_port(None), 6123);
    assert_eq!(preferred_bind_port(Some("7000")), 7000);
    assert_eq!(preferred_bind_port(Some("0")), DEFAULT_IPC_PORT);
    assert_eq!(preferred_bind_port(Some(" 7000")), DEFAULT_IPC_PORT);
    assert_eq!(ipc_port(Some("7000"), Some("7001\n")), 7000);
    assert_eq!(ipc_port(Some("x"), Some(" 7001\r\n")), 7001);
    assert_eq!(ipc_port(None, Some("0\n")), DEFAULT_IPC_PORT);
    assert_eq!(ipc_port(None, None), DEFAULT_IPC_PORT);
}

#[test]
fn clients_find_the_written_port() {
    let write = write_ipc_port_file(Some("/h"), 6125).unwrap();
    assert_eq!(write.path, "/h/.glzr/glazewm/ipc.port");
    assert_eq!(write.contents, "6125\n");
    assert_eq!(ipc_port(None, Some(&write.contents)), 6125);
    assert_eq!(write_ipc_port_file(None, 1), Err("no home directory".to_string()));
}

#[test]
fn answers_carry_data_or_error() {
    match to_client_response_msg("m".to_string(), Ok(ClientResponseData::Paused(true))) {
        ServerMessage::ClientResponse(r) => {
            assert_eq!(r.client_message, "m");
            assert_eq!(r.data, Some(ClientResponseData::Paused(true)));
            assert_eq!(r.error, None);
            assert!(r.success);
        }
        other => panic!("unexpected {other:?}"),
    }
    match to_client_response_msg("m".to_string(), Err("no".to_string())) {
        ServerMessage::ClientResponse(r) => {
            assert_eq!(r.data, None);
            assert_eq!(r.error, Some("no".to_string()));
            assert!(!r.success);
        }
        other => panic!("unexpected {other:?}"),
    }
}

#[test]
fn clients_are_told_part_of_the_summary() {
    let summary = LoadLayoutSummary {
        matched: 1,
        unmatched_snapshot: 2,
        unmatched_live: 3,
        state_updates: 4,
        workspace_moves: 5,
        tiling_trees_restored: 6,
        tiling_windows_placed: 7,
    };
    assert_eq!(
        LoadLayoutData::from_summary(&summary),
        LoadLayoutData {
            matched: 1,
            unmatched_snapshot: 2,
            unmatched_live: 3,
            workspace_moves: 5,
            state_updates: 4,
        }
    );
}

#[test]
fn verbosity_sets_the_level() {
    assert_eq!(Verbosity { verbose: true, quiet: true }.level(), LogLevel::Debug);
    assert_eq!(Verbosity { verbose: false, quiet: true }.level(), LogLevel::Error);
    assert_eq!(Verbosity { verbose: false, quiet: false }.level(), LogLevel::Info);
}

#[test]
fn bare_command_line_starts_the_manager() {
    let bare: Option<AppCommand<u8>> =
        AppCommand::parse_with_default(&vec!["glazewm".to_string()]);
    assert_eq!(
        bare,
        Some(AppCommand::Start {
            config_path: None,
            verbosity: Verbosity { verbose: false, quiet: false }
        })
    );
    let more: Option<AppCommand<u8>> =
        AppCommand::parse_with_default(&vec!["glazewm".to_string(), "sub".to_string()]);
    assert_eq!(more, None);
    assert_ne!(SubscribableEvent::All, SubscribableEvent::WindowManaged);
}

#[test]
fn parse_errors_lose_their_prefix() {
    assert_eq!(without_error_prefix("error: bad value"), "bad value");
    assert_eq!(without_error_prefix("error: error: x"), "x");
    assert_eq!(without_error_prefix("fine"), "fine");
}
