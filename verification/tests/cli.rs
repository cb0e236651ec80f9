use std::path::Path;

use glaze_layout::app_command::{AppCommand, InvokeCommand, QueryCommand};
use glaze_layout::cli::{
    followed_subscription, layout_output_path, quote_path, request_message, use_of_layout,
    LayoutUse,
};
use glaze_layout::ipc::{ClientResponseData, EventSubscribeData};
use glaze_layout::ipc_args::split_ipc_args;
use glaze_layout::layout_snapshot::LayoutSnapshot;
use glaze_layout::save_layout_snapshot::{
    clipboard_file_name, clipboard_snapshot_text, copy_layout_snapshot_to_clipboard,
    read_layout_snapshot_file, save_layout_snapshot_with_dialog, write_failed_message,
    ClipboardError, SnapshotFileError,
};

#[test]
fn path_with_spaces_round_trips_for_all_path_bearing_commands() {
    let path = Path::new(r"C:\Users\mooto\AppData\Local\Temp\glazewm path test\snap.json");
    let quoted = quote_path(&path.display().to_string());
    let messages = [
        format!("load-layout {quoted}"),
        format!("inspect-layout {quoted}"),
        format!("query layout-match {quoted}"),
        format!("command load-layout {quoted}"),
    ];
    let expected = path.display().to_string();
    for msg in messages {
        let tokens = split_ipc_args(&msg).expect("tokenize");
        assert_eq!(tokens.last().map(String::as_str), Some(expected.as_str()), "{msg}");
    }
}

fn message(command: AppCommand<u8>, clipboard: Option<&str>) -> Result<String, String> {
    let args = ["glazewm", "sub", "-e", "all"].map(String::from);
    request_message(&command, &args, clipboard)
}

#[test]
fn commands_are_sent_with_quoted_paths() {
    let path = || "a b.json".to_string();
    assert_eq!(
        message(AppCommand::Query { command: QueryCommand::Layout { output: Some(path()) } }, None),
        Ok("query layout".to_string())
    );
    assert_eq!(message(AppCommand::SaveLayout { path: path() }, None), Ok("query layout".to_string()));
    assert_eq!(message(AppCommand::CopyLayout, None), Ok("query layout".to_string()));
    assert_eq!(
        message(AppCommand::LoadLayout { path: Some(path()), clipboard: false }, None),
        Ok("load-layout \"a b.json\"".to_string())
    );
    assert_eq!(
        message(AppCommand::LoadLayout { path: None, clipboard: true }, Some("/tmp/c.json")),
        Ok("load-layout /tmp/c.json".to_string())
    );
    assert_eq!(
        message(AppCommand::Query { command: QueryCommand::LayoutMatch { path: path() } }, None),
        Ok("query layout-match \"a b.json\"".to_string())
    );
    assert_eq!(
        message(AppCommand::InspectLayout { path: path() }, None),
        Ok("inspect-layout \"a b.json\"".to_string())
    );
    assert_eq!(
        message(
            AppCommand::Command {
                subject_container_id: None,
                command: InvokeCommand::LoadLayout { path: path() }
            },
            None
        ),
        Ok("command load-layout \"a b.json\"".to_string())
    );
    let with_id = message(
        AppCommand::Command {
            subject_container_id: Some(1),
            command: InvokeCommand::LoadLayout { path: path() },
        },
        None,
    )
    .unwrap();
    assert_eq!(
        with_id,
        "command --id 00000000-0000-0000-0000-000000000001 load-layout \"a b.json\""
    );
    assert_eq!(split_ipc_args(&with_id).unwrap().len(), 5);
    assert_eq!(
        message(
            AppCommand::Command { subject_container_id: None, command: InvokeCommand::Other(3) },
            None
        ),
        Ok("sub -e all".to_string())
    );
}

#[test]
fn missing_paths_are_errors() {
    assert_eq!(
        message(AppCommand::LoadLayout { path: None, clipboard: false }, None),
        Err("load-layout requires a path or --clipboard".to_string())
    );
    assert_eq!(
        message(AppCommand::LoadLayout { path: None, clipboard: true }, None),
        Err("internal: missing clipboard temp path".to_string())
    );
}

fn snapshot() -> LayoutSnapshot {
    LayoutSnapshot {
        version: 1,
        captured_at: "t".to_string(),
        glazewm_version: None,
        paused: false,
        binding_modes: vec![],
        monitors: vec![],
        ignored_windows: vec![],
    }
}

#[test]
fn layout_is_written_and_copied_where_asked() {
    let output: AppCommand<u8> =
        AppCommand::Query { command: QueryCommand::Layout { output: Some("o".to_string()) } };
    assert_eq!(layout_output_path(&output), Some("o".to_string()));
    let save: AppCommand<u8> = AppCommand::SaveLayout { path: "p".to_string() };
    assert_eq!(layout_output_path(&save), Some("p".to_string()));
    let copy: AppCommand<u8> = AppCommand::CopyLayout;
    assert_eq!(layout_output_path(&copy), None);

    let layout = Some(ClientResponseData::Layout(snapshot()));
    assert_eq!(
        use_of_layout(true, false, &layout, true),
        Ok(LayoutUse { write: true, copy: false })
    );
    assert_eq!(
        use_of_layout(false, true, &layout, true),
        Ok(LayoutUse { write: false, copy: true })
    );
    assert_eq!(
        use_of_layout(true, true, &None, false),
        Ok(LayoutUse { write: false, copy: false })
    );
    assert_eq!(
        use_of_layout(false, true, &Some(ClientResponseData::Paused(true)), true),
        Err("copy-layout expected layout data in IPC response.".to_string())
    );
    let subscribed =
        Some(ClientResponseData::EventSubscribe(EventSubscribeData { subscription_id: 8 }));
    assert_eq!(followed_subscription(&subscribed), Some(8));
    assert_eq!(followed_subscription(&layout), None);
}

#[test]
fn clipboard_and_files() {
    assert_eq!(
        copy_layout_snapshot_to_clipboard("{\u{e9}}", Ok(())),
        Ok("Copied layout snapshot to clipboard (4 bytes).".to_string())
    );
    assert_eq!(
        copy_layout_snapshot_to_clipboard("{}", Err(ClipboardError::NotOpened)),
        Err("Failed to open system clipboard.".to_string())
    );
    assert_eq!(
        copy_layout_snapshot_to_clipboard("{}", Err(ClipboardError::NotSet)),
        Err("Failed to set clipboard text.".to_string())
    );
    assert_eq!(clipboard_snapshot_text("  {\"a\":1}\n"), Ok("{\"a\":1}".to_string()));
    assert_eq!(
        clipboard_snapshot_text("hello"),
        Err("Clipboard does not look like layout snapshot JSON (expected '{').".to_string())
    );
    assert!(clipboard_snapshot_text("  ").is_err());
    assert_eq!(clipboard_file_name(12), "glazewm-clipboard-layout-12.json");
    assert_eq!(
        read_layout_snapshot_file("x", Err(SnapshotFileError::Unreadable)),
        Err("Failed to read x".to_string())
    );
    assert_eq!(
        read_layout_snapshot_file("x", Err(SnapshotFileError::Unparsable)),
        Err("Failed to parse x".to_string())
    );
    assert_eq!(read_layout_snapshot_file("x", Ok(snapshot())), Ok(snapshot()));
    assert_eq!(write_failed_message("x"), "Failed to write x");
    assert_eq!(save_layout_snapshot_with_dialog(None, "{}".to_string()), None);
    let write = save_layout_snapshot_with_dialog(Some("p".to_string()), "{}".to_string()).unwrap();
    assert_eq!((write.path.as_str(), write.contents.as_str()), ("p", "{}"));
}
