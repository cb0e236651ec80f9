use std::time::{Duration, UNIX_EPOCH};

use glaze_layout::layout_persistence::{
    debug_log_step, layout_debug_log, layout_debug_log_path, layout_debug_log_path_from_config_path,
    layout_snapshot_path, layout_snapshot_path_from_config_path, load_attempt_message,
    load_success_message, persisted_text, restore_failed_message, set_layout_debug_log_path,
    sync_failed_message, try_load_persisted_layout_snapshot, FlushStep, LayoutAutoSave, LayoutDebugLog, LogStep,
    PersistedFile, RetryStep, ScheduleOutcome, StartupLayout, UserConfig,
    LAYOUT_AUTO_SAVE_DEBOUNCE, LAYOUT_DEBUG_LOG_MAX_BYTES, STARTUP_LAYOUT_RETRIES,
};
use glaze_layout::layout_snapshot::{LayoutSnapshot, LAYOUT_SNAPSHOT_VERSION};
use glaze_layout::load_layout_snapshot::LoadLayoutSummary;
use glaze_layout::wm_event::{
    enabled_mouse_events, listener_update, wm_event_affects_layout_snapshot, wm_event_kind_name,
    ListenerUpdate, MouseEventKind, WmEvent,
};

#[test]
fn layout_path_joins_beside_config_yaml() {
    let config = r"C:\Users\example\.glzr\glazewm\config.yaml";
    assert_eq!(
        layout_snapshot_path_from_config_path(config),
        r"C:\Users\example\.glzr\glazewm\layout.json"
    );
}

#[test]
fn layout_path_works_with_unix_style_config() {
    let config = "/home/user/.glzr/glazewm/config.yaml";
    assert_eq!(
        layout_snapshot_path_from_config_path(config),
        "/home/user/.glzr/glazewm/layout.json"
    );
}

#[test]
fn layout_debug_log_path_joins_beside_config() {
    let config = r"C:\Users\example\.glzr\glazewm\config.yaml";
    assert_eq!(
        layout_debug_log_path_from_config_path(config),
        r"C:\Users\example\.glzr\glazewm\layout.log"
    );
}

#[test]
fn debounce_constant_is_five_seconds() {
    assert_eq!(Duration::from_secs(LAYOUT_AUTO_SAVE_DEBOUNCE), Duration::from_secs(5));
}

#[test]
fn auto_save_ignores_schedule_while_disabled() {
    let mut auto = LayoutAutoSave::new("layout.json".to_string());
    assert!(!auto.enabled());
    auto.schedule(&WmEvent::ApplicationExiting, 0);
    assert!(!auto.is_armed());
    auto.enable();
    assert!(auto.enabled());
    assert!(!auto.is_armed());
    // Which events ask for a save is for the caller to decide.
    auto.schedule(&WmEvent::ApplicationExiting, 0);
    assert!(auto.is_armed());
}

#[test]
fn non_layout_events_do_not_affect_snapshot_gate() {
    assert!(!wm_event_affects_layout_snapshot(&WmEvent::ApplicationExiting));
    assert!(!wm_event_affects_layout_snapshot(&WmEvent::PauseChanged { is_paused: true }));
}

#[test]
fn missing_layout_file_is_detectable_without_wm() {
    assert_eq!(
        persisted_text("a/layout.json", PersistedFile::Missing),
        Err("startup load: no file at a/layout.json; using default layout behaviour".to_string())
    );
}

#[test]
fn empty_layout_file_trim_gate() {
    let text = "   \n".to_string();
    assert_eq!(
        persisted_text("layout.json", PersistedFile::Text(text)),
        Err("startup load: layout.json is empty; using default layout behaviour".to_string())
    );
}

#[test]
fn layout_debug_log_appends_when_path_set() {
    let mut log = LayoutDebugLog { path: None };
    let now = UNIX_EPOCH + Duration::from_secs(1_700_000_000);
    assert_eq!(layout_debug_log(&log, "unit-test line", now, None), LogStep::Skip);
    set_layout_debug_log_path(&mut log, "d/layout.log".to_string());
    match layout_debug_log(&log, "unit-test line", now, None) {
        LogStep::Append { path, backup, line } => {
            assert_eq!(path, "d/layout.log");
            assert_eq!(backup, None);
            assert!(line.contains("unit-test line"));
            assert_eq!(line, "[2023-11-14T22:13:20Z] unit-test line\n");
        }
        other => panic!("expected a line, got {other:?}"),
    }
}

#[test]
fn full_debug_log_is_rotated() {
    let log = LayoutDebugLog { path: Some("d/layout.log".to_string()) };
    let step = |size| match debug_log_step(&log, "m", "t", size) {
        LogStep::Append { backup, .. } => backup,
        LogStep::Skip => None,
    };
    assert_eq!(step(Some(LAYOUT_DEBUG_LOG_MAX_BYTES - 1)), None);
    assert_eq!(step(Some(2 * 1024 * 1024)), Some("d/layout.log.1".to_string()));
}

#[test]
fn paths_come_from_active_configuration() {
    let config = UserConfig { path: "/etc/wm/config.yaml".to_string() };
    assert_eq!(layout_snapshot_path(&config), "/etc/wm/layout.json");
    assert_eq!(layout_debug_log_path(&config), "/etc/wm/layout.log");
}

#[test]
fn burst_of_events_saves_once_after_the_last() {
    let mut auto = LayoutAutoSave::new("layout.json".to_string());
    assert_eq!(auto.path(), "layout.json");
    assert_eq!(auto.enable(), "auto-save enabled (debounce 5s) -> layout.json");
    let first = auto.schedule(&WmEvent::WindowManaged, 1_000);
    assert_eq!(first.0, ScheduleOutcome::Scheduled);
    assert_eq!(first.1, "auto-save scheduled; event=WindowManaged; quiet=5s");
    assert_eq!(auto.due(), Some(6_000));
    let second = auto.schedule(&WmEvent::WorkspaceUpdated, 4_000);
    assert_eq!(second.0, ScheduleOutcome::Coalesced);
    assert_eq!(second.1, "auto-save debounce coalesced; event=WorkspaceUpdated; quiet=5s");
    assert_eq!(auto.due(), Some(9_000));
    assert_eq!(
        auto.flush(2, 7),
        FlushStep::Write {
            path: "layout.json".to_string(),
            message: "auto-save debounce fired; writing layout.json (workspaces=2, windows=7)"
                .to_string(),
        }
    );
    assert!(!auto.is_armed());
    assert_eq!(
        auto.flush_result(None, 2, 7),
        "auto-save success -> layout.json (workspaces=2, windows=7)"
    );
    assert_eq!(auto.flush_result(Some("disk full"), 2, 7), "auto-save failed -> layout.json: disk full");
}

#[test]
fn disabled_auto_save_neither_schedules_nor_writes() {
    let mut auto = LayoutAutoSave::new("layout.json".to_string());
    let outcome = auto.schedule(&WmEvent::MonitorAdded, 10);
    assert_eq!(outcome.0, ScheduleOutcome::Suppressed);
    assert_eq!(
        outcome.1,
        "auto-save suppressed (startup drain / disabled); event=MonitorAdded"
    );
    assert_eq!(
        auto.flush(1, 1),
        FlushStep::Skip { message: "auto-save flush skipped (disabled)".to_string() }
    );
}

fn summary(unmatched_snapshot: usize) -> LoadLayoutSummary {
    LoadLayoutSummary { matched: 3, unmatched_snapshot, ..LoadLayoutSummary::default() }
}

#[test]
fn startup_retries_run_out_and_allow_saving() {
    let mut startup = StartupLayout::new("layout.json".to_string(), Some(summary(1)));
    assert_eq!(startup.retries_left(), STARTUP_LAYOUT_RETRIES);
    assert!(!startup.auto_save().enabled());
    assert!(startup.should_retry_on(&WmEvent::WindowManaged));
    assert!(!startup.should_retry_on(&WmEvent::WindowUnmanaged));
    assert_eq!(startup.window_try(Some(summary(1))), RetryStep::Wait);
    assert_eq!(startup.retries_left(), 4);
    assert_eq!(startup.timed_try(Some(summary(1))), RetryStep::Wait);
    assert_eq!(startup.timed_try(Some(summary(1))), RetryStep::Wait);
    assert_eq!(startup.timed_try(Some(summary(1))), RetryStep::Wait);
    assert_eq!(startup.retries_left(), 1);
    let early = startup.observe(&WmEvent::WindowManaged, 0).unwrap();
    assert_eq!(early.0, ScheduleOutcome::Suppressed);
    assert_eq!(startup.timed_try(Some(summary(1))), RetryStep::Settled);
    assert!(startup.auto_save().enabled());
    assert!(!startup.should_retry_on(&WmEvent::WindowManaged));
    let later = startup.observe(&WmEvent::WindowManaged, 0).unwrap();
    assert_eq!(later.0, ScheduleOutcome::Scheduled);
    assert!(startup.observe(&WmEvent::FocusChanged, 0).is_none());
    assert!(matches!(startup.flush(1, 1), FlushStep::Write { .. }));
    assert!(!startup.auto_save().is_armed());
}

#[test]
fn startup_settles_once_everything_is_matched() {
    let mut late = StartupLayout::new("layout.json".to_string(), Some(summary(2)));
    assert_eq!(late.window_try(None), RetryStep::Wait);
    assert_eq!(late.window_try(Some(summary(0))), RetryStep::Settled);
    assert!(late.auto_save().enabled());

    let mut failed = StartupLayout::new("layout.json".to_string(), Some(summary(2)));
    assert_eq!(failed.timed_try(None), RetryStep::Settled);

    assert_eq!(StartupLayout::new("l".to_string(), None).retries_left(), 0);
    assert!(StartupLayout::new("l".to_string(), Some(summary(0))).auto_save().enabled());
}

fn empty_snapshot(version: u32) -> LayoutSnapshot {
    LayoutSnapshot {
        version,
        captured_at: "t".to_string(),
        glazewm_version: None,
        paused: false,
        binding_modes: vec![],
        monitors: vec![],
        ignored_windows: vec![],
    }
}

#[test]
fn persisted_layout_of_other_kind_leaves_default() {
    assert_eq!(load_attempt_message("l.json"), "startup load attempting from l.json");
    assert_eq!(
        persisted_text("l.json", PersistedFile::Unreadable { error: "denied".to_string() }),
        Err("startup load: failed to read l.json: denied; using default".to_string())
    );
    assert_eq!(persisted_text("l.json", PersistedFile::Text("{}".to_string())), Ok("{}".to_string()));
    assert_eq!(
        try_load_persisted_layout_snapshot("l.json", Err("bad".to_string()), &[], &[]),
        Err("startup load: parse failed for l.json: bad; using default".to_string())
    );
    assert_eq!(
        try_load_persisted_layout_snapshot("l.json", Ok(empty_snapshot(7)), &[], &[]),
        Err(
            "startup load: restore failed for l.json: Unsupported layout snapshot version 7 \
             (expected 1).; using default"
                .to_string()
        )
    );
    let plan =
        try_load_persisted_layout_snapshot("l.json", Ok(empty_snapshot(LAYOUT_SNAPSHOT_VERSION)), &[], &[])
            .unwrap();
    assert_eq!(plan.summary, LoadLayoutSummary::default());
    assert_eq!(
        restore_failed_message("l.json", "gone"),
        "startup load: restore failed for l.json: gone; using default"
    );
    assert_eq!(
        load_success_message("l.json", &summary(2)),
        "startup load success from l.json: matched=3, unmatched_snapshot=2, unmatched_live=0, \
         workspace_moves=0, state_updates=0, tiling_trees_restored=0, tiling_windows_placed=0"
    );
}

#[test]
fn event_names_and_listener_updates() {
    assert_eq!(wm_event_kind_name(&WmEvent::TilingDirectionChanged), "TilingDirectionChanged");
    assert_eq!(wm_event_kind_name(&WmEvent::PauseChanged { is_paused: false }), "PauseChanged");
    assert!(wm_event_affects_layout_snapshot(&WmEvent::MonitorUpdated));
    assert_eq!(
        listener_update(&WmEvent::PauseChanged { is_paused: true }),
        ListenerUpdate { mouse_enabled: Some(false), refresh: true }
    );
    assert_eq!(
        listener_update(&WmEvent::UserConfigChanged),
        ListenerUpdate { mouse_enabled: None, refresh: true }
    );
    assert_eq!(
        listener_update(&WmEvent::WindowManaged),
        ListenerUpdate { mouse_enabled: None, refresh: false }
    );
    assert_eq!(
        enabled_mouse_events(true),
        vec![MouseEventKind::Move, MouseEventKind::LeftButtonUp]
    );
    assert_eq!(enabled_mouse_events(false), vec![MouseEventKind::LeftButtonUp]);
}

#[test]
fn failed_sync_is_logged() {
    assert_eq!(
        sync_failed_message("no windows"),
        "platform_sync after persisted layout load failed: no windows"
    );
}
