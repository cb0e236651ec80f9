use glaze_layout::dto::{Rect, TilingDirection, TilingSize};
use glaze_layout::layout_snapshot::{
    LayoutSnapshot, SnapshotBounds, SnapshotMonitor, SnapshotNode, SnapshotNodeKind,
    SnapshotWindow, SnapshotWindowIdentity, SnapshotWorkspace, LAYOUT_SNAPSHOT_VERSION,
};
use glaze_layout::layout_snapshot_tree::LayoutPlanNode;
use glaze_layout::load_layout_snapshot::{
    collect_snapshot_leaves, inspect_layout_snapshot, load_layout_snapshot, place_workspace,
    target_bounds, LiveWindow, LoadLayoutSummary, RestorePair, WorkspacePlacement, WorkspaceTarget,
};
use glaze_layout::monitor_match::{match_monitors, monitor_score, LiveMonitor};
use glaze_layout::placement::relative_placement;
use glaze_layout::restore_tiling::{
    child_focus_order, container_for, detach_step, first_focus, flatten_order,
    missing_window_message, plan_attach, plan_sizes, should_flatten_again, split_focus_orders,
    AttachKind, DetachCandidate, DetachStep, LocalContainer,
};
use glaze_layout::restore_window::{next_restore_action, RestoreAction, RestorePhase};
use glaze_layout::snapshot_leaves::SnapshotLeaf;
use glaze_layout::window_state::{FloatingStateConfig, WindowState};

fn size(value: f32) -> TilingSize {
    TilingSize::from_bits(value.to_bits())
}

fn saved_window(name: &str, state: WindowState) -> SnapshotWindow {
    SnapshotWindow {
        identity: SnapshotWindowIdentity {
            process_path: Some(format!("C:\\Apps\\{name}.exe")),
            process_name: name.to_string(),
            class_name: None,
            title_hint: Some(name.to_string()),
        },
        state,
        prev_state: None,
        floating_placement: None,
        floating_placement_relative: None,
        id: None,
        handle: None,
    }
}

fn window_node(local_id: &str, name: &str, state: WindowState) -> SnapshotNode {
    SnapshotNode {
        local_id: local_id.to_string(),
        kind: SnapshotNodeKind::Window,
        tiling_size: Some(size(0.5)),
        tiling_direction: None,
        children: None,
        child_focus_order: None,
        window: Some(saved_window(name, state)),
        id: None,
    }
}

fn split_node(local_id: &str, direction: TilingDirection, children: Vec<SnapshotNode>) -> SnapshotNode {
    SnapshotNode {
        local_id: local_id.to_string(),
        kind: SnapshotNodeKind::Split,
        tiling_size: Some(size(0.25)),
        tiling_direction: Some(direction),
        children: Some(children),
        child_focus_order: Some(vec![]),
        window: None,
        id: None,
    }
}

fn workspace(name: &str, children: Vec<SnapshotNode>) -> SnapshotWorkspace {
    SnapshotWorkspace {
        name: name.to_string(),
        tiling_direction: TilingDirection::Horizontal,
        child_focus_order: vec![],
        root: split_node("root", TilingDirection::Horizontal, children),
        id: None,
    }
}

fn monitor(device: &str, focused: Option<&str>, workspaces: Vec<SnapshotWorkspace>) -> SnapshotMonitor {
    SnapshotMonitor {
        hardware_id: None,
        device_path: None,
        device_name: device.to_string(),
        bounds: SnapshotBounds { x: 0, y: 0, width: 0, height: 0 },
        focused_workspace_name: focused.map(String::from),
        workspaces,
        id: None,
    }
}

fn snapshot(monitors: Vec<SnapshotMonitor>) -> LayoutSnapshot {
    LayoutSnapshot {
        version: LAYOUT_SNAPSHOT_VERSION,
        captured_at: "t".to_string(),
        glazewm_version: None,
        paused: false,
        binding_modes: vec![],
        monitors,
        ignored_windows: vec![],
    }
}

fn live_monitor(id: u128, device: &str) -> LiveMonitor {
    LiveMonitor {
        id,
        device_name: device.to_string(),
        hardware_id: None,
        device_path: None,
        bounds: Rect::from_xy(5000, 5000, 10, 10),
    }
}

fn live_window(id: u128, name: &str, workspace: Option<&str>) -> LiveWindow {
    LiveWindow {
        id,
        process_path: Some(format!("c:\\apps\\{name}.exe")),
        process_name: name.to_string(),
        class_name: String::new(),
        title: name.to_string(),
        workspace: workspace.map(String::from),
    }
}

#[test]
fn monitors_match_by_hardware_before_name() {
    let mut saved = monitor("DISPLAY1", None, vec![]);
    saved.hardware_id = Some("HW1".to_string());
    let mut by_hardware = live_monitor(1, "other");
    by_hardware.hardware_id = Some("hw1".to_string());
    let by_name = live_monitor(2, "display1");
    assert_eq!(monitor_score(&saved, &by_hardware), 100);
    assert_eq!(monitor_score(&saved, &by_name), 40);
    saved.bounds = SnapshotBounds { x: 5000, y: 5000, width: 10, height: 10 };
    assert_eq!(monitor_score(&saved, &by_name), 60);
    saved.bounds = SnapshotBounds { x: 5005, y: 5005, width: 100, height: 100 };
    assert_eq!(monitor_score(&saved, &by_name), 45);
    saved.device_path = Some("P".to_string());
    by_hardware.device_path = Some("p".to_string());
    assert_eq!(monitor_score(&saved, &by_hardware), 185);
    assert_eq!(match_monitors(&[saved], &[by_name, by_hardware]), vec![(0, 1)]);
}

#[test]
fn equal_scores_take_the_last_monitor() {
    let saved = [monitor("D", None, vec![]), monitor("D", None, vec![])];
    let live = [live_monitor(1, "D"), live_monitor(2, "D")];
    assert_eq!(match_monitors(&saved, &live), vec![(0, 1), (1, 0)]);
}

#[test]
fn monitors_without_likeness_match_by_index() {
    let saved = [monitor("A", None, vec![]), monitor("B", None, vec![])];
    let live = [live_monitor(1, "X"), live_monitor(2, "Y")];
    assert_eq!(match_monitors(&saved, &live), vec![(0, 0), (1, 1)]);
    assert_eq!(match_monitors(&saved, &live[..1]), Vec::<(usize, usize)>::new());
}

#[test]
fn leaves_of_unmatched_monitors_come_last() {
    let saved = [
        monitor("A", None, vec![workspace("1", vec![window_node("n0", "a", WindowState::Tiling)])]),
        monitor("B", None, vec![workspace("2", vec![window_node("n0", "b", WindowState::Tiling)])]),
    ];
    let keys = |pairs: &[(usize, usize)]| -> Vec<String> {
        collect_snapshot_leaves(&saved, pairs).into_iter().map(|l| l.key).collect()
    };
    assert_eq!(keys(&[(1, 0)]), vec!["2::n0::0", "1::n0::0"]);
    assert_eq!(keys(&[]), vec!["1::n0::0", "2::n0::0"]);
}

fn sample() -> LayoutSnapshot {
    snapshot(vec![
        monitor(
            "D1",
            Some("1"),
            vec![
                workspace(
                    "2",
                    vec![
                        window_node("n0", "editor", WindowState::Tiling),
                        window_node("n1", "gone", WindowState::Tiling),
                        window_node("n2", "term", WindowState::Tiling),
                    ],
                ),
                workspace("1", vec![window_node("n0", "browser", WindowState::Minimized)]),
            ],
        ),
        monitor("D2", None, vec![workspace("3", vec![])]),
    ])
}

#[test]
fn whole_restore_is_planned() {
    let live = [
        live_window(10, "term", Some("2")),
        live_window(11, "browser", None),
        live_window(12, "editor", Some("9")),
        live_window(13, "stranger", Some("9")),
    ];
    let monitors = [live_monitor(1, "D1"), live_monitor(2, "D2")];
    let plan = load_layout_snapshot(&sample(), &monitors, &live).unwrap();
    assert_eq!(plan.monitors, vec![(0, 0), (1, 1)]);
    // Windows come by workspace name, then by position.
    assert_eq!(
        plan.pairs,
        vec![
            RestorePair { leaf: 3, live_id: 11 },
            RestorePair { leaf: 0, live_id: 12 },
            RestorePair { leaf: 2, live_id: 10 },
        ]
    );
    assert_eq!(
        plan.summary,
        LoadLayoutSummary {
            matched: 3,
            unmatched_snapshot: 1,
            unmatched_live: 1,
            ..LoadLayoutSummary::default()
        }
    );
    let target = |name: &str, monitor| WorkspaceTarget { workspace_name: name.to_string(), monitor };
    // The empty workspace has a target too.
    assert_eq!(plan.workspace_targets, vec![target("2", 0), target("1", 0), target("3", 1)]);
    assert_eq!(plan.focus, vec![target("1", 0)]);
    assert_eq!(plan.tiling.len(), 1);
    assert_eq!(plan.tiling[0].plan.workspace_name, "2");
    assert_eq!(plan.tiling[0].plan.window_local_ids(), vec!["n0", "n2"]);
    assert_eq!(container_for(&plan.tiling[0].windows, "n0"), Some(12));
    assert_eq!(container_for(&plan.tiling[0].windows, "n2"), Some(10));
    assert_eq!(container_for(&plan.tiling[0].windows, "n1"), None);
}

#[test]
fn other_versions_are_not_planned() {
    let mut other = sample();
    other.version = 2;
    let message = "Unsupported layout snapshot version 2 (expected 1).".to_string();
    assert_eq!(load_layout_snapshot(&other, &[], &[]), Err(message.clone()));
    assert_eq!(inspect_layout_snapshot(&other, &[]), Err(message));
}

#[test]
fn inspection_reports_moves() {
    let report =
        inspect_layout_snapshot(&sample(), &[live_window(12, "editor", Some("9"))]).unwrap();
    assert_eq!(report.matched.len(), 1);
    assert_eq!(report.matched[0].live.key, "00000000-0000-0000-0000-00000000000c");
    let planned = report.matched[0].planned_workspace_move.as_ref().unwrap();
    assert_eq!(planned.from.as_deref(), Some("9"));
    assert_eq!(planned.to, "2");
    assert_eq!(report.unmatched_snapshot.len(), 3);
}

#[test]
fn workspaces_are_placed() {
    assert_eq!(place_workspace(None, 1), Ok(WorkspacePlacement::Activate));
    assert_eq!(place_workspace(Some(Some(2)), 1), Ok(WorkspacePlacement::Move));
    assert_eq!(place_workspace(Some(Some(1)), 1), Ok(WorkspacePlacement::Stay));
    assert_eq!(place_workspace(Some(None), 1), Err("Workspace has no monitor.".to_string()));
}

#[test]
fn summary_counts_what_was_done() {
    let s = LoadLayoutSummary::default()
        .count_action(RestoreAction::MoveToWorkspace)
        .count_action(RestoreAction::UpdateState(WindowState::Tiling))
        .count_action(RestoreAction::UpdateState(WindowState::Minimized))
        .count_action(RestoreAction::SetPreviousState(WindowState::Tiling))
        .count_action(RestoreAction::Done)
        .count_tree(4);
    assert_eq!(
        s,
        LoadLayoutSummary {
            workspace_moves: 1,
            state_updates: 2,
            tiling_trees_restored: 1,
            tiling_windows_placed: 4,
            ..LoadLayoutSummary::default()
        }
    );
}

fn leaf(state: WindowState, prev: Option<WindowState>, placement: Option<Rect>) -> SnapshotLeaf {
    let mut window = saved_window("app", state);
    window.prev_state = prev;
    window.floating_placement = placement;
    SnapshotLeaf {
        key: "1::n0::0".to_string(),
        local_id: "n0".to_string(),
        window,
        workspace_name: "1".to_string(),
        order_index: 0,
    }
}

/// Carries out every action on a window and lists them.
fn restored(leaf: &SnapshotLeaf, workspace: &str, state: WindowState) -> Vec<RestoreAction> {
    let mut phase = RestorePhase::Workspace;
    let mut workspace = workspace.to_string();
    let mut state = state;
    let mut actions = vec![];
    loop {
        let (after, action) = next_restore_action(phase, leaf, &workspace, state, None);
        phase = after;
        match action {
            RestoreAction::MoveToWorkspace => workspace = leaf.workspace_name.clone(),
            RestoreAction::UpdateState(to) => state = to,
            RestoreAction::Done => return actions,
            _ => {}
        }
        actions.push(action);
    }
}

fn floating(centered: bool) -> WindowState {
    WindowState::Floating(FloatingStateConfig { centered, shown_on_top: false })
}

#[test]
fn minimized_window_returns_to_its_saved_state() {
    let saved = leaf(WindowState::Minimized, Some(floating(true)), None);
    assert_eq!(
        restored(&saved, "2", WindowState::Tiling),
        vec![
            RestoreAction::MoveToWorkspace,
            RestoreAction::UpdateState(floating(true)),
            RestoreAction::UpdateState(WindowState::Minimized),
            RestoreAction::SetPreviousState(floating(true)),
        ]
    );
    assert_eq!(
        restored(&saved, "1", WindowState::Minimized),
        vec![RestoreAction::SetPreviousState(floating(true))]
    );
}

#[test]
fn options_of_a_state_are_restored() {
    let rect = Rect::from_xy(1, 2, 30, 40);
    let saved = leaf(floating(false), None, Some(rect));
    assert_eq!(
        restored(&saved, "1", floating(true)),
        vec![RestoreAction::UpdateState(floating(false)), RestoreAction::PlaceFloating(rect)]
    );
    assert_eq!(restored(&saved, "1", floating(false)), vec![RestoreAction::PlaceFloating(rect)]);
    let tiling = leaf(WindowState::Tiling, None, Some(rect));
    assert_eq!(restored(&tiling, "1", WindowState::Tiling), vec![]);
}

#[test]
fn planned_windows_are_detached() {
    let candidate = |is_tiling, has_parent| Some(DetachCandidate { is_tiling, has_parent });
    assert_eq!(detach_step(candidate(true, true), false), Ok(DetachStep::Detach));
    assert_eq!(detach_step(candidate(true, false), false), Ok(DetachStep::Keep));
    assert_eq!(detach_step(candidate(false, true), false), Ok(DetachStep::ForceTiling));
    assert_eq!(detach_step(candidate(false, true), true), Ok(DetachStep::Skip));
    assert_eq!(detach_step(None, false), Ok(DetachStep::Skip));
    assert_eq!(
        detach_step(None, true),
        Err("Window missing after forcing tiling.".to_string())
    );
}

#[test]
fn deepest_splits_are_flattened_first() {
    assert_eq!(flatten_order(&[1, 3, 2, 3]), vec![1, 3, 2, 0]);
    assert!(should_flatten_again(3, 2));
    assert!(!should_flatten_again(3, 3));
    assert!(!should_flatten_again(3, 0));
}

fn nested_plan() -> glaze_layout::layout_snapshot_tree::WorkspaceLayoutPlan {
    let mut inner = split_node(
        "n1",
        TilingDirection::Vertical,
        vec![
            window_node("n2", "b", WindowState::Tiling),
            window_node("n3", "c", WindowState::Tiling),
        ],
    );
    inner.child_focus_order = Some(vec!["n3".to_string(), "gone".to_string()]);
    let ws = workspace("1", vec![window_node("n0", "a", WindowState::Tiling), inner]);
    let ids = ["n0", "n2", "n3"].map(String::from);
    glaze_layout::layout_snapshot_tree::plan_workspace_tiling_layout(&ws, &ids)
}

#[test]
fn splits_are_attached_before_their_children() {
    let plan = nested_plan();
    let detached = ["n0", "n2", "n3", "spare"].map(String::from);
    let attach = plan_attach(&plan, &detached);
    assert_eq!(attach.missing, None);
    assert_eq!(attach.left_over, 1);
    let steps: Vec<_> =
        attach.steps.iter().map(|s| (s.parent, s.index, s.local_id.as_str(), s.kind)).collect();
    assert_eq!(
        steps,
        vec![
            (None, 0, "n0", AttachKind::Window),
            (None, 1, "n1", AttachKind::Split(TilingDirection::Vertical)),
            (Some(1), 0, "n2", AttachKind::Window),
            (Some(1), 1, "n3", AttachKind::Window),
        ]
    );
    let broken = plan_attach(&plan, &["n0".to_string(), "n3".to_string()]);
    assert_eq!(broken.missing, Some("n2".to_string()));
    assert_eq!(broken.steps.len(), 2);
    assert_eq!(broken.left_over, 1);
    assert_eq!(missing_window_message("n2"), "Detached window 'n2' missing during attach.");
}

#[test]
fn sizes_come_by_siblings() {
    let plan = nested_plan();
    let groups: Vec<Vec<(String, f32)>> = plan_sizes(&plan)
        .into_iter()
        .map(|g| {
            g.into_iter().map(|n| (n.local_id, f32::from_bits(n.tiling_size.bits))).collect()
        })
        .collect();
    assert_eq!(
        groups,
        vec![
            vec![("n0".to_string(), 2.0 / 3.0), ("n1".to_string(), 1.0 / 3.0)],
            vec![("n2".to_string(), 0.5), ("n3".to_string(), 0.5)],
        ]
    );
    assert!(matches!(plan.children[0], LayoutPlanNode::Window { .. }));
}

#[test]
fn focus_goes_to_recorded_children_first() {
    let plan = nested_plan();
    let orders = split_focus_orders(&plan);
    assert_eq!(orders.len(), 1);
    assert_eq!(orders[0].local_id, "n1");
    assert_eq!(orders[0].child_focus_order, vec!["n3"]);
    let local = |id: &str, container| LocalContainer { local_id: id.to_string(), id: container };
    let containers = [local("n0", 5), local("n1", 6), local("n2", 7)];
    let wanted = ["n1", "gone", "n2", "n1"].map(String::from);
    assert_eq!(child_focus_order(&[4, 5, 6], &wanted, &containers), vec![6, 4, 5]);
    assert_eq!(first_focus(&plan, &containers), Some(5));
    assert_eq!(first_focus(&plan, &[]), None);
}

#[test]
fn floating_window_follows_its_monitor() {
    let saved_monitor = Rect::from_xy(0, 0, 3840, 2160);
    let monitor = Rect::from_xy(1920, 0, 1920, 1080);
    let rect = Rect::from_xy(960, 540, 1920, 1080);
    let mut saved = leaf(floating(false), None, Some(rect));
    let action = |saved: &SnapshotLeaf, bounds| {
        next_restore_action(RestorePhase::Placement, saved, "1", floating(false), bounds).1
    };
    assert_eq!(action(&saved, Some(monitor)), RestoreAction::PlaceFloating(rect));
    saved.window.floating_placement_relative = relative_placement(rect, saved_monitor);
    assert_eq!(action(&saved, None), RestoreAction::PlaceFloating(rect));
    assert_eq!(
        action(&saved, Some(monitor)),
        RestoreAction::PlaceFloating(Rect::from_xy(2400, 270, 960, 540))
    );
    assert_eq!(action(&saved, Some(saved_monitor)), RestoreAction::PlaceFloating(rect));
}

#[test]
fn bounds_are_those_of_the_matched_monitor() {
    let monitor = |x: i32| LiveMonitor {
        id: 7,
        device_name: "DISPLAY".to_string(),
        hardware_id: None,
        device_path: None,
        bounds: Rect::from_xy(x, 0, 1920, 1080),
    };
    let target = |name: &str, monitor| WorkspaceTarget {
        workspace_name: name.to_string(),
        monitor,
    };
    let monitors = [monitor(0), monitor(1920)];
    let targets = [target("1", 1), target("2", 0), target("3", 5)];
    assert_eq!(target_bounds(&targets, &monitors, "1"), Some(Rect::from_xy(1920, 0, 1920, 1080)));
    assert_eq!(target_bounds(&targets, &monitors, "2"), Some(Rect::from_xy(0, 0, 1920, 1080)));
    assert_eq!(target_bounds(&targets, &monitors, "3"), None);
    assert_eq!(target_bounds(&targets, &monitors, "4"), None);
}

#[test]
fn missing_windows_are_reported_for_every_workspace() {
    let saved = snapshot(vec![monitor(
        "D1",
        None,
        vec![
            workspace(
                "2",
                vec![
                    window_node("n0", "editor", WindowState::Tiling),
                    window_node("n1", "gone", WindowState::Tiling),
                    window_node("n2", "floater", floating(false)),
                ],
            ),
            // Nothing is left to tile here.
            workspace("1", vec![window_node("n0", "lost", WindowState::Tiling)]),
        ],
    )]);
    let live = [live_window(12, "editor", Some("9"))];
    let plan = load_layout_snapshot(&saved, &[live_monitor(1, "D1")], &live).unwrap();
    assert_eq!(plan.tiling.len(), 1);
    let messages: Vec<String> = plan.missing.iter().map(|m| m.message()).collect();
    assert_eq!(
        messages,
        vec![
            "Layout restore: skipping missing tiling window 'gone' (n1) on workspace '2'",
            "Layout restore: skipping missing tiling window 'lost' (n0) on workspace '1'",
        ]
    );
}

#[test]
fn restore_is_logged_at_both_ends() {
    let plan = load_layout_snapshot(&sample(), &[], &[]).unwrap();
    assert_eq!(plan.begin_message(), "restore begin: snapshot monitors=2, version=1");
    let summary = LoadLayoutSummary {
        matched: 1,
        unmatched_snapshot: 2,
        unmatched_live: 3,
        state_updates: 4,
        workspace_moves: 5,
        tiling_trees_restored: 6,
        tiling_windows_placed: 7,
    };
    assert_eq!(
        summary.message(),
        "Layout snapshot load summary: matched=1, unmatched_snapshot=2, unmatched_live=3, \
         workspace_moves=5, state_updates=4, tiling_trees_restored=6, tiling_windows_placed=7"
    );
}

#[test]
fn window_is_moved_at_most_once() {
    let saved = leaf(floating(true), Some(WindowState::Tiling), None);
    let moves = |workspace: &str| {
        restored(&saved, workspace, WindowState::Minimized)
            .into_iter()
            .filter(|a| *a == RestoreAction::MoveToWorkspace)
            .count()
    };
    assert_eq!(moves("1"), 0);
    assert_eq!(moves("2"), 1);
    // A move that has no effect is not tried again.
    let (phase, action) =
        next_restore_action(RestorePhase::Workspace, &saved, "2", floating(true), None);
    assert_eq!(action, RestoreAction::MoveToWorkspace);
    let (_, again) = next_restore_action(phase, &saved, "2", floating(true), None);
    assert_ne!(again, RestoreAction::MoveToWorkspace);
}
