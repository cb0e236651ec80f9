use glaze_layout::dto::{Rect, TilingDirection, TilingSize};
use glaze_layout::layout_snapshot::{
    LayoutSnapshot, SnapshotBounds, SnapshotMonitor, SnapshotNode, SnapshotNodeKind,
    SnapshotWindow, SnapshotWindowIdentity, SnapshotWorkspace, LAYOUT_SNAPSHOT_VERSION,
};
use glaze_layout::layout_snapshot_tree::{
    plan_workspace_tiling_layout, snapshot_tiling_process_names, LayoutPlanNode, SkipReason,
    SkippedSnapshotLeaf,
};
use glaze_layout::window_state::{FloatingStateConfig, WindowState};

fn size(value: f32) -> TilingSize {
    TilingSize::from_bits(value.to_bits())
}

fn value(size: TilingSize) -> f32 {
    f32::from_bits(size.bits)
}

fn ids(list: &[&str]) -> Vec<String> {
    list.iter().map(|id| id.to_string()).collect()
}

fn tiling_window(local_id: &str, name: &str, weight: f32) -> SnapshotNode {
    SnapshotNode {
        local_id: local_id.into(),
        kind: SnapshotNodeKind::Window,
        tiling_size: Some(size(weight)),
        tiling_direction: None,
        children: None,
        child_focus_order: None,
        window: Some(SnapshotWindow {
            identity: SnapshotWindowIdentity {
                process_path: Some(format!("C:\\Apps\\{name}.exe")),
                process_name: name.into(),
                class_name: Some(format!("{name}Class")),
                title_hint: Some(name.into()),
            },
            state: WindowState::Tiling,
            prev_state: None,
            floating_placement: Some(Rect::from_xy(0, 0, 100, 100)),
            floating_placement_relative: None,
            id: None,
            handle: None,
        }),
        id: None,
    }
}

fn floating_window(local_id: &str, name: &str) -> SnapshotNode {
    let mut node = tiling_window(local_id, name, 1.0);
    if let Some(window) = node.window.as_mut() {
        window.state = WindowState::Floating(FloatingStateConfig {
            centered: false,
            shown_on_top: false,
        });
    }
    node.tiling_size = None;
    node
}

fn split(
    local_id: &str,
    direction: TilingDirection,
    weight: f32,
    children: Vec<SnapshotNode>,
    focus: Vec<&str>,
) -> SnapshotNode {
    SnapshotNode {
        local_id: local_id.into(),
        kind: SnapshotNodeKind::Split,
        tiling_size: Some(size(weight)),
        tiling_direction: Some(direction),
        children: Some(children),
        child_focus_order: Some(focus.into_iter().map(str::to_string).collect()),
        window: None,
        id: None,
    }
}

fn workspace_with_root(
    name: &str,
    direction: TilingDirection,
    children: Vec<SnapshotNode>,
    focus: Vec<&str>,
) -> SnapshotWorkspace {
    SnapshotWorkspace {
        name: name.into(),
        tiling_direction: direction.clone(),
        child_focus_order: focus.into_iter().map(str::to_string).collect(),
        root: SnapshotNode {
            local_id: "root".into(),
            kind: SnapshotNodeKind::Split,
            tiling_size: None,
            tiling_direction: Some(direction),
            children: Some(children),
            child_focus_order: None,
            window: None,
            id: None,
        },
        id: None,
    }
}

#[test]
fn plan_preserves_nested_split_order_and_sizes() {
    // H[ a(0.3) V[ b(0.4) c(0.6) ](0.7) ]
    let ws = workspace_with_root(
        "1",
        TilingDirection::Horizontal,
        vec![
            tiling_window("n1", "alpha", 0.3),
            split(
                "n2",
                TilingDirection::Vertical,
                0.7,
                vec![
                    tiling_window("n3", "beta", 0.4),
                    tiling_window("n4", "gamma", 0.6),
                ],
                vec!["n4", "n3"],
            ),
        ],
        vec!["n2", "n1"],
    );

    let matched = ids(&["n1", "n3", "n4"]);
    let plan = plan_workspace_tiling_layout(&ws, &matched);

    assert_eq!(plan.children.len(), 2);
    assert!(matches!(
        &plan.children[0],
        LayoutPlanNode::Window { local_id, tiling_size }
            if local_id == "n1" && (value(*tiling_size) - 0.3).abs() < 1e-5
    ));
    match &plan.children[1] {
        LayoutPlanNode::Split {
            local_id,
            tiling_direction,
            tiling_size,
            children,
            child_focus_order,
        } => {
            assert_eq!(local_id, "n2");
            assert_eq!(*tiling_direction, TilingDirection::Vertical);
            assert!((value(*tiling_size) - 0.7).abs() < 1e-5);
            assert_eq!(children.len(), 2);
            assert_eq!(children[0].local_id(), "n3");
            assert_eq!(children[1].local_id(), "n4");
            assert!((value(children[0].tiling_size()) - 0.4).abs() < 1e-5);
            assert!((value(children[1].tiling_size()) - 0.6).abs() < 1e-5);
            assert_eq!(
                child_focus_order,
                &vec!["n4".to_string(), "n3".to_string()]
            );
        }
        other => panic!("expected split, got {other:?}"),
    }
    assert_eq!(
        plan.child_focus_order,
        vec!["n2".to_string(), "n1".to_string()]
    );
    assert_eq!(plan.tiling_direction, TilingDirection::Horizontal);
    assert_eq!(plan.workspace_name, "1");
    assert!(plan.skipped.is_empty());
}

#[test]
fn plan_best_effort_when_middle_window_missing() {
    // H[ a(0.2) b(0.3) c(0.5) ] with b missing → H[ a(0.286) c(0.714) ]
    let ws = workspace_with_root(
        "1",
        TilingDirection::Horizontal,
        vec![
            tiling_window("n1", "alpha", 0.2),
            tiling_window("n2", "beta", 0.3),
            tiling_window("n3", "gamma", 0.5),
        ],
        vec!["n1", "n2", "n3"],
    );

    let matched = ids(&["n1", "n3"]);
    let plan = plan_workspace_tiling_layout(&ws, &matched);

    assert_eq!(plan.children.len(), 2);
    assert_eq!(plan.children[0].local_id(), "n1");
    assert_eq!(plan.children[1].local_id(), "n3");
    let s0 = value(plan.children[0].tiling_size());
    let s1 = value(plan.children[1].tiling_size());
    assert!((s0 + s1 - 1.0).abs() < 1e-5);
    assert!((s0 - 0.2 / 0.7).abs() < 1e-5);
    assert!((s1 - 0.5 / 0.7).abs() < 1e-5);
    assert_eq!(
        plan.skipped,
        vec![SkippedSnapshotLeaf {
            local_id: "n2".into(),
            process_name: "beta".into(),
            reason: SkipReason::MissingLiveMatch,
        }]
    );
}

#[test]
fn plan_collapses_split_when_only_one_child_survives() {
    // H[ a(0.4) V[ b c ](0.6) ] with c missing and b only survivor of V
    // → H[ a(0.4) b(0.6) ] (vertical split collapses)
    let ws = workspace_with_root(
        "1",
        TilingDirection::Horizontal,
        vec![
            tiling_window("n1", "alpha", 0.4),
            split(
                "n2",
                TilingDirection::Vertical,
                0.6,
                vec![
                    tiling_window("n3", "beta", 0.5),
                    tiling_window("n4", "gamma", 0.5),
                ],
                vec!["n3", "n4"],
            ),
        ],
        vec!["n1", "n2"],
    );

    let matched = ids(&["n1", "n3"]);
    let plan = plan_workspace_tiling_layout(&ws, &matched);

    assert_eq!(plan.children.len(), 2);
    assert!(matches!(
        &plan.children[0],
        LayoutPlanNode::Window { local_id, .. } if local_id == "n1"
    ));
    assert!(matches!(
        &plan.children[1],
        LayoutPlanNode::Window { local_id, tiling_size }
            if local_id == "n3" && (value(*tiling_size) - 0.6).abs() < 1e-5
    ));
    assert!(plan.skipped.iter().any(|s| s.local_id == "n4"));
}

#[test]
fn plan_ignores_floating_siblings_in_tree() {
    let ws = workspace_with_root(
        "1",
        TilingDirection::Horizontal,
        vec![
            tiling_window("n1", "alpha", 0.5),
            floating_window("n2", "floater"),
            tiling_window("n3", "beta", 0.5),
        ],
        vec!["n1", "n2", "n3"],
    );

    let matched = ids(&["n1", "n3"]);
    let plan = plan_workspace_tiling_layout(&ws, &matched);

    assert_eq!(plan.window_local_ids(), vec!["n1".to_string(), "n3".to_string()]);
    assert!(plan.skipped.iter().any(|s| {
        s.local_id == "n2" && s.reason == SkipReason::NonTiling
    }));
}

#[test]
fn plan_renormalizes_nested_sizes_after_sibling_loss() {
    // V[ H[a(0.5) b(0.5)](0.3)  c(0.7) ] with a missing
    // → V[ b(0.3) c(0.7) ]  (inner H collapses to b occupying 0.3 slot)
    let ws = workspace_with_root(
        "2",
        TilingDirection::Vertical,
        vec![
            split(
                "n0",
                TilingDirection::Horizontal,
                0.3,
                vec![
                    tiling_window("n1", "alpha", 0.5),
                    tiling_window("n2", "beta", 0.5),
                ],
                vec!["n1", "n2"],
            ),
            tiling_window("n3", "gamma", 0.7),
        ],
        vec!["n0", "n3"],
    );

    let matched = ids(&["n2", "n3"]);
    let plan = plan_workspace_tiling_layout(&ws, &matched);

    assert_eq!(plan.children.len(), 2);
    assert_eq!(plan.children[0].local_id(), "n2");
    assert!((value(plan.children[0].tiling_size()) - 0.3).abs() < 1e-5);
    assert_eq!(plan.children[1].local_id(), "n3");
    assert!((value(plan.children[1].tiling_size()) - 0.7).abs() < 1e-5);
}

/// The directions of the splits, outer ones first.
fn collect_split_directions(nodes: &[LayoutPlanNode]) -> Vec<TilingDirection> {
    let mut out = Vec::new();
    for node in nodes {
        if let LayoutPlanNode::Split {
            tiling_direction,
            children,
            ..
        } = node
        {
            out.push(tiling_direction.clone());
            out.extend(collect_split_directions(children));
        }
    }
    out
}

#[test]
fn plan_preserves_nested_vertical_then_horizontal_directions() {
    // V[ a(0.4) H[ b(0.5) c(0.5) ](0.6) ]
    let ws = workspace_with_root(
        "code",
        TilingDirection::Vertical,
        vec![
            tiling_window("n1", "top", 0.4),
            split(
                "n2",
                TilingDirection::Horizontal,
                0.6,
                vec![
                    tiling_window("n3", "left", 0.5),
                    tiling_window("n4", "right", 0.5),
                ],
                vec!["n3", "n4"],
            ),
        ],
        vec!["n1", "n2"],
    );

    let matched = ids(&["n1", "n3", "n4"]);
    let plan = plan_workspace_tiling_layout(&ws, &matched);

    assert_eq!(plan.workspace_name, "code");
    assert_eq!(plan.tiling_direction, TilingDirection::Vertical);
    assert_eq!(plan.children.len(), 2);
    assert_eq!(
        collect_split_directions(&plan.children),
        vec![TilingDirection::Horizontal],
        "load attach must see nested Horizontal under Vertical workspace"
    );
    match &plan.children[1] {
        LayoutPlanNode::Split {
            tiling_direction,
            children,
            ..
        } => {
            assert_eq!(*tiling_direction, TilingDirection::Horizontal);
            assert_eq!(children[0].local_id(), "n3");
            assert_eq!(children[1].local_id(), "n4");
        }
        other => panic!("expected horizontal split, got {other:?}"),
    }
}

#[test]
fn plan_preserves_nested_horizontal_then_vertical_directions_for_attach() {
    // Explicit H-then-V direction list that load's SplitContainer::new walks.
    let ws = workspace_with_root(
        "1",
        TilingDirection::Horizontal,
        vec![
            tiling_window("n1", "alpha", 0.3),
            split(
                "n2",
                TilingDirection::Vertical,
                0.7,
                vec![
                    tiling_window("n3", "beta", 0.4),
                    tiling_window("n4", "gamma", 0.6),
                ],
                vec!["n3", "n4"],
            ),
        ],
        vec!["n1", "n2"],
    );
    let matched = ids(&["n1", "n3", "n4"]);
    let plan = plan_workspace_tiling_layout(&ws, &matched);
    assert_eq!(plan.tiling_direction, TilingDirection::Horizontal);
    assert_eq!(
        collect_split_directions(&plan.children),
        vec![TilingDirection::Vertical]
    );
}

#[test]
fn plans_keep_windows_on_their_snapshot_workspaces() {
    // Two workspaces; matched tiling ids per workspace must not cross-contaminate.
    let ws1 = workspace_with_root(
        "1",
        TilingDirection::Horizontal,
        vec![
            tiling_window("a1", "editor", 0.5),
            tiling_window("a2", "term", 0.5),
        ],
        vec!["a1", "a2"],
    );
    let ws2 = workspace_with_root(
        "2",
        TilingDirection::Vertical,
        vec![
            tiling_window("b1", "browser", 0.6),
            floating_window("b2", "chat"),
        ],
        vec!["b1", "b2"],
    );

    // Best-effort across workspaces: ws1 keeps both tiling leaves; ws2 keeps browser,
    // drops floating chat from the tiling plan.
    let plan1 = plan_workspace_tiling_layout(
        &ws1,
        &ids(&["a1", "a2"]),
    );
    let plan2 = plan_workspace_tiling_layout(
        &ws2,
        &ids(&["b1"]),
    );

    assert_eq!(plan1.workspace_name, "1");
    assert_eq!(plan1.window_local_ids(), vec!["a1".to_string(), "a2".to_string()]);
    assert_eq!(plan1.tiling_direction, TilingDirection::Horizontal);

    assert_eq!(plan2.workspace_name, "2");
    assert_eq!(plan2.window_local_ids(), vec!["b1".to_string()]);
    assert_eq!(plan2.tiling_direction, TilingDirection::Vertical);
    assert!(
        plan2.skipped.iter().any(|s| {
            s.local_id == "b2" && s.reason == SkipReason::NonTiling
        }),
        "floating leaf stays out of tiling plan but ws membership is via leaf path"
    );
    // No cross-workspace leakage of local ids.
    assert!(!plan1.window_local_ids().iter().any(|id| id.starts_with('b')));
    assert!(!plan2.window_local_ids().iter().any(|id| id.starts_with('a')));
}

#[test]
fn plan_of_nothing_is_empty() {
    let ws = workspace_with_root(
        "1",
        TilingDirection::Horizontal,
        vec![tiling_window("n1", "alpha", 0.5)],
        vec!["n1"],
    );
    let plan = plan_workspace_tiling_layout(&ws, &[]);
    assert!(plan.is_empty());
    assert_eq!(plan.child_focus_order, Vec::<String>::new());
    assert_eq!(plan.skipped.len(), 1);
    assert_eq!(plan.skipped[0].reason, SkipReason::MissingLiveMatch);
}

#[test]
fn focus_order_covers_all_children() {
    // Only one of the two children was recorded in the focus order.
    let ws = workspace_with_root(
        "1",
        TilingDirection::Horizontal,
        vec![tiling_window("n1", "alpha", 0.5), tiling_window("n2", "beta", 0.5)],
        vec!["n2", "gone"],
    );
    let plan = plan_workspace_tiling_layout(&ws, &ids(&["n1", "n2"]));
    assert_eq!(plan.child_focus_order, ids(&["n2", "n1"]));
}

#[test]
fn only_child_takes_the_place_of_its_splits() {
    let ws = workspace_with_root(
        "1",
        TilingDirection::Horizontal,
        vec![split(
            "n1",
            TilingDirection::Vertical,
            0.4,
            vec![split(
                "n2",
                TilingDirection::Horizontal,
                0.3,
                vec![tiling_window("n3", "alpha", 0.2), tiling_window("n4", "beta", 0.8)],
                vec!["n3", "n4"],
            )],
            vec!["n2"],
        )],
        vec!["n1"],
    );
    let plan = plan_workspace_tiling_layout(&ws, &ids(&["n4"]));
    assert_eq!(
        plan.children,
        vec![LayoutPlanNode::Window { local_id: "n4".to_string(), tiling_size: size(1.0) }]
    );
    assert_eq!(plan.window_local_ids(), ids(&["n4"]));
}

#[test]
fn tiling_process_names_are_listed() {
    let ws = workspace_with_root(
        "1",
        TilingDirection::Horizontal,
        vec![
            tiling_window("n1", "alpha", 0.5),
            floating_window("n2", "floater"),
            tiling_window("n3", "beta", 0.5),
        ],
        vec![],
    );
    assert_eq!(snapshot_tiling_process_names(&ws.root), ids(&["alpha", "beta"]));
}

fn named_window(local_id: &str, path: String, name: &str, weight: f32) -> SnapshotNode {
    let mut node = tiling_window(local_id, name, weight);
    if let Some(window) = node.window.as_mut() {
        window.identity.process_path = Some(path);
        window.floating_placement = None;
    }
    node
}

fn titled_window(local_id: &str, title: &str, name: &str, weight: f32) -> SnapshotNode {
    let path = format!("C:\\Apps\\{name}.exe");
    let mut node = named_window(local_id, path, name, weight);
    if let Some(window) = node.window.as_mut() {
        window.identity.class_name = Some(format!("{title}Class"));
    }
    node
}

fn monitor_with(
    hardware_id: Option<&str>,
    device_name: &str,
    x: i32,
    focused: &str,
    workspace: SnapshotWorkspace,
) -> SnapshotMonitor {
    SnapshotMonitor {
        hardware_id: hardware_id.map(str::to_string),
        device_path: None,
        device_name: device_name.into(),
        bounds: SnapshotBounds { x, y: 0, width: 1920, height: 1080 },
        focused_workspace_name: Some(focused.into()),
        workspaces: vec![workspace],
        id: None,
    }
}

#[test]
fn json_round_trip_preserves_nested_split_tiling_directions() {
    let workspace = workspace_with_root(
        "1",
        TilingDirection::Vertical,
        vec![
            titled_window("n0", "Top", "top", 0.4),
            split(
                "n1",
                TilingDirection::Horizontal,
                0.6,
                vec![
                    titled_window("n2", "Left", "left", 0.5),
                    titled_window("n3", "Right", "right", 0.5),
                ],
                vec!["n2", "n3"],
            ),
        ],
        vec!["n0", "n1"],
    );
    let loaded = LayoutSnapshot {
        version: LAYOUT_SNAPSHOT_VERSION,
        captured_at: "2026-09-24T00:00:00Z".into(),
        glazewm_version: Some("test".into()),
        paused: false,
        binding_modes: vec![],
        monitors: vec![monitor_with(None, "DISPLAY1", 0, "1", workspace)],
        ignored_windows: vec![],
    }
    .into_durable();

    let ws = &loaded.monitors[0].workspaces[0];
    assert_eq!(ws.tiling_direction, TilingDirection::Vertical);
    let children = ws.root.children.as_ref().expect("root children");
    assert_eq!(children[1].tiling_direction, Some(TilingDirection::Horizontal));

    let matched = ids(&["n0", "n2", "n3"]);
    let plan = plan_workspace_tiling_layout(ws, &matched);
    assert_eq!(plan.tiling_direction, TilingDirection::Vertical);
    match &plan.children[1] {
        LayoutPlanNode::Split { tiling_direction, .. } => {
            assert_eq!(*tiling_direction, TilingDirection::Horizontal);
        }
        other => panic!("expected split, got {other:?}"),
    }
}

#[test]
fn snapshot_leaves_retain_workspace_names_across_monitors() {
    let win = |local_id: &str, name: &str| {
        named_window(local_id, format!("C:\\\\Apps\\\\{name}.exe"), name, 1.0)
    };
    let ws1 = workspace_with_root(
        "1",
        TilingDirection::Horizontal,
        vec![win("n0", "editor")],
        vec!["n0"],
    );
    let ws2 = workspace_with_root(
        "2",
        TilingDirection::Vertical,
        vec![win("n0", "browser")],
        vec!["n0"],
    );
    let loaded = LayoutSnapshot {
        version: LAYOUT_SNAPSHOT_VERSION,
        captured_at: "t".into(),
        glazewm_version: None,
        paused: false,
        binding_modes: vec![],
        monitors: vec![
            monitor_with(Some("HW1"), "DISPLAY1", 0, "1", ws1),
            monitor_with(Some("HW2"), "DISPLAY2", 1920, "2", ws2),
        ],
        ignored_windows: vec![],
    }
    .into_durable();

    assert_eq!(loaded.monitors[0].workspaces[0].name, "1");
    assert_eq!(loaded.monitors[1].workspaces[0].name, "2");
    let p0 = loaded.monitors[0].workspaces[0].root.children.as_ref().unwrap()[0]
        .window
        .as_ref()
        .unwrap()
        .identity
        .process_name
        .clone();
    let p1 = loaded.monitors[1].workspaces[0].root.children.as_ref().unwrap()[0]
        .window
        .as_ref()
        .unwrap()
        .identity
        .process_name
        .clone();
    assert_eq!(p0, "editor");
    assert_eq!(p1, "browser");

    let plan1 =
        plan_workspace_tiling_layout(&loaded.monitors[0].workspaces[0], &ids(&["n0"]));
    let plan2 =
        plan_workspace_tiling_layout(&loaded.monitors[1].workspaces[0], &ids(&["n0"]));
    assert_eq!(plan1.workspace_name, "1");
    assert_eq!(plan2.workspace_name, "2");
    assert_eq!(plan1.tiling_direction, TilingDirection::Horizontal);
    assert_eq!(plan2.tiling_direction, TilingDirection::Vertical);
}

#[test]
fn missing_and_negative_sizes_have_a_weight() {
    assert_eq!(TilingSize::weight(None), size(1.0));
    assert_eq!(TilingSize::weight(Some(size(-0.5))), size(0.0));
    assert_eq!(TilingSize::weight(Some(size(f32::NAN))), size(0.0));
    assert_eq!(TilingSize::weight(Some(size(0.25))), size(0.25));
}

#[test]
fn sizes_of_a_plan_are_shares_at_every_level() {
    // H[ a(3) V[ b(0) c(0) ](1) ]: sizes without weight share the room equally.
    let ws = workspace_with_root(
        "1",
        TilingDirection::Horizontal,
        vec![
            tiling_window("n1", "alpha", 3.0),
            split(
                "n2",
                TilingDirection::Vertical,
                1.0,
                vec![tiling_window("n3", "beta", 0.0), tiling_window("n4", "gamma", 0.0)],
                vec!["n3", "n4"],
            ),
        ],
        vec!["n1", "n2"],
    );
    let plan = plan_workspace_tiling_layout(&ws, &ids(&["n1", "n3", "n4"]));
    assert_eq!(plan.children[0].tiling_size(), size(0.75));
    assert_eq!(plan.children[1].tiling_size(), size(0.25));
    match &plan.children[1] {
        LayoutPlanNode::Split { children, .. } => {
            assert_eq!(children[0].tiling_size(), size(0.5));
            assert_eq!(children[1].tiling_size(), size(0.5));
        }
        other => panic!("expected split, got {other:?}"),
    }
}
