use std::collections::HashMap;

use glaze_layout::dto::{
    ContainerDto, ContainerId, MonitorDto, Rect, SplitContainerDto, TilingDirection, TilingSize,
    WindowDto, WorkspaceDto,
};
use glaze_layout::layout_snapshot::{
    snapshot_workspace_monitor_indices, validate_layout_snapshot_version, LayoutSnapshot,
    SnapshotBounds, SnapshotMonitor, SnapshotNode, SnapshotNodeKind, SnapshotWindow,
    SnapshotWorkspace, LAYOUT_SNAPSHOT_VERSION,
};
use glaze_layout::snapshot_capture::{local_ids_fit, tiling_shares, Share};
use glaze_layout::timestamp::format_system_time_rfc3339;
use glaze_layout::window_state::{FloatingStateConfig, FullscreenStateConfig, WindowState};

fn size(value: f32) -> TilingSize {
    TilingSize::from_bits(value.to_bits())
}

fn sample_window(id: ContainerId, name: &str, tiling_size: Option<f32>) -> WindowDto {
    WindowDto {
        id,
        parent_id: None,
        has_focus: false,
        tiling_size: tiling_size.map(size),
        width: 100,
        height: 100,
        x: 0,
        y: 0,
        state: WindowState::Tiling,
        prev_state: None,
        floating_placement: Rect::from_xy(10, 20, 300, 200),
        handle: 42,
        title: format!("{name} Title"),
        class_name: Some(format!("{name}Class")),
        process_name: name.to_string(),
        process_path: Some(format!("C:\\\\Apps\\\\{name}.exe")),
        display_state: "shown".into(),
        border_delta: "{}".into(),
        active_drag: None,
    }
}

#[test]
fn converts_monitor_tree_to_local_ids_and_focus_order() {
    let win_a = 1;
    let win_b = 2;
    let split_id = 3;
    let ws_id = 4;
    let mon_id = 5;

    let workspace = WorkspaceDto {
        id: ws_id,
        name: "1".into(),
        display_name: None,
        parent_id: Some(mon_id),
        children: vec![ContainerDto::Split(SplitContainerDto {
            id: split_id,
            parent_id: Some(ws_id),
            children: vec![
                ContainerDto::Window(sample_window(win_a, "alpha", Some(0.5))),
                ContainerDto::Window(sample_window(win_b, "beta", Some(0.5))),
            ],
            child_focus_order: vec![win_b, win_a],
            has_focus: true,
            tiling_size: size(1.0),
            width: 800,
            height: 600,
            x: 0,
            y: 0,
            tiling_direction: TilingDirection::Horizontal,
        })],
        child_focus_order: vec![split_id],
        has_focus: true,
        is_displayed: true,
        width: 800,
        height: 600,
        x: 0,
        y: 0,
        tiling_direction: TilingDirection::Horizontal,
    };

    let monitor = ContainerDto::Monitor(MonitorDto {
        id: mon_id,
        parent_id: None,
        children: vec![ContainerDto::Workspace(workspace)],
        child_focus_order: vec![ws_id],
        has_focus: true,
        width: 1920,
        height: 1080,
        x: 0,
        y: 0,
        dpi: 96,
        handle: Some(1),
        device_name: "DISPLAY1".into(),
        device_path: Some("\\\\.\\DISPLAY1".into()),
        hardware_id: Some("HW1".into()),
        working_rect: Rect::from_xy(0, 0, 1920, 1040),
        scale_factor_bits: 1.0f32.to_bits(),
    });

    let snapshot = LayoutSnapshot::from_monitor_dtos(
        &[monitor],
        vec![],
        false,
        vec!["mode_a".into()],
        Some("9.9.9".into()),
        "2026-09-23T00:00:00Z".into(),
    );

    assert_eq!(snapshot.version, 1);
    assert_eq!(snapshot.binding_modes, vec!["mode_a".to_string()]);
    assert_eq!(snapshot.monitors.len(), 1);
    let mon = &snapshot.monitors[0];
    assert_eq!(mon.device_name, "DISPLAY1");
    assert_eq!(mon.focused_workspace_name.as_deref(), Some("1"));
    assert_eq!(mon.workspaces.len(), 1);

    let ws = &mon.workspaces[0];
    assert_eq!(ws.child_focus_order, vec!["n0".to_string()]);
    assert_eq!(ws.root.kind, SnapshotNodeKind::Split);
    let children = ws.root.children.as_ref().unwrap();
    assert_eq!(children.len(), 1);
    assert_eq!(children[0].kind, SnapshotNodeKind::Split);
    assert_eq!(children[0].local_id, "n0");
    let windows = children[0].children.as_ref().unwrap();
    assert_eq!(windows[0].local_id, "n1");
    assert_eq!(windows[1].local_id, "n2");
    assert_eq!(
        children[0].child_focus_order.as_ref().unwrap(),
        &vec!["n2".to_string(), "n1".to_string()]
    );
    assert_eq!(
        windows[0].window.as_ref().unwrap().identity.process_name,
        "alpha"
    );
    assert!(windows[0].window.as_ref().unwrap().handle.is_some());
}

#[test]
fn strip_ephemeral_clears_ids_and_handles() {
    let win_id = 1;
    let ws_id = 2;
    let mon_id = 3;

    let monitor = ContainerDto::Monitor(MonitorDto {
        id: mon_id,
        parent_id: None,
        children: vec![ContainerDto::Workspace(WorkspaceDto {
            id: ws_id,
            name: "1".into(),
            display_name: None,
            parent_id: Some(mon_id),
            children: vec![ContainerDto::Window(sample_window(
                win_id, "alpha", Some(1.0),
            ))],
            child_focus_order: vec![win_id],
            has_focus: true,
            is_displayed: true,
            width: 800,
            height: 600,
            x: 0,
            y: 0,
            tiling_direction: TilingDirection::Vertical,
        })],
        child_focus_order: vec![ws_id],
        has_focus: true,
        width: 800,
        height: 600,
        x: 0,
        y: 0,
        dpi: 96,
        handle: None,
        device_name: "M".into(),
        device_path: None,
        hardware_id: None,
        working_rect: Rect::from_xy(0, 0, 800, 600),
        scale_factor_bits: 1.0f32.to_bits(),
    });

    let ignored = SnapshotWindow::from_window_dto(&sample_window(
        9,
        "ignored",
        None,
    ));

    let mut snapshot = LayoutSnapshot::from_monitor_dtos(
        &[monitor],
        vec![ignored],
        true,
        vec![],
        None,
        "t".into(),
    );
    snapshot.strip_ephemeral();

    assert!(snapshot.monitors[0].id.is_none());
    assert!(snapshot.monitors[0].workspaces[0].id.is_none());
    assert!(snapshot.monitors[0].workspaces[0].root.id.is_none());
    let win = snapshot.monitors[0].workspaces[0].root.children.as_ref().unwrap()
        [0]
        .window
        .as_ref()
        .unwrap();
    assert!(win.id.is_none());
    assert!(win.handle.is_none());
    assert!(snapshot.ignored_windows[0].handle.is_none());
    // Durable identity kept.
    assert_eq!(win.identity.process_name, "alpha");
    assert!(win.identity.process_path.is_some());
}

#[test]
fn persists_prev_state_for_minimized_windows() {
    let mut win = sample_window(7, "minapp", None);
    win.state = WindowState::Minimized;
    win.prev_state = Some(WindowState::Floating(FloatingStateConfig {
        centered: false,
        shown_on_top: false,
    }));

    let snap = SnapshotWindow::from_window_dto(&win);
    assert_eq!(snap.state, WindowState::Minimized);
    assert_eq!(
        snap.prev_state,
        Some(WindowState::Floating(FloatingStateConfig {
            centered: false,
            shown_on_top: false,
        }))
    );

    // Ignored / fresh windows may omit prev_state.
    let plain = SnapshotWindow::from_window_dto(&sample_window(
        8,
        "plain",
        Some(1.0),
    ));
    assert!(plain.prev_state.is_none());
}

#[test]
fn unsupported_version_fails_validation() {
    let mut snap = LayoutSnapshot {
        version: LAYOUT_SNAPSHOT_VERSION + 99,
        captured_at: "t".into(),
        glazewm_version: None,
        paused: false,
        binding_modes: vec![],
        monitors: vec![],
        ignored_windows: vec![],
    };
    assert!(validate_layout_snapshot_version(&snap).is_err());
    snap.version = LAYOUT_SNAPSHOT_VERSION;
    assert!(validate_layout_snapshot_version(&snap).is_ok());
}

#[test]
fn unsupported_version_is_rejected_before_any_restore() {
    let snap = LayoutSnapshot {
        version: 0,
        captured_at: "t".into(),
        glazewm_version: None,
        paused: false,
        binding_modes: vec![],
        monitors: vec![],
        ignored_windows: vec![],
    };
    let err = validate_layout_snapshot_version(&snap).unwrap_err();
    assert!(err.contains("Unsupported layout snapshot version"));
}

#[test]
fn empty_workspace_included_in_monitor_plan() {
    let empty_root = || SnapshotNode {
        local_id: "root".into(),
        kind: SnapshotNodeKind::Split,
        tiling_size: None,
        tiling_direction: Some(TilingDirection::Horizontal),
        children: Some(vec![]),
        child_focus_order: Some(vec![]),
        window: None,
        id: None,
    };
    let monitors = vec![
        SnapshotMonitor {
            hardware_id: Some("HW1".into()),
            device_path: None,
            device_name: "DISPLAY1".into(),
            bounds: SnapshotBounds { x: 0, y: 0, width: 1920, height: 1080 },
            focused_workspace_name: Some("empty-focus".into()),
            workspaces: vec![
                SnapshotWorkspace {
                    name: "with-win".into(),
                    tiling_direction: TilingDirection::Horizontal,
                    child_focus_order: vec![],
                    root: empty_root(),
                    id: None,
                },
            ],
            id: None,
        },
        SnapshotMonitor {
            hardware_id: Some("HW2".into()),
            device_path: None,
            device_name: "DISPLAY2".into(),
            bounds: SnapshotBounds { x: 1920, y: 0, width: 1920, height: 1080 },
            focused_workspace_name: Some("empty-focus".into()),
            workspaces: vec![
                SnapshotWorkspace {
                    name: "empty-focus".into(),
                    tiling_direction: TilingDirection::Horizontal,
                    child_focus_order: vec![],
                    root: empty_root(),
                    id: None,
                },
            ],
            id: None,
        },
    ];
    let plan = snapshot_workspace_monitor_indices(&monitors);
    assert_eq!(plan.get("with-win").copied(), Some(0));
    assert_eq!(
        plan.get("empty-focus").copied(),
        Some(1),
        "empty workspace must map to its snapshot monitor"
    );
}

#[test]
fn floating_placement_rect_round_trips_xywh() {
    let rect = Rect::from_xy(100, 200, 640, 480);
    let mut win = sample_window(42, "floaty", None);
    win.state = WindowState::Floating(FloatingStateConfig {
        centered: false,
        shown_on_top: true,
    });
    win.prev_state = Some(WindowState::Tiling);
    win.floating_placement = rect;
    let snap = SnapshotWindow::from_window_dto(&win);
    assert_eq!(snap.floating_placement.as_ref().map(|r| (r.x(), r.y(), r.width(), r.height())), Some((100, 200, 640, 480)));
    assert_eq!(snap.prev_state, Some(WindowState::Tiling));
    assert_eq!(
        snap.state,
        WindowState::Floating(FloatingStateConfig {
            centered: false,
            shown_on_top: true,
        })
    );
}


#[test]
fn format_rfc3339_known_instant() {
    let t = std::time::UNIX_EPOCH + std::time::Duration::from_secs(1_700_000_000);
    let s = format_system_time_rfc3339(t);
    assert_eq!(s, "2023-11-14T22:13:20Z");
}


/// What a restore brings back: neither ids and handles nor the time of capture.
#[derive(Clone, Debug, PartialEq)]
struct RestoredLeafView {
    process_name: String,
    workspace_name: String,
    order_index: usize,
    state: WindowState,
    prev_state: Option<WindowState>,
    floating_xywh: Option<(i32, i32, i32, i32)>,
    tiling_size: Option<TilingSize>,
}

fn collect_restored_leaf_views(snapshot: &LayoutSnapshot) -> Vec<RestoredLeafView> {
    let mut leaves = Vec::new();
    for monitor in &snapshot.monitors {
        for workspace in &monitor.workspaces {
            let mut order = 0usize;
            walk_node(&workspace.root, &workspace.name, &mut order, &mut leaves);
        }
    }
    leaves.sort_by(|a, b| a.process_name.cmp(&b.process_name));
    leaves
}

fn walk_node(
    node: &SnapshotNode,
    workspace_name: &str,
    order: &mut usize,
    out: &mut Vec<RestoredLeafView>,
) {
    match node.kind {
        SnapshotNodeKind::Window => {
            if let Some(window) = &node.window {
                let floating_xywh = window
                    .floating_placement
                    .as_ref()
                    .map(|r| (r.x(), r.y(), r.width(), r.height()));
                out.push(RestoredLeafView {
                    process_name: window.identity.process_name.clone(),
                    workspace_name: workspace_name.to_string(),
                    order_index: *order,
                    state: window.state,
                    prev_state: window.prev_state,
                    floating_xywh,
                    tiling_size: node.tiling_size,
                });
                *order += 1;
            }
        }
        SnapshotNodeKind::Split => {
            if let Some(children) = &node.children {
                for child in children {
                    walk_node(child, workspace_name, order, out);
                }
            }
        }
    }
}

/// Gives each window of `scrambled` what `target` records for its process.
fn virtual_restore_leaves(
    target: &LayoutSnapshot,
    scrambled: &LayoutSnapshot,
) -> Vec<RestoredLeafView> {
    let mut by_name: HashMap<String, RestoredLeafView> =
        collect_restored_leaf_views(target)
            .into_iter()
            .map(|l| (l.process_name.clone(), l))
            .collect();
    let mut restored = Vec::new();
    for live in collect_restored_leaf_views(scrambled) {
        if let Some(wanted) = by_name.remove(&live.process_name) {
            restored.push(wanted);
        }
    }
    restored.sort_by(|a, b| a.process_name.cmp(&b.process_name));
    restored
}

fn make_window(
    id: u128,
    name: &str,
    state: WindowState,
    prev_state: Option<WindowState>,
    tiling_size: Option<f32>,
    float_xywh: Option<(i32, i32, i32, i32)>,
) -> WindowDto {
    let mut w = sample_window(id, name, tiling_size);
    w.state = state;
    w.prev_state = prev_state;
    if let Some((x, y, width, height)) = float_xywh {
        w.floating_placement = Rect::from_xy(x, y, width, height);
    }
    w
}

fn snapshot_from_workspaces(
    workspaces: Vec<(ContainerId, &str, ContainerId, Vec<ContainerDto>)>,
    monitors: Vec<(ContainerId, &str, Vec<ContainerId>)>,
    captured_at: &str,
) -> LayoutSnapshot {
    let mut left = workspaces;
    let mut monitor_dtos: Vec<ContainerDto> = Vec::new();
    for (mon_id, device, ws_ids) in monitors {
        let mut children: Vec<ContainerDto> = Vec::new();
        for ws_id in &ws_ids {
            let found = left.iter().position(|(id, _, parent, _)| id == ws_id && *parent == mon_id);
            if let Some(at) = found {
                let (id, name, parent, nodes) = left.remove(at);
                children.push(ContainerDto::Workspace(WorkspaceDto {
                    id,
                    name: name.into(),
                    display_name: None,
                    parent_id: Some(parent),
                    children: nodes,
                    child_focus_order: vec![],
                    has_focus: true,
                    is_displayed: true,
                    width: 800,
                    height: 600,
                    x: 0,
                    y: 0,
                    tiling_direction: TilingDirection::Horizontal,
                }));
            }
        }
        monitor_dtos.push(ContainerDto::Monitor(MonitorDto {
            id: mon_id,
            parent_id: None,
            children,
            child_focus_order: ws_ids,
            has_focus: true,
            width: 1920,
            height: 1080,
            x: 0,
            y: 0,
            dpi: 96,
            handle: Some(1),
            device_name: device.into(),
            device_path: None,
            hardware_id: None,
            working_rect: Rect::from_xy(0, 0, 1920, 1040),
            scale_factor_bits: 1.0f32.to_bits(),
        }));
    }
    assert!(local_ids_fit(&monitor_dtos));

    LayoutSnapshot::from_monitor_dtos(
        &monitor_dtos,
        vec![],
        false,
        vec![],
        Some("test".into()),
        captured_at.into(),
    )
    .into_durable()
}

#[test]
fn restore_round_trip_after_scramble_virtual() {
    let mon_a = 10;
    let mon_b = 11;
    let ws1 = 20;
    let ws2 = 21;
    let split_id = 30;

    let tiler = make_window(1, "tiler", WindowState::Tiling, None, Some(0.6), None);
    let tiler_b = make_window(5, "tiler_b", WindowState::Tiling, None, Some(0.4), None);
    let floater = make_window(
        2,
        "floater",
        WindowState::Floating(FloatingStateConfig {
            centered: false,
            shown_on_top: true,
        }),
        None,
        None,
        Some((40, 50, 640, 480)),
    );
    let fuller = make_window(
        3,
        "fuller",
        WindowState::Fullscreen(FullscreenStateConfig {
            maximized: true,
            shown_on_top: false,
        }),
        Some(WindowState::Tiling),
        None,
        None,
    );
    let miner = make_window(
        4,
        "miner",
        WindowState::Minimized,
        Some(WindowState::Floating(FloatingStateConfig {
            centered: true,
            shown_on_top: false,
        })),
        None,
        None,
    );

    let snapshot_a = snapshot_from_workspaces(
        vec![
            (
                ws1,
                "1",
                mon_a,
                vec![
                    ContainerDto::Split(SplitContainerDto {
                        id: split_id,
                        parent_id: Some(ws1),
                        children: vec![
                            ContainerDto::Window(tiler),
                            ContainerDto::Window(tiler_b),
                        ],
                        child_focus_order: vec![1, 5],
                        has_focus: true,
                        tiling_size: size(1.0),
                        width: 800,
                        height: 600,
                        x: 0,
                        y: 0,
                        tiling_direction: TilingDirection::Horizontal,
                    }),
                    ContainerDto::Window(miner),
                ],
            ),
            (
                ws2,
                "2",
                mon_b,
                vec![
                    ContainerDto::Window(floater),
                    ContainerDto::Window(fuller),
                ],
            ),
        ],
        vec![(mon_a, "DISPLAY1", vec![ws1]), (mon_b, "DISPLAY2", vec![ws2])],
        "2026-09-24T11:00:00Z",
    );

    // Scramble: move windows across workspaces/monitors, reverse tiling
    // order/sizes, flip tiling<->floating, change floating XYWH, clear
    // fullscreen/minimized (+ prev_state).
    let tiler_s = make_window(
        1,
        "tiler",
        WindowState::Floating(FloatingStateConfig {
            centered: true,
            shown_on_top: false,
        }),
        None,
        None,
        Some((1, 2, 10, 10)),
    );
    let tiler_b_s = make_window(5, "tiler_b", WindowState::Tiling, None, Some(0.75), None);
    let floater_s = make_window(2, "floater", WindowState::Tiling, None, Some(0.25), None);
    let fuller_s = make_window(3, "fuller", WindowState::Tiling, None, None, None);
    let miner_s = make_window(4, "miner", WindowState::Tiling, None, None, None);

    let scrambled = snapshot_from_workspaces(
        vec![(
            ws2,
            "2",
            mon_a,
            vec![
                ContainerDto::Split(SplitContainerDto {
                    id: split_id,
                    parent_id: Some(ws2),
                    children: vec![
                        ContainerDto::Window(tiler_b_s),
                        ContainerDto::Window(floater_s),
                    ],
                    child_focus_order: vec![2, 5],
                    has_focus: true,
                    tiling_size: size(1.0),
                    width: 800,
                    height: 600,
                    x: 0,
                    y: 0,
                    tiling_direction: TilingDirection::Horizontal,
                }),
                ContainerDto::Window(tiler_s),
                ContainerDto::Window(fuller_s),
                ContainerDto::Window(miner_s),
            ],
        )],
        vec![(mon_a, "DISPLAY1", vec![ws2]), (mon_b, "DISPLAY2", vec![])],
        "2026-09-24T12:00:00Z",
    );

    let leaves_a = collect_restored_leaf_views(&snapshot_a);
    assert!(
        leaves_a.len() >= 5,
        "fixture should include tiling/floating/fullscreen/minimized/sibling"
    );
    let leaves_scrambled = collect_restored_leaf_views(&scrambled);
    assert_ne!(leaves_a, leaves_scrambled);

    let restored = virtual_restore_leaves(&snapshot_a, &scrambled);
    assert_eq!(
        restored, leaves_a,
        "virtual restore must recover workspace, order, state, prev_state, \
          floating WxH, and tiling sizes from snapshot A"
    );

    assert!(leaves_a.iter().any(|l| {
        l.workspace_name == "1"
            && matches!(l.state, WindowState::Minimized)
            && l.prev_state.is_some()
    }));
    assert!(leaves_a.iter().any(|l| {
        matches!(l.state, WindowState::Floating(_))
            && l.floating_xywh == Some((40, 50, 640, 480))
    }));
    assert!(leaves_a.iter().any(|l| {
        matches!(l.state, WindowState::Fullscreen(_))
            && l
                .prev_state
                .as_ref()
                .is_some_and(|s| matches!(s, WindowState::Tiling))
    }));
    assert!(leaves_a.iter().any(|l| l.tiling_size == Some(size(0.6))));
    assert!(leaves_a
        .iter()
        .any(|l| l.process_name == "tiler" && l.order_index == 0));
}


fn sized_window(id: ContainerId, tiling_size: f32, width: i32, height: i32) -> ContainerDto {
    let mut window = sample_window(id, "app", Some(tiling_size));
    window.width = width;
    window.height = height;
    ContainerDto::Window(window)
}

/// The monitor that is captured from one workspace with the children.
fn captured(width: i32, height: i32, children: Vec<ContainerDto>) -> SnapshotMonitor {
    let workspace = WorkspaceDto {
        id: 90,
        name: "1".into(),
        display_name: None,
        parent_id: Some(91),
        children,
        child_focus_order: vec![],
        has_focus: true,
        is_displayed: true,
        width,
        height,
        x: 0,
        y: 0,
        tiling_direction: TilingDirection::Horizontal,
    };
    let monitor = ContainerDto::Monitor(MonitorDto {
        id: 91,
        parent_id: None,
        children: vec![ContainerDto::Workspace(workspace)],
        child_focus_order: vec![90],
        has_focus: true,
        width,
        height,
        x: 0,
        y: 0,
        dpi: 96,
        handle: None,
        device_name: "M".into(),
        device_path: None,
        hardware_id: None,
        working_rect: Rect::from_xy(0, 0, width, height),
        scale_factor_bits: 1.0f32.to_bits(),
    });
    let mut snapshot = LayoutSnapshot::from_monitor_dtos(
        &[monitor],
        vec![],
        false,
        vec![],
        None,
        "2026-09-23T00:00:00Z".into(),
    );
    snapshot.monitors.remove(0)
}

fn captured_nodes(width: i32, height: i32, children: Vec<ContainerDto>) -> Vec<SnapshotNode> {
    captured(width, height, children).workspaces.remove(0).root.children.unwrap()
}

fn saved_sizes(nodes: &[SnapshotNode]) -> Vec<f32> {
    nodes.iter().map(|n| f32::from_bits(n.tiling_size.unwrap().bits)).collect()
}

#[test]
fn saved_sizes_follow_the_screen() {
    let nodes = captured_nodes(
        3440,
        1440,
        vec![sized_window(1, 0.458, 1576, 1440), sized_window(2, 1.292, 1864, 1440)],
    );
    let sizes = saved_sizes(&nodes);
    assert_eq!(sizes, vec![1576.0 / 3440.0, 1864.0 / 3440.0]);
    assert!((sizes[0] - 0.458).abs() < 1e-3);
    assert!((sizes[1] - 0.542).abs() < 1e-3);
    assert_eq!(sizes[0] + sizes[1], 1.0);
}

#[test]
fn saved_sizes_of_a_split_follow_its_own_direction() {
    let split = ContainerDto::Split(SplitContainerDto {
        id: 3,
        parent_id: Some(90),
        children: vec![sized_window(1, 0.9, 800, 250), sized_window(2, 0.9, 800, 750)],
        child_focus_order: vec![],
        has_focus: false,
        tiling_size: size(7.0),
        width: 800,
        height: 1000,
        x: 0,
        y: 0,
        tiling_direction: TilingDirection::Vertical,
    });
    let nodes = captured_nodes(800, 1000, vec![split]);
    assert_eq!(saved_sizes(&nodes), vec![1.0]);
    assert_eq!(saved_sizes(nodes[0].children.as_ref().unwrap()), vec![0.25, 0.75]);
}

#[test]
fn recorded_sizes_count_where_extents_are_missing() {
    let unseen = vec![sized_window(1, 0.5, 0, 100), sized_window(2, 1.5, 300, 100)];
    assert_eq!(saved_sizes(&captured_nodes(400, 100, unseen)), vec![0.25, 0.75]);
    let stale = vec![sized_window(1, 0.6, 100, 100), sized_window(2, 0.4, 100, 100)];
    assert_eq!(saved_sizes(&captured_nodes(800, 600, stale)), vec![0.6, 0.4]);
    let wide = vec![sized_window(1, 0.458, 1576, 100), sized_window(2, 1.292, 1864, 100)];
    assert_eq!(
        saved_sizes(&captured_nodes(20000, 600, wide)),
        vec![1576.0 / 3440.0, 1864.0 / 3440.0]
    );
    let half = vec![sized_window(1, 0.6, 100, 100), sized_window(2, 0.4, 300, 100)];
    assert_eq!(saved_sizes(&captured_nodes(800, 600, half)), vec![0.25, 0.75]);
}

#[test]
fn lone_container_takes_everything() {
    let nodes = captured_nodes(800, 600, vec![sized_window(1, 0.3, 800, 600)]);
    assert_eq!(saved_sizes(&nodes), vec![1.0]);
    let nodes = captured_nodes(800, 600, vec![sized_window(1, 0.3, 0, 0)]);
    assert_eq!(saved_sizes(&nodes), vec![1.0]);
}

#[test]
fn shares_are_told_by_kind() {
    let mut floater = sample_window(3, "floater", None);
    floater.state = WindowState::Floating(FloatingStateConfig {
        centered: false,
        shown_on_top: false,
    });
    floater.width = 999;
    let children = vec![
        sized_window(1, 0.458, 1576, 10),
        ContainerDto::Window(floater),
        sized_window(2, 1.292, 1864, 0),
    ];
    assert_eq!(
        tiling_shares(&children, TilingDirection::Horizontal),
        vec![
            Some(Share::Extent { part: 1576, total: 3440 }),
            None,
            Some(Share::Extent { part: 1864, total: 3440 }),
        ]
    );
    assert_eq!(
        tiling_shares(&children, TilingDirection::Vertical),
        vec![Some(Share::Recorded), None, Some(Share::Recorded)]
    );
    assert!(tiling_shares(&[], TilingDirection::Vertical).is_empty());
}

#[test]
fn saved_placements_are_relative_to_the_monitor() {
    let monitor = captured(1000, 500, vec![sized_window(1, 1.0, 1000, 500)]);
    let window = monitor.workspaces[0].root.children.as_ref().unwrap()[0].window.as_ref().unwrap();
    assert_eq!(window.floating_placement, Some(Rect::from_xy(10, 20, 300, 200)));
    let fractions = window.floating_placement_relative.unwrap();
    assert_eq!(f32::from_bits(fractions.x.bits), 10.0 / 1000.0);
    assert_eq!(f32::from_bits(fractions.y.bits), 20.0 / 500.0);
    assert_eq!(f32::from_bits(fractions.width.bits), 300.0 / 1000.0);
    assert_eq!(f32::from_bits(fractions.height.bits), 200.0 / 500.0);
    let flat = captured(1000, 0, vec![sized_window(1, 1.0, 1000, 500)]);
    let window = flat.workspaces[0].root.children.as_ref().unwrap()[0].window.as_ref().unwrap();
    assert_eq!(window.floating_placement_relative, None);
}
