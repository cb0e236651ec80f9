//! Durable snapshots of a desktop layout.
//!
//! A snapshot records monitors, workspaces and the tiling tree of each
//! workspace. Inside a workspace the nodes are known by local ids (`n0`, `n1`,
//! ...) that stay meaningful when the window manager restarts; container ids
//! and window handles are kept only in live snapshots and are removed by
//! [`LayoutSnapshot::strip_ephemeral`].
use crate::dto::{ContainerId, Rect, TilingDirection, TilingSize};
use crate::placement::SnapshotRelativeRect;
use crate::text;
use crate::window_state::WindowState;
use vstd::hash_map::StringHashMap;
use vstd::prelude::*;
use vstd::string::StringExecFns;

verus! {

/// Schema version of the snapshots written by this library.
pub const LAYOUT_SNAPSHOT_VERSION: u32 = 1;

// ---------------------------------------------------------------------------
// Types
// ---------------------------------------------------------------------------

/// Monitors, workspaces, tiling trees and ignored windows of a desktop.
#[derive(Debug, PartialEq, Eq)]
pub struct LayoutSnapshot {
    pub version: u32,
    pub captured_at: String,
    pub glazewm_version: Option<String>,
    pub paused: bool,
    pub binding_modes: Vec<String>,
    pub monitors: Vec<SnapshotMonitor>,
    pub ignored_windows: Vec<SnapshotWindow>,
}

#[derive(Debug, PartialEq, Eq)]
pub struct SnapshotMonitor {
    pub hardware_id: Option<String>,
    pub device_path: Option<String>,
    pub device_name: String,
    pub bounds: SnapshotBounds,
    pub focused_workspace_name: Option<String>,
    pub workspaces: Vec<SnapshotWorkspace>,
    /// Live container id; ephemeral.
    pub id: Option<ContainerId>,
}

#[derive(Clone, Copy, Debug, PartialEq, Eq, Structural)]
pub struct SnapshotBounds {
    pub x: i32,
    pub y: i32,
    pub width: i32,
    pub height: i32,
}

#[derive(Debug, PartialEq, Eq)]
pub struct SnapshotWorkspace {
    pub name: String,
    pub tiling_direction: TilingDirection,
    pub child_focus_order: Vec<String>,
    pub root: SnapshotNode,
    /// Live container id; ephemeral.
    pub id: Option<ContainerId>,
}

#[derive(Debug, PartialEq, Eq)]
pub struct SnapshotNode {
    pub local_id: String,
    pub kind: SnapshotNodeKind,
    pub tiling_size: Option<TilingSize>,
    pub tiling_direction: Option<TilingDirection>,
    pub children: Option<Vec<SnapshotNode>>,
    /// Local ids of the children of a split, most recently focused first.
    pub child_focus_order: Option<Vec<String>>,
    pub window: Option<SnapshotWindow>,
    /// Live container id; ephemeral.
    pub id: Option<ContainerId>,
}

#[derive(Clone, Copy, Debug, PartialEq, Eq, Structural)]
pub enum SnapshotNodeKind {
    Split,
    Window,
}

/// Identity and state of a window.
#[derive(Debug, PartialEq, Eq)]
pub struct SnapshotWindow {
    pub identity: SnapshotWindowIdentity,
    pub state: WindowState,
    /// State before the window was minimized or made fullscreen.
    pub prev_state: Option<WindowState>,
    pub floating_placement: Option<Rect>,
    /// The placement in fractions of the monitor that the window was on.
    pub floating_placement_relative: Option<SnapshotRelativeRect>,
    /// Live container id; ephemeral.
    pub id: Option<ContainerId>,
    /// Native window handle; ephemeral.
    pub handle: Option<isize>,
}

#[derive(Debug, PartialEq, Eq)]
pub struct SnapshotWindowIdentity {
    pub process_path: Option<String>,
    pub process_name: String,
    pub class_name: Option<String>,
    pub title_hint: Option<String>,
}

#[derive(Debug, PartialEq, Eq)]
pub struct IgnoredWindowsData {
    pub windows: Vec<SnapshotWindow>,
}

impl Clone for SnapshotWindowIdentity {
    fn clone(&self) -> (r: SnapshotWindowIdentity)
        ensures
            r == *self,
    {
        SnapshotWindowIdentity {
            process_path: text::copy_opt(&self.process_path),
            process_name: self.process_name.clone(),
            class_name: text::copy_opt(&self.class_name),
            title_hint: text::copy_opt(&self.title_hint),
        }
    }
}

impl Clone for SnapshotWindow {
    fn clone(&self) -> (r: SnapshotWindow)
        ensures
            r == *self,
    {
        SnapshotWindow {
            identity: self.identity.clone(),
            state: self.state,
            prev_state: self.prev_state,
            floating_placement: self.floating_placement,
            floating_placement_relative: self.floating_placement_relative,
            id: self.id,
            handle: self.handle,
        }
    }
}

// ---------------------------------------------------------------------------
// Models
// ---------------------------------------------------------------------------

/// What a [`SnapshotWindowIdentity`] says.
#[verifier::ext_equal]
pub struct IdentityModel {
    pub process_path: Option<Seq<char>>,
    pub process_name: Seq<char>,
    pub class_name: Option<Seq<char>>,
    pub title_hint: Option<Seq<char>>,
}

/// What a [`SnapshotWindow`] says.
#[verifier::ext_equal]
pub struct WindowModel {
    pub identity: IdentityModel,
    pub state: WindowState,
    pub prev_state: Option<WindowState>,
    pub floating_placement: Option<Rect>,
    pub floating_placement_relative: Option<SnapshotRelativeRect>,
    pub id: Option<ContainerId>,
    pub handle: Option<isize>,
}

/// What a [`SnapshotNode`] says.
#[verifier::ext_equal]
pub struct NodeModel {
    pub local_id: Seq<char>,
    pub kind: SnapshotNodeKind,
    pub tiling_size: Option<TilingSize>,
    pub tiling_direction: Option<TilingDirection>,
    pub children: Option<Seq<NodeModel>>,
    pub child_focus_order: Option<Seq<Seq<char>>>,
    pub window: Option<WindowModel>,
    pub id: Option<ContainerId>,
}

/// What a [`SnapshotWorkspace`] says.
#[verifier::ext_equal]
pub struct WorkspaceModel {
    pub name: Seq<char>,
    pub tiling_direction: TilingDirection,
    pub child_focus_order: Seq<Seq<char>>,
    pub root: NodeModel,
    pub id: Option<ContainerId>,
}

/// What a [`SnapshotMonitor`] says.
#[verifier::ext_equal]
pub struct MonitorModel {
    pub hardware_id: Option<Seq<char>>,
    pub device_path: Option<Seq<char>>,
    pub device_name: Seq<char>,
    pub bounds: SnapshotBounds,
    pub focused_workspace_name: Option<Seq<char>>,
    pub workspaces: Seq<WorkspaceModel>,
    pub id: Option<ContainerId>,
}

/// What a [`LayoutSnapshot`] says.
#[verifier::ext_equal]
pub struct SnapshotModel {
    pub version: u32,
    pub captured_at: Seq<char>,
    pub glazewm_version: Option<Seq<char>>,
    pub paused: bool,
    pub binding_modes: Seq<Seq<char>>,
    pub monitors: Seq<MonitorModel>,
    pub ignored_windows: Seq<WindowModel>,
}

impl View for SnapshotWindowIdentity {
    type V = IdentityModel;

    open spec fn view(&self) -> IdentityModel {
        IdentityModel {
            process_path: text::opt_view(self.process_path),
            process_name: self.process_name@,
            class_name: text::opt_view(self.class_name),
            title_hint: text::opt_view(self.title_hint),
        }
    }
}

impl View for SnapshotWindow {
    type V = WindowModel;

    open spec fn view(&self) -> WindowModel {
        WindowModel {
            identity: self.identity@,
            state: self.state,
            prev_state: self.prev_state,
            floating_placement: self.floating_placement,
            floating_placement_relative: self.floating_placement_relative,
            id: self.id,
            handle: self.handle,
        }
    }
}

/// The models of windows.
pub open spec fn window_views(s: Seq<SnapshotWindow>) -> Seq<WindowModel> {
    s.map_values(|w: SnapshotWindow| w@)
}

/// The model of a node.
pub open spec fn node_view(n: SnapshotNode) -> NodeModel
    decreases n,
{
    NodeModel {
        local_id: n.local_id@,
        kind: n.kind,
        tiling_size: n.tiling_size,
        tiling_direction: n.tiling_direction,
        children: match n.children {
            Some(children) => Some(node_views(children@)),
            None => None,
        },
        child_focus_order: match n.child_focus_order {
            Some(order) => Some(text::views(order@)),
            None => None,
        },
        window: match n.window {
            Some(w) => Some(w@),
            None => None,
        },
        id: n.id,
    }
}

/// The models of nodes.
pub open spec fn node_views(s: Seq<SnapshotNode>) -> Seq<NodeModel>
    decreases s,
{
    if s.len() == 0 {
        Seq::empty()
    } else {
        node_views(s.drop_last()).push(node_view(s.last()))
    }
}

/// The models of nodes, one by one.
pub proof fn lemma_node_views(s: Seq<SnapshotNode>)
    ensures
        node_views(s).len() == s.len(),
        forall|i: int| 0 <= i < s.len() ==> #[trigger] node_views(s)[i] == node_view(s[i]),
    decreases s.len(),
{
    if s.len() > 0 {
        lemma_node_views(s.drop_last());
    }
}

impl View for SnapshotNode {
    type V = NodeModel;

    open spec fn view(&self) -> NodeModel {
        node_view(*self)
    }
}

impl View for SnapshotWorkspace {
    type V = WorkspaceModel;

    open spec fn view(&self) -> WorkspaceModel {
        WorkspaceModel {
            name: self.name@,
            tiling_direction: self.tiling_direction,
            child_focus_order: text::views(self.child_focus_order@),
            root: self.root@,
            id: self.id,
        }
    }
}

/// The models of workspaces.
pub open spec fn workspace_views(s: Seq<SnapshotWorkspace>) -> Seq<WorkspaceModel> {
    s.map_values(|w: SnapshotWorkspace| w@)
}

impl View for SnapshotMonitor {
    type V = MonitorModel;

    open spec fn view(&self) -> MonitorModel {
        MonitorModel {
            hardware_id: text::opt_view(self.hardware_id),
            device_path: text::opt_view(self.device_path),
            device_name: self.device_name@,
            bounds: self.bounds,
            focused_workspace_name: text::opt_view(self.focused_workspace_name),
            workspaces: workspace_views(self.workspaces@),
            id: self.id,
        }
    }
}

/// The models of monitors.
pub open spec fn monitor_views(s: Seq<SnapshotMonitor>) -> Seq<MonitorModel> {
    s.map_values(|m: SnapshotMonitor| m@)
}

impl View for LayoutSnapshot {
    type V = SnapshotModel;

    open spec fn view(&self) -> SnapshotModel {
        SnapshotModel {
            version: self.version,
            captured_at: self.captured_at@,
            glazewm_version: text::opt_view(self.glazewm_version),
            paused: self.paused,
            binding_modes: text::views(self.binding_modes@),
            monitors: monitor_views(self.monitors@),
            ignored_windows: window_views(self.ignored_windows@),
        }
    }
}

// ---------------------------------------------------------------------------
// Removing what is ephemeral
// ---------------------------------------------------------------------------

pub open spec fn durable_window(w: WindowModel) -> WindowModel {
    WindowModel { id: None, handle: None, ..w }
}

pub open spec fn durable_node(n: NodeModel) -> NodeModel
    decreases n,
{
    NodeModel {
        id: None,
        window: match n.window {
            Some(w) => Some(durable_window(w)),
            None => None,
        },
        children: match n.children {
            Some(children) => Some(durable_nodes(children)),
            None => None,
        },
        ..n
    }
}

pub open spec fn durable_nodes(s: Seq<NodeModel>) -> Seq<NodeModel>
    decreases s,
{
    if s.len() == 0 {
        Seq::empty()
    } else {
        durable_nodes(s.drop_last()).push(durable_node(s.last()))
    }
}

pub open spec fn durable_workspace(w: WorkspaceModel) -> WorkspaceModel {
    WorkspaceModel { id: None, root: durable_node(w.root), ..w }
}

pub open spec fn durable_monitor(m: MonitorModel) -> MonitorModel {
    MonitorModel {
        id: None,
        workspaces: m.workspaces.map_values(|w: WorkspaceModel| durable_workspace(w)),
        ..m
    }
}

/// The snapshot without container ids and window handles.
pub open spec fn durable(s: SnapshotModel) -> SnapshotModel {
    SnapshotModel {
        monitors: s.monitors.map_values(|m: MonitorModel| durable_monitor(m)),
        ignored_windows: s.ignored_windows.map_values(|w: WindowModel| durable_window(w)),
        ..s
    }
}

proof fn lemma_durable_nodes(s: Seq<NodeModel>)
    ensures
        durable_nodes(s).len() == s.len(),
        forall|i: int| 0 <= i < s.len() ==> #[trigger] durable_nodes(s)[i] == durable_node(s[i]),
    decreases s.len(),
{
    if s.len() > 0 {
        lemma_durable_nodes(s.drop_last());
    }
}

fn strip_window_ephemeral(window: &mut SnapshotWindow)
    ensures
        final(window)@ == durable_window(old(window)@),
{
    window.id = None;
    window.handle = None;
}

fn strip_node_ephemeral(node: &mut SnapshotNode)
    ensures
        final(node)@ == durable_node(old(node)@),
    decreases *old(node), 1nat,
{
    node.id = None;
    match &mut node.window {
        Some(window) => {
            strip_window_ephemeral(window);
        },
        None => {},
    }
    match &mut node.children {
        Some(children) => {
            strip_nodes_ephemeral(children);
        },
        None => {},
    }
}

fn strip_nodes_ephemeral(nodes: &mut Vec<SnapshotNode>)
    ensures
        node_views(final(nodes)@) == durable_nodes(node_views(old(nodes)@)),
    decreases *old(nodes), 0nat,
{
    let mut i: usize = 0;
    while i < nodes.len()
        invariant
            i <= nodes@.len(),
            nodes@.len() == old(nodes)@.len(),
            forall|j: int|
                0 <= j < i ==> node_view(#[trigger] nodes@[j]) == durable_node(
                    node_view(old(nodes)@[j]),
                ),
            forall|j: int| i <= j < nodes@.len() ==> #[trigger] nodes@[j] == old(nodes)@[j],
        decreases nodes@.len() - i,
    {
        assert(decreases_to!(*old(nodes) => old(nodes)@[i as int]));
        strip_node_ephemeral(&mut nodes[i]);
        i = i + 1;
    }
    proof {
        lemma_node_views(nodes@);
        lemma_node_views(old(nodes)@);
        lemma_durable_nodes(node_views(old(nodes)@));
        assert(node_views(nodes@) =~= durable_nodes(node_views(old(nodes)@)));
    }
}

fn strip_workspaces_ephemeral(workspaces: &mut Vec<SnapshotWorkspace>)
    ensures
        workspace_views(final(workspaces)@) == workspace_views(old(workspaces)@).map_values(
            |w: WorkspaceModel| durable_workspace(w),
        ),
{
    let mut i: usize = 0;
    while i < workspaces.len()
        invariant
            i <= workspaces@.len(),
            workspaces@.len() == old(workspaces)@.len(),
            forall|j: int|
                0 <= j < i ==> (#[trigger] workspaces@[j])@ == durable_workspace(
                    old(workspaces)@[j]@,
                ),
            forall|j: int|
                i <= j < workspaces@.len() ==> #[trigger] workspaces@[j] == old(workspaces)@[j],
        decreases workspaces@.len() - i,
    {
        workspaces[i].id = None;
        strip_node_ephemeral(&mut workspaces[i].root);
        i = i + 1;
    }
    assert(workspace_views(workspaces@) =~= workspace_views(old(workspaces)@).map_values(
        |w: WorkspaceModel| durable_workspace(w),
    ));
}

impl LayoutSnapshot {
    /// Clears container ids and window handles, so that the snapshot can be
    /// written to a file. Everything else stays.
    pub fn strip_ephemeral(&mut self)
        ensures
            final(self)@ == durable(old(self)@),
    {
        let mut i: usize = 0;
        while i < self.monitors.len()
            invariant
                i <= self.monitors@.len(),
                self.monitors@.len() == old(self).monitors@.len(),
                forall|j: int|
                    0 <= j < i ==> (#[trigger] self.monitors@[j])@ == durable_monitor(
                        old(self).monitors@[j]@,
                    ),
                forall|j: int|
                    i <= j < self.monitors@.len() ==> #[trigger] self.monitors@[j]
                        == old(self).monitors@[j],
                self.version == old(self).version,
                self.captured_at == old(self).captured_at,
                self.glazewm_version == old(self).glazewm_version,
                self.paused == old(self).paused,
                self.binding_modes == old(self).binding_modes,
                self.ignored_windows == old(self).ignored_windows,
            decreases self.monitors@.len() - i,
        {
            self.monitors[i].id = None;
            strip_workspaces_ephemeral(&mut self.monitors[i].workspaces);
            assert(self.monitors@[i as int]@ =~= durable_monitor(old(self).monitors@[i as int]@));
            i = i + 1;
        }
        let mut k: usize = 0;
        while k < self.ignored_windows.len()
            invariant
                k <= self.ignored_windows@.len(),
                self.ignored_windows@.len() == old(self).ignored_windows@.len(),
                forall|j: int|
                    0 <= j < k ==> (#[trigger] self.ignored_windows@[j])@ == durable_window(
                        old(self).ignored_windows@[j]@,
                    ),
                forall|j: int|
                    k <= j < self.ignored_windows@.len() ==> #[trigger] self.ignored_windows@[j]
                        == old(self).ignored_windows@[j],
                self.monitors@.len() == old(self).monitors@.len(),
                forall|j: int|
                    0 <= j < self.monitors@.len() ==> (#[trigger] self.monitors@[j])@
                        == durable_monitor(old(self).monitors@[j]@),
                self.version == old(self).version,
                self.captured_at == old(self).captured_at,
                self.glazewm_version == old(self).glazewm_version,
                self.paused == old(self).paused,
                self.binding_modes == old(self).binding_modes,
            decreases self.ignored_windows@.len() - k,
        {
            strip_window_ephemeral(&mut self.ignored_windows[k]);
            k = k + 1;
        }
        proof {
            assert(self@.monitors =~= durable(old(self)@).monitors);
            assert(self@.ignored_windows =~= durable(old(self)@).ignored_windows);
        }
    }

    /// The snapshot without container ids and window handles.
    pub fn into_durable(self) -> (r: LayoutSnapshot)
        ensures
            r@ == durable(self@),
    {
        let mut s = self;
        s.strip_ephemeral();
        s
    }
}

/// Whether neither the node nor anything below it holds an id or a handle.
pub open spec fn is_durable_node(n: NodeModel) -> bool
    decreases n,
{
    &&& n.id is None
    &&& n.window matches Some(w) ==> w.id is None && w.handle is None
    &&& n.children matches Some(children) ==> are_durable_nodes(children)
}

pub open spec fn are_durable_nodes(s: Seq<NodeModel>) -> bool
    decreases s,
{
    s.len() == 0 || (are_durable_nodes(s.drop_last()) && is_durable_node(s.last()))
}

/// Whether no id and no handle is left anywhere in the snapshot.
pub open spec fn is_durable(s: SnapshotModel) -> bool {
    &&& forall|i: int| #![trigger s.monitors[i]]
        0 <= i < s.monitors.len() ==> s.monitors[i].id is None && forall|j: int|
            #![trigger s.monitors[i].workspaces[j]]
            0 <= j < s.monitors[i].workspaces.len() ==> s.monitors[i].workspaces[j].id is None
                && is_durable_node(s.monitors[i].workspaces[j].root)
    &&& forall|i: int| #![trigger s.ignored_windows[i]]
        0 <= i < s.ignored_windows.len() ==> s.ignored_windows[i].id is None
            && s.ignored_windows[i].handle is None
}

proof fn lemma_durable_node_holds_nothing(n: NodeModel)
    ensures
        is_durable_node(durable_node(n)),
    decreases n,
{
    if let Some(children) = n.children {
        lemma_durable_nodes_hold_nothing(children);
    }
}

proof fn lemma_durable_nodes_hold_nothing(s: Seq<NodeModel>)
    ensures
        are_durable_nodes(durable_nodes(s)),
    decreases s,
{
    if s.len() > 0 {
        lemma_durable_nodes_hold_nothing(s.drop_last());
        lemma_durable_node_holds_nothing(s.last());
        assert(durable_nodes(s).drop_last() =~= durable_nodes(s.drop_last()));
    }
}

/// A stripped snapshot holds no container id and no window handle anywhere.
pub proof fn law_durable_holds_nothing_ephemeral(s: SnapshotModel)
    ensures
        is_durable(durable(s)),
{
    let d = durable(s);
    assert forall|i: int, j: int|
        0 <= i < d.monitors.len() && 0 <= j
            < d.monitors[i].workspaces.len() implies #[trigger] d.monitors[i].workspaces[j].id is None
        && is_durable_node(d.monitors[i].workspaces[j].root) by {
        lemma_durable_node_holds_nothing(s.monitors[i].workspaces[j].root);
    }
}

proof fn lemma_durable_node_fixed(n: NodeModel)
    requires
        is_durable_node(n),
    ensures
        durable_node(n) == n,
    decreases n,
{
    if let Some(children) = n.children {
        lemma_durable_nodes_fixed(children);
    }
}

proof fn lemma_durable_nodes_fixed(s: Seq<NodeModel>)
    requires
        are_durable_nodes(s),
    ensures
        durable_nodes(s) == s,
    decreases s,
{
    if s.len() > 0 {
        lemma_durable_nodes_fixed(s.drop_last());
        lemma_durable_node_fixed(s.last());
        assert(durable_nodes(s) =~= s);
    } else {
        assert(durable_nodes(s) =~= s);
    }
}

/// Stripping changes nothing in a snapshot that holds nothing ephemeral; in
/// particular, stripping twice is stripping once.
pub proof fn law_stripping_keeps_durable_snapshots(s: SnapshotModel)
    ensures
        is_durable(s) ==> durable(s) == s,
        durable(durable(s)) == durable(s),
{
    law_durable_holds_nothing_ephemeral(s);
    lemma_durable_fixed(durable(s));
    if is_durable(s) {
        lemma_durable_fixed(s);
    }
}

proof fn lemma_durable_fixed(s: SnapshotModel)
    requires
        is_durable(s),
    ensures
        durable(s) == s,
{
    let d = durable(s);
    assert forall|i: int| 0 <= i < s.monitors.len() implies d.monitors[i] == #[trigger] s.monitors[i] by {
        let m = s.monitors[i];
        assert forall|j: int| 0 <= j < m.workspaces.len() implies durable_workspace(
            m.workspaces[j],
        ) == #[trigger] m.workspaces[j] by {
            assert(s.monitors[i].workspaces[j].id is None);
            lemma_durable_node_fixed(m.workspaces[j].root);
        }
        assert(d.monitors[i].workspaces =~= m.workspaces);
    }
    assert(d.monitors =~= s.monitors);
    assert(d.ignored_windows =~= s.ignored_windows);
}

// ---------------------------------------------------------------------------
// Checks and lookups
// ---------------------------------------------------------------------------

/// The message for a snapshot whose version is not supported.
pub open spec fn unsupported_version_message(version: u32) -> Seq<char> {
    "Unsupported layout snapshot version "@ + text::decimal(version as nat) + " (expected "@
        + text::decimal(LAYOUT_SNAPSHOT_VERSION as nat) + ")."@
}

/// Accepts a snapshot exactly if its version is [`LAYOUT_SNAPSHOT_VERSION`].
///
/// Callers check this before they change anything, so that a snapshot of
/// another version is refused as a whole.
pub fn validate_layout_snapshot_version(snapshot: &LayoutSnapshot) -> (r: Result<(), String>)
    ensures
        match r {
            Ok(()) => snapshot.version == LAYOUT_SNAPSHOT_VERSION,
            Err(message) => snapshot.version != LAYOUT_SNAPSHOT_VERSION && message@
                == unsupported_version_message(snapshot.version),
        },
{
    if snapshot.version != LAYOUT_SNAPSHOT_VERSION {
        let mut out = "Unsupported layout snapshot version ".to_owned();
        text::push_decimal(&mut out, snapshot.version as u64);
        out.append(" (expected ");
        text::push_decimal(&mut out, LAYOUT_SNAPSHOT_VERSION as u64);
        out.append(").");
        Err(out)
    } else {
        Ok(())
    }
}

/// Whether a monitor has a workspace of this name, empty or not.
pub open spec fn has_workspace(monitor: MonitorModel, name: Seq<char>) -> bool {
    exists|j: int| 0 <= j < monitor.workspaces.len() && #[trigger] monitor.workspaces[j].name == name
}

/// Whether `index` is the first monitor with a workspace of this name.
pub open spec fn is_first_monitor_with(
    monitors: Seq<MonitorModel>,
    name: Seq<char>,
    index: int,
) -> bool {
    &&& 0 <= index < monitors.len()
    &&& has_workspace(monitors[index], name)
    &&& forall|k: int| 0 <= k < index ==> !has_workspace(#[trigger] monitors[k], name)
}

/// The monitor of each workspace name: the first one that has it. Workspaces
/// without windows are included.
pub fn snapshot_workspace_monitor_indices(monitors: &[SnapshotMonitor]) -> (r: StringHashMap<usize>)
    ensures
        forall|name: Seq<char>|
            #![trigger r@.dom().contains(name)]
            r@.dom().contains(name) <==> exists|k: int|
                0 <= k < monitors@.len() && has_workspace(#[trigger] monitors@[k]@, name),
        forall|name: Seq<char>| #[trigger]
            r@.dom().contains(name) ==> is_first_monitor_with(
                monitor_views(monitors@),
                name,
                r@[name] as int,
            ),
{
    let mut planned: StringHashMap<usize> = StringHashMap::new();
    let ghost all = monitor_views(monitors@);
    let mut i: usize = 0;
    while i < monitors.len()
        invariant
            i <= monitors@.len(),
            all == monitor_views(monitors@),
            forall|name: Seq<char>|
                #![trigger planned@.dom().contains(name)]
                planned@.dom().contains(name) <==> exists|k: int|
                    0 <= k < i && has_workspace(#[trigger] monitors@[k]@, name),
            forall|name: Seq<char>| #[trigger]
                planned@.dom().contains(name) ==> is_first_monitor_with(
                    all,
                    name,
                    planned@[name] as int,
                ),
        decreases monitors@.len() - i,
    {
        let ghost before = planned@;
        let mut j: usize = 0;
        while j < monitors[i].workspaces.len()
            invariant
                i < monitors@.len(),
                j <= monitors@[i as int].workspaces@.len(),
                all == monitor_views(monitors@),
                forall|name: Seq<char>|
                    #![trigger before.dom().contains(name)]
                    before.dom().contains(name) <==> exists|k: int|
                        0 <= k < i && has_workspace(#[trigger] monitors@[k]@, name),
                forall|name: Seq<char>|
                    #![trigger planned@.dom().contains(name)]
                    planned@.dom().contains(name) <==> before.dom().contains(name) || exists|k: int|
                        0 <= k < j && (#[trigger] monitors@[i as int].workspaces@[k]).name@
                            == name,
                forall|name: Seq<char>| #[trigger]
                    planned@.dom().contains(name) ==> is_first_monitor_with(
                        all,
                        name,
                        planned@[name] as int,
                    ),
            decreases monitors@[i as int].workspaces@.len() - j,
        {
            let name = &monitors[i].workspaces[j].name;
            let ghost here = planned@;
            if !planned.contains_key(name.as_str()) {
                planned.insert(name.clone(), i);
                proof {
                    assert(all[i as int].workspaces[j as int].name == name@);
                    assert(has_workspace(all[i as int], name@));
                    assert forall|k: int| 0 <= k < i implies !has_workspace(
                        #[trigger] all[k],
                        name@,
                    ) by {
                        assert(all[k] == monitors@[k]@);
                        assert(!before.dom().contains(name@));
                    }
                }
            }
            proof {
                assert forall|other: Seq<char>| #[trigger]
                    planned@.dom().contains(other) <==> before.dom().contains(other)
                        || exists|k: int|
                        0 <= k < j + 1 && (#[trigger] monitors@[i as int].workspaces@[k]).name@
                            == other by {
                    assert(planned@.dom().contains(other) <==> here.dom().contains(other) || other
                        == name@);
                    if here.dom().contains(other) && !before.dom().contains(other) {
                        let k = choose|k: int|
                            0 <= k < j && (#[trigger] monitors@[i as int].workspaces@[k]).name@
                                == other;
                        assert(monitors@[i as int].workspaces@[k].name@ == other);
                    }
                    if other == name@ {
                        assert(monitors@[i as int].workspaces@[j as int].name@ == other);
                    }
                }
            }
            j = j + 1;
        }
        proof {
            assert forall|name: Seq<char>| #[trigger]
                planned@.dom().contains(name) <==> exists|k: int|
                    0 <= k < i + 1 && has_workspace(#[trigger] monitors@[k]@, name) by {
                let mine = monitors@[i as int];
                if exists|k: int|
                    0 <= k < mine.workspaces@.len() && (#[trigger] mine.workspaces@[k]).name@
                        == name {
                    let k = choose|k: int|
                        0 <= k < mine.workspaces@.len() && (#[trigger] mine.workspaces@[k]).name@
                            == name;
                    assert(mine@.workspaces[k].name == name);
                    assert(has_workspace(monitors@[i as int]@, name));
                }
                if before.dom().contains(name) {
                    let k = choose|k: int|
                        0 <= k < i && has_workspace(#[trigger] monitors@[k]@, name);
                    assert(has_workspace(monitors@[k]@, name));
                }
                if has_workspace(mine@, name) {
                    let k = choose|k: int|
                        0 <= k < mine@.workspaces.len() && #[trigger] mine@.workspaces[k].name
                            == name;
                    assert(mine.workspaces@[k].name@ == name);
                }
            }
        }
        i = i + 1;
    }
    planned
}

// ---------------------------------------------------------------------------
// Walking a tree
// ---------------------------------------------------------------------------

/// The local ids of a node and of everything below it, in depth-first order.
pub open spec fn preorder_ids(n: NodeModel) -> Seq<Seq<char>>
    decreases n,
{
    seq![n.local_id] + match n.children {
        Some(children) => preorder_ids_all(children),
        None => Seq::empty(),
    }
}

pub open spec fn preorder_ids_all(s: Seq<NodeModel>) -> Seq<Seq<char>>
    decreases s,
{
    if s.len() == 0 {
        Seq::empty()
    } else {
        preorder_ids_all(s.drop_last()) + preorder_ids(s.last())
    }
}

/// A window of a tree with the local id and recorded size of its node.
#[verifier::ext_equal]
pub struct LeafModel {
    pub local_id: Seq<char>,
    pub tiling_size: Option<TilingSize>,
    pub window: WindowModel,
}

/// The windows of a tree in depth-first order. Only window nodes count as
/// windows and only splits have children that count.
pub open spec fn leaves(n: NodeModel) -> Seq<LeafModel>
    decreases n,
{
    match n.kind {
        SnapshotNodeKind::Window => match n.window {
            Some(window) => seq![
                LeafModel { local_id: n.local_id, tiling_size: n.tiling_size, window },
            ],
            None => Seq::empty(),
        },
        SnapshotNodeKind::Split => match n.children {
            Some(children) => leaves_all(children),
            None => Seq::empty(),
        },
    }
}

pub open spec fn leaves_all(s: Seq<NodeModel>) -> Seq<LeafModel>
    decreases s,
{
    if s.len() == 0 {
        Seq::empty()
    } else {
        leaves_all(s.drop_last()) + leaves(s.last())
    }
}

/// The first monitor with a workspace is one that has it, and no earlier one does; so
/// there is only one.
pub proof fn law_first_monitor_comes_first(
    monitors: Seq<MonitorModel>,
    name: Seq<char>,
    index: int,
    k: int,
    j: int,
)
    requires
        is_first_monitor_with(monitors, name, index),
        0 <= k < monitors.len(),
        0 <= j < monitors[k].workspaces.len(),
        monitors[k].workspaces[j].name == name,
    ensures
        index <= k,
        exists|i: int|
            0 <= i < monitors[index].workspaces.len()
                && #[trigger] monitors[index].workspaces[i].name == name,
{
    assert(has_workspace(monitors[k], name));
}

} // verus!
