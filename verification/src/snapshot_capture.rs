//! Building a snapshot from the live container tree.
//!
//! Splits and windows of a workspace are numbered in depth-first order; the
//! number gives the local id, and focus orders name local ids in place of
//! container ids.
use crate::dto::{ContainerDto, ContainerId, MonitorDto, Rect, SplitContainerDto};
use crate::dto::{TilingDirection, TilingSize, WindowDto, WorkspaceDto};
use crate::layout_snapshot;
use crate::layout_snapshot::{IdentityModel, LayoutSnapshot, MonitorModel, NodeModel};
use crate::layout_snapshot::{SnapshotBounds, SnapshotModel, SnapshotMonitor, SnapshotNode};
use crate::layout_snapshot::{SnapshotNodeKind, SnapshotWindow, SnapshotWindowIdentity};
use crate::layout_snapshot::{SnapshotWorkspace, WindowModel, WorkspaceModel};
use crate::layout_snapshot::LAYOUT_SNAPSHOT_VERSION;
use crate::placement;
use crate::shares;
use crate::singles;
use crate::text;
use crate::window_state::{FloatingStateConfig, WindowState};
use std::collections::HashMap;
use vstd::arithmetic::power2::pow2;
use vstd::prelude::*;
use vstd::string::StringExecFns;

verus! {

broadcast use vstd::std_specs::hash::group_hash_axioms;

// ---------------------------------------------------------------------------
// What a snapshot records
// ---------------------------------------------------------------------------

/// The local id of the node with number `n`.
pub open spec fn local_id(n: nat) -> Seq<char> {
    seq!['n'] + text::decimal(n)
}

/// The record of a managed window. Where it is on its monitor is recorded with
/// the monitor.
pub open spec fn captured_window(w: WindowDto) -> WindowModel {
    WindowModel {
        identity: IdentityModel {
            process_path: text::opt_view(w.process_path),
            process_name: w.process_name@,
            class_name: text::opt_view(w.class_name),
            title_hint: Some(w.title@),
        },
        state: w.state,
        prev_state: w.prev_state,
        floating_placement: Some(w.floating_placement),
        floating_placement_relative: None,
        id: Some(w.id),
        handle: Some(w.handle),
    }
}

/// Nodes captured so far, the number of each captured container, and the next
/// number to give.
#[verifier::ext_equal]
pub struct Capture {
    pub nodes: Seq<NodeModel>,
    pub numbers: Map<ContainerId, u32>,
    pub next: nat,
}

/// A focus order in local ids; containers that were not captured drop out.
pub open spec fn local_order(
    order: Seq<ContainerId>,
    numbers: Map<ContainerId, u32>,
) -> Seq<Seq<char>> {
    order.filter(|id: ContainerId| numbers.dom().contains(id)).map_values(
        |id: ContainerId| local_id(numbers[id] as nat),
    )
}

// ---------------------------------------------------------------------------
// Sizes
// ---------------------------------------------------------------------------

/// What the saved size of a tiling container is taken from.
#[derive(Clone, Copy, Debug, PartialEq, Eq, Structural)]
pub enum Share {
    /// Its extent on the screen, out of the extents of all tiling siblings.
    Extent { part: u128, total: u128 },
    /// The sizes that the window manager keeps.
    Recorded,
}

/// Whether a container takes part in the tiling of its parent.
pub open spec fn tiles(dto: ContainerDto) -> bool {
    match dto {
        ContainerDto::Split(_) => true,
        ContainerDto::Window(w) => w.state == WindowState::Tiling,
        _ => false,
    }
}

/// The extent of a container along an axis.
pub open spec fn extent(dto: ContainerDto, direction: TilingDirection) -> int {
    match (dto, direction) {
        (ContainerDto::Split(s), TilingDirection::Horizontal) => s.width as int,
        (ContainerDto::Split(s), TilingDirection::Vertical) => s.height as int,
        (ContainerDto::Window(w), TilingDirection::Horizontal) => w.width as int,
        (ContainerDto::Window(w), TilingDirection::Vertical) => w.height as int,
        _ => 0,
    }
}

/// The size that the window manager keeps for a container.
pub open spec fn recorded_size(dto: ContainerDto) -> Option<TilingSize> {
    match dto {
        ContainerDto::Split(s) => Some(s.tiling_size),
        ContainerDto::Window(w) => w.tiling_size,
        _ => None,
    }
}

/// Whether every tiling container has an extent on the screen.
pub open spec fn all_have_extent(children: Seq<ContainerDto>, direction: TilingDirection) -> bool {
    forall|i: int|
        0 <= i < children.len() && tiles(#[trigger] children[i]) ==> extent(children[i], direction)
            > 0
}

/// The extents that count: those of tiling containers.
pub open spec fn tiling_extents(children: Seq<ContainerDto>, direction: TilingDirection) -> Seq<
    nat,
> {
    children.map_values(
        |c: ContainerDto|
            if tiles(c) {
                extent(c, direction) as nat
            } else {
                0
            },
    )
}

/// What the size of the child at `i` is taken from; nothing for a child that
/// does not tile.
pub open spec fn share_of(
    children: Seq<ContainerDto>,
    direction: TilingDirection,
    i: int,
) -> Option<Share> {
    if !tiles(children[i]) {
        None
    } else if all_have_extent(children, direction) {
        Some(
            Share::Extent {
                part: extent(children[i], direction) as u128,
                total: shares::sum(tiling_extents(children, direction)) as u128,
            },
        )
    } else {
        Some(Share::Recorded)
    }
}

/// The recorded sizes of the tiling containers.
pub open spec fn recorded_weights(children: Seq<ContainerDto>) -> Seq<Option<TilingSize>> {
    children.map_values(
        |c: ContainerDto|
            if tiles(c) {
                Some(TilingSize::weight_of(recorded_size(c)))
            } else {
                None
            },
    )
}

/// Whether the extents of tiling siblings, `total` in all, are left from before
/// they were laid out in `room`: they cover less than half of it, while the
/// recorded sizes add up to one.
pub open spec fn are_stale(children: Seq<ContainerDto>, total: int, room: int) -> bool {
    2 * total < room && shares::total(recorded_weights(children)) == TilingSize::one()
}

/// The size that is saved for the child at `i` of a container with the extent
/// `room`: its share of the tiling siblings, by their extents on the screen or,
/// where these are missing or stale, by their recorded sizes. A child that does
/// not tile keeps what the window manager has.
pub open spec fn captured_size(
    children: Seq<ContainerDto>,
    direction: TilingDirection,
    room: int,
    i: int,
) -> Option<TilingSize> {
    match share_of(children, direction, i) {
        Some(Share::Extent { part, total }) => if are_stale(children, total as int, room) {
            Some(shares::normalized(recorded_weights(children))[i])
        } else {
            Some(singles::closest(part as nat, total as nat))
        },
        Some(Share::Recorded) => Some(shares::normalized(recorded_weights(children))[i]),
        None => recorded_size(children[i]),
    }
}

/// The sizes that are saved for the children of a container.
pub open spec fn captured_sizes(
    children: Seq<ContainerDto>,
    direction: TilingDirection,
    room: int,
) -> Seq<Option<TilingSize>> {
    Seq::new(children.len(), |i: int| captured_size(children, direction, room, i))
}

/// The sizes that are saved for the children of a split.
pub open spec fn split_sizes(s: SplitContainerDto) -> Seq<Option<TilingSize>> {
    captured_sizes(
        s.children@,
        s.tiling_direction,
        match s.tiling_direction {
            TilingDirection::Horizontal => s.width as int,
            TilingDirection::Vertical => s.height as int,
        },
    )
}

/// The sizes that are saved for the children of a workspace.
pub open spec fn workspace_sizes(w: WorkspaceDto) -> Seq<Option<TilingSize>> {
    captured_sizes(
        w.children@,
        w.tiling_direction,
        match w.tiling_direction {
            TilingDirection::Horizontal => w.width as int,
            TilingDirection::Vertical => w.height as int,
        },
    )
}

// ---------------------------------------------------------------------------
// Nodes
// ---------------------------------------------------------------------------

/// The node of a window.
pub open spec fn window_node(w: WindowDto, size: Option<TilingSize>, number: nat) -> NodeModel {
    NodeModel {
        local_id: local_id(number),
        kind: SnapshotNodeKind::Window,
        tiling_size: size,
        tiling_direction: None,
        children: None,
        child_focus_order: None,
        window: Some(captured_window(w)),
        id: Some(w.id),
    }
}

/// The node of a split, given its captured children. A focus order is recorded
/// only if something is left in it.
pub open spec fn split_node(
    s: SplitContainerDto,
    size: Option<TilingSize>,
    number: nat,
    inner: Capture,
) -> NodeModel {
    let order = local_order(s.child_focus_order@, inner.numbers);
    NodeModel {
        local_id: local_id(number),
        kind: SnapshotNodeKind::Split,
        tiling_size: size,
        tiling_direction: Some(s.tiling_direction),
        children: Some(inner.nodes),
        child_focus_order: if order.len() == 0 {
            None
        } else {
            Some(order)
        },
        window: None,
        id: Some(s.id),
    }
}

/// `before` with the splits and windows of `dto` added. The container takes the
/// next number before its children do. Containers of other kinds add nothing.
pub open spec fn capture(dto: ContainerDto, size: Option<TilingSize>, before: Capture) -> Capture
    decreases dto,
{
    match dto {
        ContainerDto::Split(s) => {
            let inner = capture_all(
                s.children@,
                split_sizes(s),
                before.numbers.insert(s.id, before.next as u32),
                before.next + 1,
            );
            Capture {
                nodes: before.nodes.push(split_node(s, size, before.next, inner)),
                numbers: inner.numbers,
                next: inner.next,
            }
        },
        ContainerDto::Window(w) => Capture {
            nodes: before.nodes.push(window_node(w, size, before.next)),
            numbers: before.numbers.insert(w.id, before.next as u32),
            next: before.next + 1,
        },
        _ => before,
    }
}

/// The capture of a list of siblings with the given sizes.
pub open spec fn capture_all(
    children: Seq<ContainerDto>,
    sizes: Seq<Option<TilingSize>>,
    numbers: Map<ContainerId, u32>,
    next: nat,
) -> Capture
    decreases children,
{
    if children.len() == 0 {
        Capture { nodes: Seq::empty(), numbers, next }
    } else {
        capture(
            children.last(),
            sizes[children.len() - 1],
            capture_all(children.drop_last(), sizes, numbers, next),
        )
    }
}

/// The record of a workspace. Its root is a split that stands for the workspace
/// itself and takes the number after all others.
pub open spec fn captured_workspace(w: WorkspaceDto) -> WorkspaceModel {
    let all = capture_all(
        w.children@,
        workspace_sizes(w),
        Map::empty(),
        0,
    );
    WorkspaceModel {
        name: w.name@,
        tiling_direction: w.tiling_direction,
        child_focus_order: local_order(w.child_focus_order@, all.numbers),
        root: NodeModel {
            local_id: local_id(all.next),
            kind: SnapshotNodeKind::Split,
            tiling_size: None,
            tiling_direction: Some(w.tiling_direction),
            children: Some(all.nodes),
            child_focus_order: None,
            window: None,
            id: Some(w.id),
        },
        id: Some(w.id),
    }
}

/// The records of the workspaces among `children`, in order.
pub open spec fn captured_workspaces(children: Seq<ContainerDto>) -> Seq<WorkspaceModel>
    decreases children.len(),
{
    if children.len() == 0 {
        Seq::empty()
    } else {
        let before = captured_workspaces(children.drop_last());
        match children.last() {
            ContainerDto::Workspace(w) => before.push(captured_workspace(w)),
            _ => before,
        }
    }
}

/// Whether `dto` is the workspace with id `id`.
pub open spec fn is_workspace(dto: ContainerDto, id: ContainerId) -> bool {
    dto matches ContainerDto::Workspace(w) && w.id == id
}

/// The name of the first workspace among `children` with id `id`.
pub open spec fn workspace_name(children: Seq<ContainerDto>, id: ContainerId) -> Option<Seq<char>>
    decreases children.len(),
{
    if children.len() == 0 {
        None
    } else if is_workspace(children[0], id) {
        Some(children[0]->Workspace_0.name@)
    } else {
        workspace_name(children.drop_first(), id)
    }
}

/// The bounds of a monitor.
pub open spec fn monitor_rect(m: MonitorDto) -> Rect {
    Rect { x: m.x, y: m.y, width: m.width, height: m.height }
}

/// The record of a window on a monitor with the given bounds: its placement is
/// recorded in fractions of them too.
pub open spec fn placed_window(w: WindowModel, bounds: Rect) -> WindowModel {
    WindowModel {
        floating_placement_relative: match w.floating_placement {
            Some(rect) => placement::relative_to(rect, bounds),
            None => None,
        },
        ..w
    }
}

pub open spec fn placed_node(n: NodeModel, bounds: Rect) -> NodeModel
    decreases n,
{
    NodeModel {
        window: match n.window {
            Some(w) => Some(placed_window(w, bounds)),
            None => None,
        },
        children: match n.children {
            Some(children) => Some(placed_nodes(children, bounds)),
            None => None,
        },
        ..n
    }
}

pub open spec fn placed_nodes(s: Seq<NodeModel>, bounds: Rect) -> Seq<NodeModel>
    decreases s,
{
    if s.len() == 0 {
        Seq::empty()
    } else {
        placed_nodes(s.drop_last(), bounds).push(placed_node(s.last(), bounds))
    }
}

/// The record of a workspace on a monitor with the given bounds.
pub open spec fn placed_workspace(w: WorkspaceModel, bounds: Rect) -> WorkspaceModel {
    WorkspaceModel { root: placed_node(w.root, bounds), ..w }
}

/// The record of a monitor. The focused workspace is the one that leads the
/// monitor's focus order.
pub open spec fn captured_monitor(m: MonitorDto) -> MonitorModel {
    MonitorModel {
        hardware_id: text::opt_view(m.hardware_id),
        device_path: text::opt_view(m.device_path),
        device_name: m.device_name@,
        bounds: SnapshotBounds { x: m.x, y: m.y, width: m.width, height: m.height },
        focused_workspace_name: if m.child_focus_order@.len() == 0 {
            None
        } else {
            workspace_name(m.children@, m.child_focus_order@[0])
        },
        workspaces: captured_workspaces(m.children@).map_values(
            |w: WorkspaceModel| placed_workspace(w, monitor_rect(m)),
        ),
        id: Some(m.id),
    }
}

/// The records of the monitors among `containers`, in order.
pub open spec fn captured_monitors(containers: Seq<ContainerDto>) -> Seq<MonitorModel>
    decreases containers.len(),
{
    if containers.len() == 0 {
        Seq::empty()
    } else {
        let before = captured_monitors(containers.drop_last());
        match containers.last() {
            ContainerDto::Monitor(m) => before.push(captured_monitor(m)),
            _ => before,
        }
    }
}

// ---------------------------------------------------------------------------
// How many numbers a workspace takes
// ---------------------------------------------------------------------------

/// The number of splits and windows in `dto`.
pub open spec fn node_count(dto: ContainerDto) -> nat
    decreases dto,
{
    match dto {
        ContainerDto::Split(s) => 1 + node_count_all(s.children@),
        ContainerDto::Window(_) => 1,
        _ => 0,
    }
}

/// The number of splits and windows in a list of siblings.
pub open spec fn node_count_all(children: Seq<ContainerDto>) -> nat
    decreases children,
{
    if children.len() == 0 {
        0
    } else {
        node_count_all(children.drop_last()) + node_count(children.last())
    }
}

/// Whether the nodes of every workspace can be numbered with 32 bits, the root
/// included.
pub open spec fn numbers_fit(containers: Seq<ContainerDto>) -> bool {
    forall|i: int|
        0 <= i < containers.len() ==> (#[trigger] containers[i] matches ContainerDto::Monitor(m)
            ==> workspace_numbers_fit(m.children@))
}

pub open spec fn workspace_numbers_fit(children: Seq<ContainerDto>) -> bool {
    forall|i: int|
        0 <= i < children.len() ==> (#[trigger] children[i] matches ContainerDto::Workspace(w)
            ==> node_count_all(w.children@) < u32::MAX)
}

/// A capture takes as many numbers as there are splits and windows.
proof fn lemma_capture_next(dto: ContainerDto, size: Option<TilingSize>, before: Capture)
    ensures
        capture(dto, size, before).next == before.next + node_count(dto),
    decreases dto,
{
    if let ContainerDto::Split(s) = dto {
        lemma_capture_all_next(
            s.children@,
            split_sizes(s),
            before.numbers.insert(s.id, before.next as u32),
            before.next + 1,
        );
    }
}

proof fn lemma_capture_all_next(
    children: Seq<ContainerDto>,
    sizes: Seq<Option<TilingSize>>,
    numbers: Map<ContainerId, u32>,
    next: nat,
)
    ensures
        capture_all(children, sizes, numbers, next).next == next + node_count_all(children),
    decreases children,
{
    if children.len() > 0 {
        lemma_capture_all_next(children.drop_last(), sizes, numbers, next);
        lemma_capture_next(
            children.last(),
            sizes[children.len() - 1],
            capture_all(children.drop_last(), sizes, numbers, next),
        );
    }
}

proof fn lemma_count_of_prefix(children: Seq<ContainerDto>, k: int)
    requires
        0 <= k <= children.len(),
    ensures
        node_count_all(children.take(k)) <= node_count_all(children),
    decreases children.len() - k,
{
    if k < children.len() {
        lemma_count_of_prefix(children, k + 1);
        assert(children.take(k + 1).drop_last() =~= children.take(k));
    } else {
        assert(children.take(k) =~= children);
    }
}

/// Adds the splits and windows of `dto` to `count`; `None` where the sum does
/// not fit.
fn add_node_count(count: u32, dto: &ContainerDto) -> (r: Option<u32>)
    ensures
        match r {
            Some(n) => n == count + node_count(*dto),
            None => count + node_count(*dto) > u32::MAX,
        },
    decreases dto,
{
    match dto {
        ContainerDto::Split(s) => {
            if count == u32::MAX {
                return None;
            }
            let mut n: u32 = count + 1;
            let mut i: usize = 0;
            while i < s.children.len()
                invariant
                    *dto == ContainerDto::Split(*s),
                    i <= s.children@.len(),
                    n == count + 1 + node_count_all(s.children@.take(i as int)),
                decreases s.children@.len() - i,
            {
                proof {
                    assert(s.children@.take(i + 1).drop_last() =~= s.children@.take(i as int));
                    lemma_count_of_prefix(s.children@, i + 1);
                    assert(decreases_to!(dto => dto->Split_0));
                    assert(decreases_to!(dto->Split_0 => dto->Split_0.children));
                    assert(decreases_to!(s.children => s.children@));
                    assert(decreases_to!(s.children@ => s.children@[i as int]));
                }
                match add_node_count(n, &s.children[i]) {
                    Some(more) => {
                        n = more;
                    },
                    None => {
                        return None;
                    },
                }
                i = i + 1;
            }
            assert(s.children@.take(i as int) =~= s.children@);
            Some(n)
        },
        ContainerDto::Window(_) => {
            if count == u32::MAX {
                None
            } else {
                Some(count + 1)
            }
        },
        _ => Some(count),
    }
}

fn workspace_fits(workspace: &WorkspaceDto) -> (r: bool)
    ensures
        r == (node_count_all(workspace.children@) < u32::MAX),
{
    let mut n: u32 = 0;
    let mut i: usize = 0;
    assert(node_count_all(workspace.children@.take(0)) == 0);
    while i < workspace.children.len()
        invariant
            i <= workspace.children@.len(),
            n == node_count_all(workspace.children@.take(i as int)),
        decreases workspace.children@.len() - i,
    {
        proof {
            assert(workspace.children@.take(i + 1).drop_last() =~= workspace.children@.take(
                i as int,
            ));
            lemma_count_of_prefix(workspace.children@, i + 1);
        }
        match add_node_count(n, &workspace.children[i]) {
            Some(more) => {
                n = more;
            },
            None => {
                return false;
            },
        }
        i = i + 1;
    }
    assert(workspace.children@.take(i as int) =~= workspace.children@);
    n < u32::MAX
}

fn workspaces_fit(children: &[ContainerDto]) -> (r: bool)
    ensures
        r == workspace_numbers_fit(children@),
{
    let mut i: usize = 0;
    while i < children.len()
        invariant
            i <= children@.len(),
            forall|j: int|
                0 <= j < i ==> (#[trigger] children@[j] matches ContainerDto::Workspace(w)
                    ==> node_count_all(w.children@) < u32::MAX),
        decreases children@.len() - i,
    {
        if let ContainerDto::Workspace(w) = &children[i] {
            if !workspace_fits(w) {
                assert(children@[i as int] matches ContainerDto::Workspace(x)
                    && node_count_all(x.children@) >= u32::MAX);
                return false;
            }
        }
        i = i + 1;
    }
    true
}

/// Whether [`LayoutSnapshot::from_monitor_dtos`] can number the nodes of these
/// containers.
pub fn local_ids_fit(containers: &[ContainerDto]) -> (r: bool)
    ensures
        r == numbers_fit(containers@),
{
    let mut i: usize = 0;
    while i < containers.len()
        invariant
            i <= containers@.len(),
            forall|j: int|
                0 <= j < i ==> (#[trigger] containers@[j] matches ContainerDto::Monitor(m)
                    ==> workspace_numbers_fit(m.children@)),
        decreases containers@.len() - i,
    {
        if let ContainerDto::Monitor(m) = &containers[i] {
            if !workspaces_fit(&m.children) {
                assert(containers@[i as int] matches ContainerDto::Monitor(x)
                    && !workspace_numbers_fit(x.children@));
                return false;
            }
        }
        i = i + 1;
    }
    true
}

// ---------------------------------------------------------------------------
// Capturing
// ---------------------------------------------------------------------------

/// The local id of the node with number `n`.
fn local_id_string(n: u32) -> (r: String)
    ensures
        r@ == local_id(n as nat),
{
    let mut out = String::new();
    out.push('n');
    text::push_decimal(&mut out, n as u64);
    assert(out@ =~= local_id(n as nat));
    out
}

/// Takes the next number and gives its local id.
fn next_local_id(next_id: &mut u32) -> (r: String)
    requires
        *old(next_id) < u32::MAX,
    ensures
        r@ == local_id(*old(next_id) as nat),
        *final(next_id) == *old(next_id) + 1,
{
    let id = local_id_string(*next_id);
    *next_id = *next_id + 1;
    id
}

fn local_order_of(order: &[ContainerId], numbers: &HashMap<ContainerId, u32>) -> (r: Vec<String>)
    ensures
        text::views(r@) == local_order(order@, numbers@),
{
    let ghost known = |id: ContainerId| numbers@.dom().contains(id);
    let ghost name = |id: ContainerId| local_id(numbers@[id] as nat);
    let mut out: Vec<String> = Vec::new();
    let mut i: usize = 0;
    assert(text::views(out@) =~= order@.take(0).filter(known).map_values(name));
    while i < order.len()
        invariant
            i <= order@.len(),
            known == (|id: ContainerId| numbers@.dom().contains(id)),
            name == (|id: ContainerId| local_id(numbers@[id] as nat)),
            text::views(out@) == order@.take(i as int).filter(known).map_values(name),
        decreases order@.len() - i,
    {
        let ghost before = out@;
        let ghost kept = order@.take(i as int).filter(known);
        proof {
            assert(order@.take(i + 1).drop_last() =~= order@.take(i as int));
            assert(order@.take(i + 1).last() == order@[i as int]);
            reveal(Seq::filter);
        }
        match numbers.get(&order[i]) {
            Some(number) => {
                out.push(local_id_string(*number));
                assert(text::views(out@) =~= text::views(before).push(name(order@[i as int])));
                assert(kept.push(order@[i as int]).map_values(name) =~= kept.map_values(name).push(
                    name(order@[i as int]),
                ));
            },
            None => {},
        }
        i = i + 1;
    }
    assert(order@.take(i as int) =~= order@);
    out
}

impl SnapshotWindow {
    /// The record of a managed window.
    pub fn from_window_dto(window: &WindowDto) -> (r: SnapshotWindow)
        ensures
            r@ == captured_window(*window),
    {
        SnapshotWindow {
            identity: SnapshotWindowIdentity {
                process_path: text::copy_opt(&window.process_path),
                process_name: window.process_name.clone(),
                class_name: text::copy_opt(&window.class_name),
                title_hint: Some(window.title.clone()),
            },
            state: window.state,
            prev_state: window.prev_state,
            floating_placement: Some(window.floating_placement),
            floating_placement_relative: None,
            id: Some(window.id),
            handle: Some(window.handle),
        }
    }
}

fn takes_part(dto: &ContainerDto) -> (r: bool)
    ensures
        r == tiles(*dto),
{
    match dto {
        ContainerDto::Split(_) => true,
        ContainerDto::Window(w) => w.state == WindowState::Tiling,
        _ => false,
    }
}

fn extent_of(dto: &ContainerDto, direction: TilingDirection) -> (r: i32)
    ensures
        r == extent(*dto, direction),
{
    match dto {
        ContainerDto::Split(s) => match direction {
            TilingDirection::Horizontal => s.width,
            TilingDirection::Vertical => s.height,
        },
        ContainerDto::Window(w) => match direction {
            TilingDirection::Horizontal => w.width,
            TilingDirection::Vertical => w.height,
        },
        _ => 0,
    }
}

fn recorded_size_of(dto: &ContainerDto) -> (r: Option<TilingSize>)
    ensures
        r == recorded_size(*dto),
{
    match dto {
        ContainerDto::Split(s) => Some(s.tiling_size),
        ContainerDto::Window(w) => w.tiling_size,
        _ => None,
    }
}

/// The extents of the tiling containers added up; `None` where one has no
/// extent.
fn total_extent(children: &[ContainerDto], direction: TilingDirection) -> (r: Option<u128>)
    ensures
        match r {
            Some(total) => all_have_extent(children@, direction) && total == shares::sum(
                tiling_extents(children@, direction),
            ) && total <= children@.len() * 0x7fff_ffff,
            None => !all_have_extent(children@, direction),
        },
{
    let ghost all = tiling_extents(children@, direction);
    let mut total: u128 = 0;
    let mut i: usize = 0;
    while i < children.len()
        invariant
            i <= children@.len(),
            all == tiling_extents(children@, direction),
            forall|j: int|
                0 <= j < i && tiles(#[trigger] children@[j]) ==> extent(children@[j], direction)
                    > 0,
            total == shares::sum(all.take(i as int)),
            total <= i * 0x7fff_ffff,
        decreases children@.len() - i,
    {
        assert(all.take(i + 1).drop_last() =~= all.take(i as int));
        if takes_part(&children[i]) {
            let own: i32 = extent_of(&children[i], direction);
            if own <= 0 {
                assert(tiles(children@[i as int]) && extent(children@[i as int], direction) <= 0);
                return None;
            }
            total = total + own as u128;
        }
        i = i + 1;
    }
    assert(all.take(i as int) =~= all);
    Some(total)
}

/// What the saved sizes of siblings along `direction` are taken from: for each
/// tiling child its extent out of the extents of all tiling children, if they
/// all have one, and the recorded sizes otherwise.
pub fn tiling_shares(children: &[ContainerDto], direction: TilingDirection) -> (r: Vec<
    Option<Share>,
>)
    ensures
        r@.len() == children@.len(),
        forall|i: int|
            0 <= i < children@.len() ==> #[trigger] r@[i] == share_of(children@, direction, i),
{
    let total = total_extent(children, direction);
    let mut out: Vec<Option<Share>> = Vec::new();
    let mut i: usize = 0;
    while i < children.len()
        invariant
            i <= children@.len(),
            out@.len() == i,
            match total {
                Some(t) => all_have_extent(children@, direction) && t == shares::sum(
                    tiling_extents(children@, direction),
                ),
                None => !all_have_extent(children@, direction),
            },
            forall|j: int| 0 <= j < i ==> #[trigger] out@[j] == share_of(children@, direction, j),
        decreases children@.len() - i,
    {
        let share = if !takes_part(&children[i]) {
            None
        } else {
            match total {
                Some(t) => Some(
                    Share::Extent { part: extent_of(&children[i], direction) as u128, total: t },
                ),
                None => Some(Share::Recorded),
            }
        };
        assert(share == share_of(children@, direction, i as int));
        out.push(share);
        i = i + 1;
    }
    out
}

fn weights_of(children: &[ContainerDto]) -> (r: Vec<Option<TilingSize>>)
    ensures
        r@ == recorded_weights(children@),
{
    let ghost all = recorded_weights(children@);
    let mut out: Vec<Option<TilingSize>> = Vec::new();
    let mut i: usize = 0;
    while i < children.len()
        invariant
            i <= children@.len(),
            all == recorded_weights(children@),
            out@ == all.take(i as int),
        decreases children@.len() - i,
    {
        let weight = if takes_part(&children[i]) {
            Some(TilingSize::weight(recorded_size_of(&children[i])))
        } else {
            None
        };
        out.push(weight);
        i = i + 1;
        assert(out@ =~= all.take(i as int));
    }
    assert(all.take(i as int) =~= all);
    out
}

/// The sizes to save for the children of a container that lays them out along
/// `direction` and has the extent `room`.
fn sizes_to_save(children: &[ContainerDto], direction: TilingDirection, room: i32) -> (r: Vec<
    Option<TilingSize>,
>)
    ensures
        r@ == captured_sizes(children@, direction, room as int),
        r@.len() == children@.len(),
{
    let found = tiling_shares(children, direction);
    let weights = weights_of(children);
    let scaled = shares::normalize(&weights);
    let recorded_whole = shares::add_up(&weights) == TilingSize::from_bits(0x3f80_0000);
    let ghost all = captured_sizes(children@, direction, room as int);
    let mut out: Vec<Option<TilingSize>> = Vec::new();
    let mut i: usize = 0;
    while i < children.len()
        invariant
            i <= children@.len(),
            found@.len() == children@.len(),
            scaled@.len() == children@.len(),
            scaled@ == shares::normalized(recorded_weights(children@)),
            recorded_whole == (shares::total(recorded_weights(children@)) == TilingSize::one()),
            forall|j: int|
                0 <= j < children@.len() ==> #[trigger] found@[j] == share_of(
                    children@,
                    direction,
                    j,
                ),
            all == captured_sizes(children@, direction, room as int),
            out@ == all.take(i as int),
        decreases children@.len() - i,
    {
        let size = match found[i] {
            Some(Share::Extent { part, total }) => {
                proof {
                    lemma_part_of_total(children@, direction, i as int);
                }
                if recorded_whole && room > 0 && 2 * total < room as u128 {
                    Some(scaled[i])
                } else {
                    Some(singles::closest_single(part, total))
                }
            },
            Some(Share::Recorded) => Some(scaled[i]),
            None => recorded_size_of(&children[i]),
        };
        assert(size == all[i as int]);
        out.push(size);
        i = i + 1;
        assert(out@ =~= all.take(i as int));
    }
    assert(all.take(i as int) =~= all);
    out
}

fn convert_node(
    dto: &ContainerDto,
    size: Option<TilingSize>,
    numbers: &mut HashMap<ContainerId, u32>,
    next_id: &mut u32,
) -> (r: Option<SnapshotNode>)
    requires
        *old(next_id) + node_count(*dto) < u32::MAX,
    ensures
        ({
            let after = capture(
                *dto,
                size,
                Capture {
                    nodes: Seq::empty(),
                    numbers: old(numbers)@,
                    next: *old(next_id) as nat,
                },
            );
            &&& final(numbers)@ == after.numbers
            &&& *final(next_id) == after.next
            &&& match r {
                Some(node) => after.nodes == seq![node@],
                None => after.nodes.len() == 0,
            }
        }),
    decreases dto,
{
    let ghost number = *old(next_id) as nat;
    match dto {
        ContainerDto::Split(split) => {
            let ghost known = numbers@.insert(split.id, number as u32);
            let id_number: u32 = *next_id;
            let local_id = next_local_id(next_id);
            numbers.insert(split.id, id_number);
            assert(numbers@ =~= known);
            let room: i32 = match split.tiling_direction {
                TilingDirection::Horizontal => split.width,
                TilingDirection::Vertical => split.height,
            };
            let sizes = sizes_to_save(&split.children, split.tiling_direction, room);
            assert(sizes@ == split_sizes(*split));
            proof {
                assert(decreases_to!(dto => dto->Split_0));
                assert(decreases_to!(dto->Split_0 => dto->Split_0.children));
                lemma_capture_all_next(split.children@, sizes@, known, number + 1);
            }
            let children = convert_children(&split.children, &sizes, numbers, next_id);
            let ghost inner = capture_all(split.children@, sizes@, known, number + 1);
            let order = local_order_of(&split.child_focus_order, numbers);
            assert(text::views(order@).len() == order@.len());
            let child_focus_order = if order.len() == 0 {
                None
            } else {
                Some(order)
            };
            let node = SnapshotNode {
                local_id,
                kind: SnapshotNodeKind::Split,
                tiling_size: size,
                tiling_direction: Some(split.tiling_direction),
                children: Some(children),
                child_focus_order,
                window: None,
                id: Some(split.id),
            };
            assert(node@ =~~= split_node(*split, size, number, inner));
            assert(seq![node@] =~= Seq::<NodeModel>::empty().push(node@));
            Some(node)
        },
        ContainerDto::Window(window) => {
            let id_number: u32 = *next_id;
            let local_id = next_local_id(next_id);
            numbers.insert(window.id, id_number);
            let node = SnapshotNode {
                local_id,
                kind: SnapshotNodeKind::Window,
                tiling_size: size,
                tiling_direction: None,
                children: None,
                child_focus_order: None,
                window: Some(SnapshotWindow::from_window_dto(window)),
                id: Some(window.id),
            };
            assert(node@ =~~= window_node(*window, size, number));
            assert(seq![node@] =~= Seq::<NodeModel>::empty().push(node@));
            Some(node)
        },
        _ => None,
    }
}

fn convert_children(
    children: &Vec<ContainerDto>,
    sizes: &Vec<Option<TilingSize>>,
    numbers: &mut HashMap<ContainerId, u32>,
    next_id: &mut u32,
) -> (r: Vec<SnapshotNode>)
    requires
        sizes@.len() == children@.len(),
        *old(next_id) + node_count_all(children@) < u32::MAX,
    ensures
        ({
            let after = capture_all(children@, sizes@, old(numbers)@, *old(next_id) as nat);
            &&& layout_snapshot::node_views(r@) == after.nodes
            &&& final(numbers)@ == after.numbers
            &&& *final(next_id) == after.next
        }),
    decreases children,
{
    let mut out: Vec<SnapshotNode> = Vec::new();
    let mut i: usize = 0;
    let ghost start = *old(next_id) as nat;
    let ghost first = old(numbers)@;
    assert(children@.take(0).len() == 0);
    while i < children.len()
        invariant
            i <= children@.len(),
            sizes@.len() == children@.len(),
            start + node_count_all(children@) < u32::MAX,
            layout_snapshot::node_views(out@) == capture_all(
                children@.take(i as int),
                sizes@,
                first,
                start,
            ).nodes,
            numbers@ == capture_all(children@.take(i as int), sizes@, first, start).numbers,
            *next_id == capture_all(children@.take(i as int), sizes@, first, start).next,
        decreases children@.len() - i,
    {
        let ghost prefix = capture_all(children@.take(i as int), sizes@, first, start);
        let ghost alone = Capture { nodes: Seq::empty(), ..prefix };
        let ghost dto = children@[i as int];
        let size = sizes[i];
        proof {
            assert(children@.take(i + 1).drop_last() =~= children@.take(i as int));
            assert(children@.take(i + 1).last() == dto);
            lemma_capture_all_next(children@.take(i as int), sizes@, first, start);
            lemma_count_of_prefix(children@, i + 1);
            assert(decreases_to!(children => children@));
            assert(decreases_to!(children@ => children@[i as int]));
            assert(capture(dto, size, prefix).nodes =~= prefix.nodes + capture(dto, size, alone).nodes);
        }
        let converted = convert_node(&children[i], size, numbers, next_id);
        match converted {
            Some(node) => {
                let ghost before = out@;
                out.push(node);
                assert(out@.drop_last() =~= before);
                assert(layout_snapshot::node_views(out@) =~= prefix.nodes + seq![node@]);
            },
            None => {
                assert(prefix.nodes + capture(dto, size, alone).nodes =~= prefix.nodes);
            },
        }
        i = i + 1;
    }
    assert(children@.take(i as int) =~= children@);
    out
}

impl SnapshotWorkspace {
    fn from_workspace_dto(workspace: &WorkspaceDto) -> (r: SnapshotWorkspace)
        requires
            node_count_all(workspace.children@) < u32::MAX,
        ensures
            r@ == captured_workspace(*workspace),
    {
        let mut numbers: HashMap<ContainerId, u32> = HashMap::new();
        let mut next_id: u32 = 0;
        let room: i32 = match workspace.tiling_direction {
            TilingDirection::Horizontal => workspace.width,
            TilingDirection::Vertical => workspace.height,
        };
        let sizes = sizes_to_save(&workspace.children, workspace.tiling_direction, room);
        assert(sizes@ == workspace_sizes(*workspace));
        let children = convert_children(&workspace.children, &sizes, &mut numbers, &mut next_id);
        let child_focus_order = local_order_of(&workspace.child_focus_order, &numbers);
        proof {
            lemma_capture_all_next(workspace.children@, sizes@, Map::empty(), 0);
        }
        let root = SnapshotNode {
            local_id: next_local_id(&mut next_id),
            kind: SnapshotNodeKind::Split,
            tiling_size: None,
            tiling_direction: Some(workspace.tiling_direction),
            children: Some(children),
            child_focus_order: None,
            window: None,
            id: Some(workspace.id),
        };
        let r = SnapshotWorkspace {
            name: workspace.name.clone(),
            tiling_direction: workspace.tiling_direction,
            child_focus_order,
            root,
            id: Some(workspace.id),
        };
        assert(r@ =~~= captured_workspace(*workspace));
        r
    }
}

fn name_of_workspace(children: &[ContainerDto], id: ContainerId) -> (r: Option<String>)
    ensures
        text::opt_view(r) == workspace_name(children@, id),
{
    let mut i: usize = 0;
    assert(children@.skip(0) =~= children@);
    while i < children.len()
        invariant
            i <= children@.len(),
            workspace_name(children@, id) == workspace_name(children@.skip(i as int), id),
        decreases children@.len() - i,
    {
        assert(children@.skip(i as int).drop_first() =~= children@.skip(i + 1));
        if let ContainerDto::Workspace(w) = &children[i] {
            if w.id == id {
                return Some(w.name.clone());
            }
        }
        i = i + 1;
    }
    None
}

proof fn lemma_placed_nodes(s: Seq<NodeModel>, bounds: Rect)
    ensures
        placed_nodes(s, bounds).len() == s.len(),
        forall|i: int|
            0 <= i < s.len() ==> #[trigger] placed_nodes(s, bounds)[i] == placed_node(s[i], bounds),
    decreases s.len(),
{
    if s.len() > 0 {
        lemma_placed_nodes(s.drop_last(), bounds);
    }
}

fn place_window(window: &mut SnapshotWindow, bounds: Rect)
    ensures
        final(window)@ == placed_window(old(window)@, bounds),
{
    window.floating_placement_relative = match window.floating_placement {
        Some(rect) => placement::relative_placement(rect, bounds),
        None => None,
    };
}

fn place_node(node: &mut SnapshotNode, bounds: Rect)
    ensures
        final(node)@ == placed_node(old(node)@, bounds),
    decreases *old(node), 1nat,
{
    match &mut node.window {
        Some(window) => {
            place_window(window, bounds);
        },
        None => {},
    }
    match &mut node.children {
        Some(children) => {
            place_nodes(children, bounds);
        },
        None => {},
    }
}

fn place_nodes(nodes: &mut Vec<SnapshotNode>, bounds: Rect)
    ensures
        layout_snapshot::node_views(final(nodes)@) == placed_nodes(
            layout_snapshot::node_views(old(nodes)@),
            bounds,
        ),
    decreases *old(nodes), 0nat,
{
    let mut i: usize = 0;
    while i < nodes.len()
        invariant
            i <= nodes@.len(),
            nodes@.len() == old(nodes)@.len(),
            forall|j: int|
                0 <= j < i ==> layout_snapshot::node_view(#[trigger] nodes@[j]) == placed_node(
                    layout_snapshot::node_view(old(nodes)@[j]),
                    bounds,
                ),
            forall|j: int| i <= j < nodes@.len() ==> #[trigger] nodes@[j] == old(nodes)@[j],
        decreases nodes@.len() - i,
    {
        assert(decreases_to!(*old(nodes) => old(nodes)@[i as int]));
        place_node(&mut nodes[i], bounds);
        i = i + 1;
    }
    proof {
        layout_snapshot::lemma_node_views(nodes@);
        layout_snapshot::lemma_node_views(old(nodes)@);
        lemma_placed_nodes(layout_snapshot::node_views(old(nodes)@), bounds);
        assert(layout_snapshot::node_views(nodes@) =~= placed_nodes(
            layout_snapshot::node_views(old(nodes)@),
            bounds,
        ));
    }
}

impl SnapshotMonitor {
    fn from_monitor_dto(monitor: &MonitorDto) -> (r: SnapshotMonitor)
        requires
            workspace_numbers_fit(monitor.children@),
        ensures
            r@ == captured_monitor(*monitor),
    {
        let focused_workspace_name = if monitor.child_focus_order.len() == 0 {
            None
        } else {
            name_of_workspace(&monitor.children, monitor.child_focus_order[0])
        };
        let bounds = Rect {
            x: monitor.x,
            y: monitor.y,
            width: monitor.width,
            height: monitor.height,
        };
        let ghost place = |w: WorkspaceModel| placed_workspace(w, bounds);
        let mut workspaces: Vec<SnapshotWorkspace> = Vec::new();
        let mut i: usize = 0;
        assert(layout_snapshot::workspace_views(workspaces@) =~= captured_workspaces(
            monitor.children@.take(0),
        ).map_values(place));
        while i < monitor.children.len()
            invariant
                i <= monitor.children@.len(),
                workspace_numbers_fit(monitor.children@),
                layout_snapshot::workspace_views(workspaces@) == captured_workspaces(
                    monitor.children@.take(i as int),
                ).map_values(place),
                place == (|w: WorkspaceModel| placed_workspace(w, bounds)),
            decreases monitor.children@.len() - i,
        {
            assert(monitor.children@.take(i + 1).drop_last() =~= monitor.children@.take(i as int));
            if let ContainerDto::Workspace(w) = &monitor.children[i] {
                let ghost before = workspaces@;
                let ghost listed = captured_workspaces(monitor.children@.take(i as int));
                let mut ws = SnapshotWorkspace::from_workspace_dto(w);
                place_node(&mut ws.root, bounds);
                workspaces.push(ws);
                assert(ws@ =~= place(captured_workspace(*w)));
                assert(layout_snapshot::workspace_views(workspaces@)
                    =~= layout_snapshot::workspace_views(before).push(ws@));
                assert(listed.push(captured_workspace(*w)).map_values(place)
                    =~= listed.map_values(place).push(place(captured_workspace(*w))));
            }
            i = i + 1;
        }
        assert(monitor.children@.take(i as int) =~= monitor.children@);
        SnapshotMonitor {
            hardware_id: text::copy_opt(&monitor.hardware_id),
            device_path: text::copy_opt(&monitor.device_path),
            device_name: monitor.device_name.clone(),
            bounds: SnapshotBounds {
                x: monitor.x,
                y: monitor.y,
                width: monitor.width,
                height: monitor.height,
            },
            focused_workspace_name,
            workspaces,
            id: Some(monitor.id),
        }
    }
}

impl LayoutSnapshot {
    /// Builds a live snapshot from the monitors among `monitors` and the given
    /// status. Containers that are no monitors are left out.
    pub fn from_monitor_dtos(
        monitors: &[ContainerDto],
        ignored_windows: Vec<SnapshotWindow>,
        paused: bool,
        binding_modes: Vec<String>,
        glazewm_version: Option<String>,
        captured_at: String,
    ) -> (r: LayoutSnapshot)
        requires
            numbers_fit(monitors@),
        ensures
            r@ == (SnapshotModel {
                version: LAYOUT_SNAPSHOT_VERSION,
                captured_at: captured_at@,
                glazewm_version: text::opt_view(glazewm_version),
                paused,
                binding_modes: text::views(binding_modes@),
                monitors: captured_monitors(monitors@),
                ignored_windows: layout_snapshot::window_views(ignored_windows@),
            }),
    {
        let mut out: Vec<SnapshotMonitor> = Vec::new();
        let mut i: usize = 0;
        assert(layout_snapshot::monitor_views(out@) =~= captured_monitors(monitors@.take(0)));
        while i < monitors.len()
            invariant
                i <= monitors@.len(),
                numbers_fit(monitors@),
                layout_snapshot::monitor_views(out@) == captured_monitors(
                    monitors@.take(i as int),
                ),
            decreases monitors@.len() - i,
        {
            assert(monitors@.take(i + 1).drop_last() =~= monitors@.take(i as int));
            if let ContainerDto::Monitor(m) = &monitors[i] {
                let ghost before = out@;
                let mon = SnapshotMonitor::from_monitor_dto(m);
                out.push(mon);
                assert(layout_snapshot::monitor_views(out@) =~= layout_snapshot::monitor_views(
                    before,
                ).push(mon@));
            }
            i = i + 1;
        }
        assert(monitors@.take(i as int) =~= monitors@);
        LayoutSnapshot {
            version: LAYOUT_SNAPSHOT_VERSION,
            captured_at,
            glazewm_version,
            paused,
            binding_modes,
            monitors: out,
            ignored_windows,
        }
    }
}

/// A window that the window manager leaves alone, as the desktop reports it.
/// What could not be read is missing.
#[derive(Debug, PartialEq, Eq)]
pub struct NativeWindowInfo {
    pub handle: isize,
    pub process_path: Option<String>,
    pub process_name: Option<String>,
    pub class_name: Option<String>,
    pub title: Option<String>,
    pub frame: Option<Rect>,
}

/// The record of an ignored window: a floating window with no container.
pub open spec fn captured_native(w: NativeWindowInfo, floating: FloatingStateConfig) -> WindowModel {
    WindowModel {
        identity: IdentityModel {
            process_path: text::opt_view(w.process_path),
            process_name: match w.process_name {
                Some(name) => name@,
                None => "unknown"@,
            },
            class_name: text::opt_view(w.class_name),
            title_hint: text::opt_view(w.title),
        },
        state: WindowState::Floating(floating),
        prev_state: None,
        floating_placement: w.frame,
        floating_placement_relative: None,
        id: None,
        handle: Some(w.handle),
    }
}

/// The record of an ignored window. `floating` holds the options of a floating
/// window that has none of its own.
pub fn snapshot_from_native_window(
    native: &NativeWindowInfo,
    floating: FloatingStateConfig,
) -> (r: SnapshotWindow)
    ensures
        r@ == captured_native(*native, floating),
{
    SnapshotWindow {
        identity: SnapshotWindowIdentity {
            process_path: text::copy_opt(&native.process_path),
            process_name: match &native.process_name {
                Some(name) => name.clone(),
                None => "unknown".to_owned(),
            },
            class_name: text::copy_opt(&native.class_name),
            title_hint: text::copy_opt(&native.title),
        },
        state: WindowState::Floating(floating),
        prev_state: None,
        floating_placement: native.frame,
        floating_placement_relative: None,
        id: None,
        handle: Some(native.handle),
    }
}

/// The records of ignored windows.
pub fn snapshots_from_native_windows(
    natives: &[NativeWindowInfo],
    floating: FloatingStateConfig,
) -> (r: Vec<SnapshotWindow>)
    ensures
        layout_snapshot::window_views(r@) == natives@.map_values(
            |w: NativeWindowInfo| captured_native(w, floating),
        ),
{
    let ghost all = natives@.map_values(|w: NativeWindowInfo| captured_native(w, floating));
    let mut out: Vec<SnapshotWindow> = Vec::new();
    let mut i: usize = 0;
    while i < natives.len()
        invariant
            i <= natives@.len(),
            all == natives@.map_values(|w: NativeWindowInfo| captured_native(w, floating)),
            layout_snapshot::window_views(out@) == all.take(i as int),
        decreases natives@.len() - i,
    {
        let ghost before = out@;
        let w = snapshot_from_native_window(&natives[i], floating);
        out.push(w);
        assert(layout_snapshot::window_views(out@) =~= layout_snapshot::window_views(before).push(
            w@,
        ));
        i = i + 1;
        assert(layout_snapshot::window_views(out@) =~= all.take(i as int));
    }
    assert(all.take(i as int) =~= all);
    out
}

/// What a snapshot of the whole desktop is made from.
#[derive(Debug, PartialEq, Eq)]
pub struct DesktopState {
    pub monitors: Vec<ContainerDto>,
    pub ignored_windows: Vec<NativeWindowInfo>,
    pub is_paused: bool,
    /// Names of the active binding modes.
    pub binding_modes: Vec<String>,
}

/// The snapshot of a desktop.
pub open spec fn captured_desktop(
    desktop: DesktopState,
    floating: FloatingStateConfig,
    version: Seq<char>,
    captured_at: Seq<char>,
) -> SnapshotModel {
    SnapshotModel {
        version: LAYOUT_SNAPSHOT_VERSION,
        captured_at,
        glazewm_version: Some(version),
        paused: desktop.is_paused,
        binding_modes: text::views(desktop.binding_modes@),
        monitors: captured_monitors(desktop.monitors@),
        ignored_windows: desktop.ignored_windows@.map_values(
            |w: NativeWindowInfo| captured_native(w, floating),
        ),
    }
}

/// The snapshot of a desktop, ids and handles included.
pub fn build_layout_snapshot(
    desktop: &DesktopState,
    floating: FloatingStateConfig,
    version: &str,
    captured_at: String,
) -> (r: LayoutSnapshot)
    requires
        numbers_fit(desktop.monitors@),
    ensures
        r@ == captured_desktop(*desktop, floating, version@, captured_at@),
{
    let ignored = snapshots_from_native_windows(&desktop.ignored_windows, floating);
    LayoutSnapshot::from_monitor_dtos(
        &desktop.monitors,
        ignored,
        desktop.is_paused,
        text::copy_all(&desktop.binding_modes),
        Some(version.to_owned()),
        captured_at,
    )
}

/// The snapshot of a desktop as it is written to a file or the clipboard:
/// without ids and handles.
pub fn build_durable_snapshot(
    desktop: &DesktopState,
    floating: FloatingStateConfig,
    version: &str,
    captured_at: String,
) -> (r: LayoutSnapshot)
    requires
        numbers_fit(desktop.monitors@),
    ensures
        r@ == layout_snapshot::durable(
            captured_desktop(*desktop, floating, version@, captured_at@),
        ),
{
    build_layout_snapshot(desktop, floating, version, captured_at).into_durable()
}

// ---------------------------------------------------------------------------
// Laws
// ---------------------------------------------------------------------------

/// The managed windows below a container, in depth-first order through splits.
pub open spec fn managed_windows(dto: ContainerDto) -> Seq<WindowDto>
    decreases dto,
{
    match dto {
        ContainerDto::Split(s) => managed_windows_all(s.children@),
        ContainerDto::Window(w) => seq![w],
        _ => Seq::empty(),
    }
}

pub open spec fn managed_windows_all(children: Seq<ContainerDto>) -> Seq<WindowDto>
    decreases children,
{
    if children.len() == 0 {
        Seq::empty()
    } else {
        managed_windows_all(children.drop_last()) + managed_windows(children.last())
    }
}

/// The local ids with numbers `from`, `from + 1`, ...
pub open spec fn numbered_ids(from: nat, count: nat) -> Seq<Seq<char>> {
    Seq::new(count, |i: int| local_id((from + i) as nat))
}

/// The parts of an extent share.
pub open spec fn share_parts(children: Seq<ContainerDto>, direction: TilingDirection) -> Seq<nat> {
    Seq::new(
        children.len(),
        |i: int|
            match share_of(children, direction, i) {
                Some(Share::Extent { part, .. }) => part as nat,
                _ => 0,
            },
    )
}

/// Where saved sizes are taken from extents, the parts of all siblings add up to
/// the total, and each part is positive and within it.
pub proof fn law_extents_add_up(children: Seq<ContainerDto>, direction: TilingDirection, i: int)
    requires
        children.len() <= usize::MAX,
        0 <= i < children.len(),
        share_of(children, direction, i) is Some,
        share_of(children, direction, i)->0 is Extent,
    ensures
        share_of(children, direction, i) matches Some(Share::Extent { part, total }) && 0 < part
            <= total && shares::sum(share_parts(children, direction)) == total,
{
    lemma_part_of_total(children, direction, i);
    let all = tiling_extents(children, direction);
    assert forall|j: int| 0 <= j < children.len() implies #[trigger] share_parts(
        children,
        direction,
    )[j] == all[j] by {
        assert(all[j] == if tiles(children[j]) {
            extent(children[j], direction) as nat
        } else {
            0
        });
    }
    assert(share_parts(children, direction) =~= all);
}

/// The sizes that are saved for tiling siblings, with zero for what does not tile.
pub open spec fn saved_shares(
    children: Seq<ContainerDto>,
    direction: TilingDirection,
    room: int,
) -> Seq<TilingSize> {
    Seq::new(
        children.len(),
        |i: int|
            if tiles(children[i]) {
                captured_size(children, direction, room, i)->0
            } else {
                TilingSize::zero()
            },
    )
}

/// The number of siblings that tile.
pub open spec fn tiling_count(children: Seq<ContainerDto>) -> nat {
    shares::sum(shares::ones(recorded_weights(children)))
}

/// The saved sizes of tiling siblings add up to one but for rounding, wherever
/// all have an extent or the sum of the recorded sizes is finite.
pub proof fn law_saved_sizes_add_up(
    children: Seq<ContainerDto>,
    direction: TilingDirection,
    room: int,
)
    requires
        children.len() <= usize::MAX,
        exists|i: int| 0 <= i < children.len() && tiles(#[trigger] children[i]),
        all_have_extent(children, direction) || shares::total(recorded_weights(children)).bits
            < singles::INFINITE,
    ensures
        shares::add_up_to_one(saved_shares(children, direction, room), tiling_count(children)),
{
    let weights = recorded_weights(children);
    let saved = saved_shares(children, direction, room);
    let some = choose|i: int| 0 <= i < children.len() && tiles(#[trigger] children[i]);
    assert(weights[some] is Some);
    let extents = tiling_extents(children, direction);
    let t = shares::sum(extents);
    if all_have_extent(children, direction) {
        lemma_part_of_total(children, direction, some);
    }
    if all_have_extent(children, direction) && !are_stale(children, t as int, room) {
        let r = shares::values(saved);
        let n = shares::ones(weights);
        let e = pow2(124);
        let h = pow2(149);
        singles::lemma_zero();
        assert forall|i: int| 0 <= i < extents.len() implies -(n[i] * (t * e)) <= #[trigger] r[i]
            * t - extents[i] * h <= n[i] * (t * e) by {
            if tiles(children[i]) {
                lemma_part_of_total(children, direction, i);
                singles::lemma_part_is_single(extents[i], t);
                singles::law_quotient_is_close(extents[i], t);
                assert(saved[i] == singles::single(extents[i], t));
                assert(n[i] == 1);
                assert(1 * (t * e) == t * e);
            } else {
                assert(saved[i] == TilingSize::zero());
                assert(n[i] == 0);
                assert(0 * t == 0 && 0 * h == 0 && 0 * (t * e) == 0);
            }
        }
        shares::lemma_errors_add(extents, r, n, t, h, t * e);
        let count = shares::sum(n);
        assert(0 <= count * t) by (nonlinear_arith)
            requires
                0 <= count,
                0 <= t,
        ;
        shares::lemma_shares_of_whole(shares::sum(r), t, t, count);
    } else {
        shares::law_shares_add_up(weights);
        assert(saved =~= shares::normalized(weights));
    }
}

proof fn lemma_sum_of_extents(children: Seq<ContainerDto>, direction: TilingDirection, i: int)
    requires
        0 <= i < children.len(),
        all_have_extent(children, direction),
    ensures
        tiling_extents(children, direction)[i] <= shares::sum(tiling_extents(children, direction))
            <= children.len() * 0x7fff_ffff,
    decreases children.len(),
{
    let all = tiling_extents(children, direction);
    let rest = children.drop_last();
    assert(all.drop_last() =~= tiling_extents(rest, direction));
    assert forall|j: int| 0 <= j < rest.len() && tiles(#[trigger] rest[j]) implies extent(
        rest[j],
        direction,
    ) > 0 by {
        assert(rest[j] == children[j]);
    }
    assert(0 <= all.last() <= 0x7fff_ffff);
    if rest.len() > 0 {
        lemma_sum_of_extents(
            rest,
            direction,
            if i < rest.len() {
                i
            } else {
                0
            },
        );
    }
}

proof fn lemma_part_of_total(children: Seq<ContainerDto>, direction: TilingDirection, i: int)
    requires
        children.len() <= usize::MAX,
        0 <= i < children.len(),
        share_of(children, direction, i) is Some,
        share_of(children, direction, i)->0 is Extent,
    ensures
        share_of(children, direction, i) matches Some(Share::Extent { part, total }) && 0 < part
            <= total < singles::LIMIT && total == shares::sum(tiling_extents(children, direction))
            && part == extent(children[i], direction),
{
    lemma_sum_of_extents(children, direction, i);
    assert(children.len() * 0x7fff_ffff <= 0xffff_ffff_ffff_ffff * 0x7fff_ffff);
}

/// Capturing numbers the nodes in depth-first order, one by one.
pub proof fn law_local_ids_number_the_nodes(
    children: Seq<ContainerDto>,
    sizes: Seq<Option<TilingSize>>,
    numbers: Map<ContainerId, u32>,
    next: nat,
)
    ensures
        layout_snapshot::preorder_ids_all(capture_all(children, sizes, numbers, next).nodes)
            == numbered_ids(next, node_count_all(children)),
    decreases children,
{
    let all = capture_all(children, sizes, numbers, next);
    if children.len() == 0 {
        assert(layout_snapshot::preorder_ids_all(all.nodes) =~= numbered_ids(next, 0));
    } else {
        let before = capture_all(children.drop_last(), sizes, numbers, next);
        let dto = children.last();
        law_local_ids_number_the_nodes(children.drop_last(), sizes, numbers, next);
        lemma_capture_all_next(children.drop_last(), sizes, numbers, next);
        assert(all == capture(dto, sizes[children.len() - 1], before));
        reveal_with_fuel(capture, 2);
        reveal_with_fuel(node_count, 2);
        reveal_with_fuel(layout_snapshot::preorder_ids, 2);
        let k = before.next;
        match dto {
            ContainerDto::Split(s) => {
                let known = before.numbers.insert(s.id, k as u32);
                law_local_ids_number_the_nodes(
                    s.children@,
                    split_sizes(s),
                    known,
                    k + 1,
                );
                assert(layout_snapshot::preorder_ids(all.nodes.last()) =~= numbered_ids(
                    k,
                    node_count(dto),
                ));
                lemma_preorder_push(before.nodes, all.nodes.last());
                assert(all.nodes =~= before.nodes.push(all.nodes.last()));
            },
            ContainerDto::Window(w) => {
                assert(layout_snapshot::preorder_ids(all.nodes.last()) =~= numbered_ids(k, 1));
                lemma_preorder_push(before.nodes, all.nodes.last());
                assert(all.nodes =~= before.nodes.push(all.nodes.last()));
            },
            _ => {},
        }
        assert(node_count_all(children) == node_count_all(children.drop_last()) + node_count(dto));
        assert(layout_snapshot::preorder_ids_all(all.nodes) =~= numbered_ids(
            next,
            node_count_all(children),
        ));
    }
}

proof fn lemma_preorder_push(nodes: Seq<NodeModel>, node: NodeModel)
    ensures
        layout_snapshot::preorder_ids_all(nodes.push(node)) == layout_snapshot::preorder_ids_all(
            nodes,
        ) + layout_snapshot::preorder_ids(node),
{
    assert(nodes.push(node).drop_last() =~= nodes);
}

proof fn lemma_leaves_push(nodes: Seq<NodeModel>, node: NodeModel)
    ensures
        layout_snapshot::leaves_all(nodes.push(node)) == layout_snapshot::leaves_all(nodes)
            + layout_snapshot::leaves(node),
{
    assert(nodes.push(node).drop_last() =~= nodes);
}

/// Different numbers give different local ids.
pub proof fn law_local_ids_differ(a: nat, b: nat)
    requires
        local_id(a) == local_id(b),
    ensures
        a == b,
{
    assert(local_id(a).skip(1) =~= text::decimal(a));
    assert(local_id(b).skip(1) =~= text::decimal(b));
    text::law_decimal_injective(a, b);
}

/// No local id occurs twice in a captured workspace.
pub proof fn law_local_ids_are_unique(workspace: WorkspaceDto)
    ensures
        layout_snapshot::preorder_ids(captured_workspace(workspace).root).no_duplicates(),
{
    let count = node_count_all(workspace.children@);
    let sizes = workspace_sizes(workspace);
    law_local_ids_number_the_nodes(workspace.children@, sizes, Map::empty(), 0);
    lemma_capture_all_next(workspace.children@, sizes, Map::empty(), 0);
    let ids = layout_snapshot::preorder_ids(captured_workspace(workspace).root);
    assert(ids =~= seq![local_id(count)] + numbered_ids(0, count));
    assert forall|i: int, j: int| 0 <= i < ids.len() && 0 <= j < ids.len() && i != j implies ids[i]
        != ids[j] by {
        let a = if i == 0 {
            count
        } else {
            (i - 1) as nat
        };
        let b = if j == 0 {
            count
        } else {
            (j - 1) as nat
        };
        assert(ids[i] == local_id(a));
        assert(ids[j] == local_id(b));
        if ids[i] == ids[j] {
            law_local_ids_differ(a, b);
        }
    }
}

/// A captured workspace holds exactly the managed windows of the workspace, in
/// depth-first order, each with its identity, state and placement.
pub proof fn law_every_window_is_recorded(
    children: Seq<ContainerDto>,
    sizes: Seq<Option<TilingSize>>,
    numbers: Map<ContainerId, u32>,
    next: nat,
)
    ensures
        layout_snapshot::leaves_all(capture_all(children, sizes, numbers, next).nodes).map_values(
            |l: layout_snapshot::LeafModel| l.window,
        ) == managed_windows_all(children).map_values(|w: WindowDto| captured_window(w)),
    decreases children,
{
    let f = |l: layout_snapshot::LeafModel| l.window;
    let g = |w: WindowDto| captured_window(w);
    let all = capture_all(children, sizes, numbers, next);
    if children.len() == 0 {
        assert(layout_snapshot::leaves_all(all.nodes).map_values(f) =~= managed_windows_all(
            children,
        ).map_values(g));
    } else {
        let before = capture_all(children.drop_last(), sizes, numbers, next);
        law_every_window_is_recorded(children.drop_last(), sizes, numbers, next);
        assert(all == capture(children.last(), sizes[children.len() - 1], before));
        reveal_with_fuel(capture, 2);
        reveal_with_fuel(managed_windows, 2);
        reveal_with_fuel(layout_snapshot::leaves, 2);
        match children.last() {
            ContainerDto::Split(s) => {
                let known = before.numbers.insert(s.id, before.next as u32);
                law_every_window_is_recorded(
                    s.children@,
                    split_sizes(s),
                    known,
                    before.next + 1,
                );
                lemma_leaves_push(before.nodes, all.nodes.last());
                assert(all.nodes =~= before.nodes.push(all.nodes.last()));
            },
            ContainerDto::Window(w) => {
                lemma_leaves_push(before.nodes, all.nodes.last());
                assert(all.nodes =~= before.nodes.push(all.nodes.last()));
                assert(layout_snapshot::leaves(all.nodes.last()).map_values(f) =~= seq![w].map_values(
                    g,
                ));
            },
            _ => {},
        }
        assert(managed_windows_all(children) == managed_windows_all(children.drop_last())
            + managed_windows(children.last()));
        assert(managed_windows_all(children).map_values(g) =~= managed_windows_all(
            children.drop_last(),
        ).map_values(g) + managed_windows(children.last()).map_values(g));
        assert(layout_snapshot::leaves_all(all.nodes).map_values(f) =~= managed_windows_all(
            children,
        ).map_values(g));
    }
}

/// The leaf with its window on a monitor with the given bounds.
pub open spec fn placed_leaf(l: layout_snapshot::LeafModel, bounds: Rect) -> layout_snapshot::LeafModel {
    layout_snapshot::LeafModel { window: placed_window(l.window, bounds), ..l }
}

/// The placement of every window of a monitor is recorded relative to the
/// monitor, and nothing else about the window changes.
pub proof fn law_every_window_is_placed(n: NodeModel, bounds: Rect)
    ensures
        layout_snapshot::leaves(placed_node(n, bounds)) == layout_snapshot::leaves(n).map_values(
            |l: layout_snapshot::LeafModel| placed_leaf(l, bounds),
        ),
    decreases n,
{
    let f = |l: layout_snapshot::LeafModel| placed_leaf(l, bounds);
    if let Some(children) = n.children {
        lemma_all_are_placed(children, bounds);
    }
    assert(layout_snapshot::leaves(placed_node(n, bounds)) =~= layout_snapshot::leaves(
        n,
    ).map_values(f));
}

proof fn lemma_all_are_placed(s: Seq<NodeModel>, bounds: Rect)
    ensures
        layout_snapshot::leaves_all(placed_nodes(s, bounds)) == layout_snapshot::leaves_all(
            s,
        ).map_values(|l: layout_snapshot::LeafModel| placed_leaf(l, bounds)),
    decreases s,
{
    let f = |l: layout_snapshot::LeafModel| placed_leaf(l, bounds);
    if s.len() > 0 {
        lemma_all_are_placed(s.drop_last(), bounds);
        law_every_window_is_placed(s.last(), bounds);
        lemma_leaves_push(placed_nodes(s.drop_last(), bounds), placed_node(s.last(), bounds));
    }
    assert(layout_snapshot::leaves_all(placed_nodes(s, bounds)) =~= layout_snapshot::leaves_all(
        s,
    ).map_values(f));
}

/// The workspace that leads the focus order of a monitor is the one that is recorded
/// as focused. A monitor without a focus order, or whose order is led by something
/// else, has none.
pub proof fn law_displayed_workspace_is_recorded(m: MonitorDto, k: int)
    requires
        forall|i: int, j: int|
            0 <= i < j < m.children@.len() ==> match (
                #[trigger] m.children@[i],
                #[trigger] m.children@[j],
            ) {
                (ContainerDto::Workspace(a), ContainerDto::Workspace(b)) => a.id != b.id,
                _ => true,
            },
    ensures
        m.child_focus_order@.len() == 0 ==> captured_monitor(m).focused_workspace_name is None,
        m.child_focus_order@.len() > 0 && 0 <= k < m.children@.len() ==> (
        m.children@[k] matches ContainerDto::Workspace(w) ==> (m.child_focus_order@[0] == w.id
            ==> captured_monitor(m).focused_workspace_name == Some(w.name@))),
        m.child_focus_order@.len() > 0 && (forall|i: int|
            0 <= i < m.children@.len() ==> (#[trigger] m.children@[i] matches ContainerDto::Workspace(
                w,
            ) ==> w.id != m.child_focus_order@[0])) ==> captured_monitor(
            m,
        ).focused_workspace_name is None,
{
    if m.child_focus_order@.len() > 0 {
        let id = m.child_focus_order@[0];
        lemma_workspace_name(m.children@, id);
        if 0 <= k < m.children@.len() {
            if let ContainerDto::Workspace(w) = m.children@[k] {
                if id == w.id {
                    lemma_named_workspace(m.children@, id, k);
                }
            }
        }
    }
}

proof fn lemma_workspace_name(children: Seq<ContainerDto>, id: ContainerId)
    ensures
        workspace_name(children, id) is None <==> forall|i: int|
            0 <= i < children.len() ==> (#[trigger] children[i] matches ContainerDto::Workspace(w)
                ==> w.id != id),
    decreases children.len(),
{
    if children.len() > 0 {
        let rest = children.drop_first();
        lemma_workspace_name(rest, id);
        assert forall|i: int| 0 <= i < rest.len() implies #[trigger] rest[i] == children[i + 1] by {}
        if is_workspace(children[0], id) {
            assert(!(children[0] matches ContainerDto::Workspace(w) ==> w.id != id));
        } else if workspace_name(rest, id) is None {
            assert forall|i: int| 0 <= i < children.len() implies (
            #[trigger] children[i] matches ContainerDto::Workspace(w) ==> w.id != id) by {
                if i > 0 {
                    assert(rest[i - 1] == children[i]);
                }
            }
        } else {
            let i = choose|i: int|
                0 <= i < rest.len() && !(#[trigger] rest[i] matches ContainerDto::Workspace(w)
                    ==> w.id != id);
            assert(children[i + 1] == rest[i]);
        }
    }
}

proof fn lemma_named_workspace(children: Seq<ContainerDto>, id: ContainerId, k: int)
    requires
        0 <= k < children.len(),
        children[k] matches ContainerDto::Workspace(w) && w.id == id,
        forall|i: int, j: int|
            0 <= i < j < children.len() ==> match (#[trigger] children[i], #[trigger] children[j]) {
                (ContainerDto::Workspace(a), ContainerDto::Workspace(b)) => a.id != b.id,
                _ => true,
            },
    ensures
        workspace_name(children, id) == Some(children[k]->Workspace_0.name@),
    decreases children.len(),
{
    if k > 0 {
        assert(!is_workspace(children[0], id)) by {
            if is_workspace(children[0], id) {
                let pair = (children[0], children[k]);
            }
        }
        let rest = children.drop_first();
        assert forall|i: int, j: int| 0 <= i < j < rest.len() implies match (
            #[trigger] rest[i],
            #[trigger] rest[j],
        ) {
            (ContainerDto::Workspace(a), ContainerDto::Workspace(b)) => a.id != b.id,
            _ => true,
        } by {
            assert(rest[i] == children[i + 1] && rest[j] == children[j + 1]);
        }
        lemma_named_workspace(rest, id, k - 1);
    }
}

/// Whether a node stands for a container: a window with what the window manager knows
/// of it, or a split with its direction and, in order, what stands for its children.
pub open spec fn stands_for(n: NodeModel, dto: ContainerDto) -> bool
    decreases dto,
{
    match dto {
        ContainerDto::Split(s) => {
            &&& n.kind == SnapshotNodeKind::Split
            &&& n.id == Some(s.id)
            &&& n.tiling_direction == Some(s.tiling_direction)
            &&& n.window is None
            &&& n.children matches Some(children) && all_stand_for(children, s.children@)
        },
        ContainerDto::Window(w) => {
            &&& n.kind == SnapshotNodeKind::Window
            &&& n.id == Some(w.id)
            &&& n.tiling_direction is None
            &&& n.children is None
            &&& n.child_focus_order is None
            &&& n.window matches Some(x) && x.id == Some(w.id) && x.handle == Some(w.handle)
                && x.state == w.state && x.prev_state == w.prev_state && x.floating_placement == Some(
                w.floating_placement,
            ) && x.identity.process_name == w.process_name@ && x.identity.title_hint == Some(
                w.title@,
            ) && x.identity.class_name == text::opt_view(w.class_name) && x.identity.process_path
                == text::opt_view(w.process_path)
        },
        _ => false,
    }
}

/// Whether nodes stand for the splits and windows of a list, in order. Containers of
/// other kinds have no node.
pub open spec fn all_stand_for(nodes: Seq<NodeModel>, list: Seq<ContainerDto>) -> bool
    decreases list,
{
    if list.len() == 0 {
        nodes.len() == 0
    } else if list.last() is Split || list.last() is Window {
        nodes.len() > 0 && all_stand_for(nodes.drop_last(), list.drop_last()) && stands_for(
            nodes.last(),
            list.last(),
        )
    } else {
        all_stand_for(nodes, list.drop_last())
    }
}

/// A capture keeps the tree: every split and window has a node that stands for it, in
/// its place.
pub proof fn law_capture_keeps_the_tree(
    children: Seq<ContainerDto>,
    sizes: Seq<Option<TilingSize>>,
    numbers: Map<ContainerId, u32>,
    next: nat,
)
    ensures
        all_stand_for(capture_all(children, sizes, numbers, next).nodes, children),
    decreases children,
{
    if children.len() > 0 {
        let before = capture_all(children.drop_last(), sizes, numbers, next);
        law_capture_keeps_the_tree(children.drop_last(), sizes, numbers, next);
        let dto = children.last();
        let all = capture_all(children, sizes, numbers, next);
        assert(all == capture(dto, sizes[children.len() - 1], before));
        reveal_with_fuel(capture, 2);
        reveal_with_fuel(stands_for, 2);
        match dto {
            ContainerDto::Split(s) => {
                law_capture_keeps_the_tree(
                    s.children@,
                    split_sizes(s),
                    before.numbers.insert(s.id, before.next as u32),
                    before.next + 1,
                );
                let inner = capture_all(
                    s.children@,
                    split_sizes(s),
                    before.numbers.insert(s.id, before.next as u32),
                    before.next + 1,
                );
                let node = split_node(s, sizes[children.len() - 1], before.next, inner);
                assert(all.nodes == before.nodes.push(node));
                assert(stands_for(node, dto));
                assert(all.nodes.drop_last() =~= before.nodes);
            },
            ContainerDto::Window(w) => {
                let node = window_node(w, sizes[children.len() - 1], before.next);
                assert(all.nodes == before.nodes.push(node));
                assert(stands_for(node, dto));
                assert(all.nodes.drop_last() =~= before.nodes);
            },
            _ => {
                assert(all.nodes == before.nodes);
            },
        }
    }
}

/// The workspaces among the children of a monitor, in order.
pub open spec fn workspaces_of(children: Seq<ContainerDto>) -> Seq<WorkspaceDto>
    decreases children.len(),
{
    if children.len() == 0 {
        Seq::empty()
    } else {
        match children.last() {
            ContainerDto::Workspace(w) => workspaces_of(children.drop_last()).push(w),
            _ => workspaces_of(children.drop_last()),
        }
    }
}

proof fn lemma_captured_workspaces(children: Seq<ContainerDto>)
    ensures
        captured_workspaces(children) == workspaces_of(children).map_values(
            |w: WorkspaceDto| captured_workspace(w),
        ),
    decreases children.len(),
{
    if children.len() > 0 {
        lemma_captured_workspaces(children.drop_last());
    }
    assert(captured_workspaces(children) =~= workspaces_of(children).map_values(
        |w: WorkspaceDto| captured_workspace(w),
    ));
}

/// A monitor is recorded with its names and bounds and with all its workspaces, in
/// order, each with its name, its direction, its id and, below a root, its tree.
pub proof fn law_monitor_is_recorded(m: MonitorDto, k: int)
    ensures
        ({
            let r = captured_monitor(m);
            &&& r.device_name == m.device_name@
            &&& r.hardware_id == text::opt_view(m.hardware_id)
            &&& r.device_path == text::opt_view(m.device_path)
            &&& r.bounds.x == m.x && r.bounds.y == m.y && r.bounds.width == m.width
                && r.bounds.height == m.height
            &&& r.id == Some(m.id)
            &&& r.workspaces.len() == workspaces_of(m.children@).len()
            &&& 0 <= k < r.workspaces.len() ==> ({
                let w = workspaces_of(m.children@)[k];
                &&& r.workspaces[k].name == w.name@
                &&& r.workspaces[k].tiling_direction == w.tiling_direction
                &&& r.workspaces[k].id == Some(w.id)
                &&& r.workspaces[k].root.kind == SnapshotNodeKind::Split
                &&& r.workspaces[k].root.tiling_direction == Some(w.tiling_direction)
                &&& r.workspaces[k].root.children matches Some(nodes) && all_stand_for(
                    nodes,
                    w.children@,
                )
            })
        }),
{
    lemma_captured_workspaces(m.children@);
    let r = captured_monitor(m);
    if 0 <= k < r.workspaces.len() {
        let w = workspaces_of(m.children@)[k];
        let all = capture_all(w.children@, workspace_sizes(w), Map::empty(), 0);
        law_capture_keeps_the_tree(w.children@, workspace_sizes(w), Map::empty(), 0);
        assert(r.workspaces[k] == placed_workspace(captured_workspace(w), monitor_rect(m)));
        lemma_placed_stand_for(all.nodes, w.children@, monitor_rect(m));
    }
}

proof fn lemma_placed_stands_for(n: NodeModel, dto: ContainerDto, bounds: Rect)
    requires
        stands_for(n, dto),
    ensures
        stands_for(placed_node(n, bounds), dto),
    decreases dto,
{
    if let ContainerDto::Split(s) = dto {
        lemma_placed_stand_for(n.children->0, s.children@, bounds);
    }
}

proof fn lemma_placed_stand_for(nodes: Seq<NodeModel>, list: Seq<ContainerDto>, bounds: Rect)
    requires
        all_stand_for(nodes, list),
    ensures
        all_stand_for(placed_nodes(nodes, bounds), list),
    decreases list,
{
    if list.len() > 0 {
        if list.last() is Split || list.last() is Window {
            lemma_placed_stand_for(nodes.drop_last(), list.drop_last(), bounds);
            lemma_placed_stands_for(nodes.last(), list.last(), bounds);
            assert(placed_nodes(nodes, bounds).drop_last() =~= placed_nodes(
                nodes.drop_last(),
                bounds,
            ));
        } else {
            lemma_placed_stand_for(nodes, list.drop_last(), bounds);
        }
    }
}

/// The ids of the splits and windows below a container, itself first.
pub open spec fn container_ids(dto: ContainerDto) -> Seq<ContainerId>
    decreases dto,
{
    match dto {
        ContainerDto::Split(s) => seq![s.id] + container_ids_all(s.children@),
        ContainerDto::Window(w) => seq![w.id],
        _ => Seq::empty(),
    }
}

pub open spec fn container_ids_all(children: Seq<ContainerDto>) -> Seq<ContainerId>
    decreases children,
{
    if children.len() == 0 {
        Seq::empty()
    } else {
        container_ids_all(children.drop_last()) + container_ids(children.last())
    }
}

proof fn lemma_numbers(
    children: Seq<ContainerDto>,
    sizes: Seq<Option<TilingSize>>,
    numbers: Map<ContainerId, u32>,
    next: nat,
)
    requires
        container_ids_all(children).no_duplicates(),
        next + container_ids_all(children).len() <= u32::MAX,
    ensures
        ({
            let after = capture_all(children, sizes, numbers, next);
            let ids = container_ids_all(children);
            &&& after.next == next + ids.len()
            &&& forall|k: int|
                0 <= k < ids.len() ==> after.numbers.dom().contains(#[trigger] ids[k])
                    && after.numbers[ids[k]] == next + k
            &&& forall|id: ContainerId|
                !ids.contains(id) ==> (#[trigger] after.numbers.dom().contains(id)
                    == numbers.dom().contains(id) && after.numbers[id] == numbers[id])
        }),
    decreases children,
{
    let ids = container_ids_all(children);
    let after = capture_all(children, sizes, numbers, next);
    if children.len() > 0 {
        let rest = children.drop_last();
        let dto = children.last();
        let front = container_ids_all(rest);
        let back = container_ids(dto);
        let m = front.len() as int;
        assert(ids == front + back);
        assert(front.no_duplicates()) by {
            assert forall|i: int, j: int|
                0 <= i < front.len() && 0 <= j < front.len() && i != j implies front[i] != front[j] by {
                assert(ids[i] == front[i] && ids[j] == front[j]);
            }
        }
        assert(back.no_duplicates()) by {
            assert forall|i: int, j: int|
                0 <= i < back.len() && 0 <= j < back.len() && i != j implies back[i] != back[j] by {
                assert(ids[m + i] == back[i] && ids[m + j] == back[j]);
            }
        }
        lemma_numbers(rest, sizes, numbers, next);
        let before = capture_all(rest, sizes, numbers, next);
        assert(after == capture(dto, sizes[children.len() - 1], before));
        reveal_with_fuel(capture, 2);
        reveal_with_fuel(container_ids, 2);
        if let ContainerDto::Split(s) = dto {
            let inner_ids = container_ids_all(s.children@);
            assert(back == seq![s.id] + inner_ids);
            assert(inner_ids.no_duplicates()) by {
                assert forall|i: int, j: int|
                    0 <= i < inner_ids.len() && 0 <= j < inner_ids.len() && i
                        != j implies inner_ids[i] != inner_ids[j] by {
                    assert(back[i + 1] == inner_ids[i] && back[j + 1] == inner_ids[j]);
                }
            }
            lemma_numbers(
                s.children@,
                split_sizes(s),
                before.numbers.insert(s.id, before.next as u32),
                before.next + 1,
            );
            assert(!inner_ids.contains(s.id)) by {
                if inner_ids.contains(s.id) {
                    let i = choose|i: int| 0 <= i < inner_ids.len() && inner_ids[i] == s.id;
                    assert(back[i + 1] == back[0]);
                }
            }
            assert forall|i: int| 0 <= i < inner_ids.len() implies back[i + 1]
                == #[trigger] inner_ids[i] by {}
        }
        assert forall|i: int| 0 <= i < back.len() implies after.numbers.dom().contains(
            #[trigger] back[i],
        ) && after.numbers[back[i]] == before.next + i by {
            if let ContainerDto::Split(s) = dto {
                if i > 0 {
                    assert(container_ids_all(s.children@)[i - 1] == back[i]);
                } else {
                    assert(back[0] == s.id);
                }
            }
        }
        assert forall|id: ContainerId| !back.contains(id) implies (
        #[trigger] after.numbers.dom().contains(id) == before.numbers.dom().contains(id)
            && after.numbers[id] == before.numbers[id]) by {
            if let ContainerDto::Split(s) = dto {
                assert(back[0] == s.id);
                if container_ids_all(s.children@).contains(id) {
                    let i = choose|i: int|
                        0 <= i < container_ids_all(s.children@).len() && container_ids_all(
                            s.children@,
                        )[i] == id;
                    assert(back[i + 1] == id);
                }
            } else if let ContainerDto::Window(w) = dto {
                assert(back[0] == w.id);
            }
        }
        assert forall|k: int| 0 <= k < ids.len() implies after.numbers.dom().contains(
            #[trigger] ids[k],
        ) && after.numbers[ids[k]] == next + k by {
            if k < m {
                assert(ids[k] == front[k]);
                assert(!back.contains(ids[k])) by {
                    if back.contains(ids[k]) {
                        let i = choose|i: int| 0 <= i < back.len() && back[i] == ids[k];
                        assert(ids[m + i] == back[i]);
                    }
                }
                assert(before.numbers.dom().contains(front[k]));
                assert(after.numbers.dom().contains(ids[k]) == before.numbers.dom().contains(
                    ids[k],
                ));
            } else {
                assert(ids[k] == back[k - m]);
                assert(after.numbers.dom().contains(back[k - m]));
            }
        }
        assert forall|id: ContainerId| !ids.contains(id) implies (
        #[trigger] after.numbers.dom().contains(id) == numbers.dom().contains(id)
            && after.numbers[id] == numbers[id]) by {
            if front.contains(id) {
                let i = choose|i: int| 0 <= i < front.len() && front[i] == id;
                assert(ids[i] == id);
            }
            if back.contains(id) {
                let i = choose|i: int| 0 <= i < back.len() && back[i] == id;
                assert(ids[m + i] == id);
            }
            assert(after.numbers.dom().contains(id) == before.numbers.dom().contains(id));
            assert(before.numbers.dom().contains(id) == numbers.dom().contains(id));
        }
    }
}

/// The focus order of a workspace is recorded by local ids: the container that comes
/// `k`-th in depth-first order is written as the local id with number `k`, in the
/// order of focus. What is no container of the workspace drops out.
pub proof fn law_focus_order_is_recorded(w: WorkspaceDto, order: Seq<int>)
    requires
        container_ids_all(w.children@).no_duplicates(),
        container_ids_all(w.children@).len() <= u32::MAX,
        order.len() == w.child_focus_order@.len(),
        forall|i: int|
            0 <= i < order.len() ==> 0 <= #[trigger] order[i] < container_ids_all(w.children@).len()
                && container_ids_all(w.children@)[order[i]] == w.child_focus_order@[i],
    ensures
        captured_workspace(w).child_focus_order == order.map_values(|k: int| local_id(k as nat)),
{
    let sizes = workspace_sizes(w);
    let all = capture_all(w.children@, sizes, Map::empty(), 0);
    lemma_numbers(w.children@, sizes, Map::empty(), 0);
    let ids = container_ids_all(w.children@);
    assert forall|i: int| 0 <= i < order.len() implies all.numbers.dom().contains(
        #[trigger] w.child_focus_order@[i],
    ) && all.numbers[w.child_focus_order@[i]] == order[i] by {
        assert(ids[order[i]] == w.child_focus_order@[i]);
        assert(all.numbers.dom().contains(ids[order[i]]));
    }
    lemma_local_order(w.child_focus_order@, all.numbers, order);
}

/// The focus order of a split, likewise.
pub proof fn law_split_focus_order_is_recorded(
    s: SplitContainerDto,
    size: Option<TilingSize>,
    before: Capture,
    order: Seq<int>,
)
    requires
        container_ids_all(s.children@).no_duplicates(),
        before.next + 1 + container_ids_all(s.children@).len() <= u32::MAX,
        0 < order.len() == s.child_focus_order@.len(),
        forall|i: int|
            0 <= i < order.len() ==> 0 <= #[trigger] order[i] < container_ids_all(s.children@).len()
                && container_ids_all(s.children@)[order[i]] == s.child_focus_order@[i],
    ensures
        capture(ContainerDto::Split(s), size, before).nodes.last().child_focus_order == Some(
            order.map_values(|k: int| local_id((before.next + 1 + k) as nat)),
        ),
{
    let sizes = split_sizes(s);
    let numbers = before.numbers.insert(s.id, before.next as u32);
    let all = capture_all(s.children@, sizes, numbers, before.next + 1);
    lemma_numbers(s.children@, sizes, numbers, before.next + 1);
    let shifted = order.map_values(|k: int| before.next + 1 + k);
    let ids = container_ids_all(s.children@);
    assert forall|i: int| 0 <= i < order.len() implies all.numbers.dom().contains(
        #[trigger] s.child_focus_order@[i],
    ) && all.numbers[s.child_focus_order@[i]] == shifted[i] by {
        assert(ids[order[i]] == s.child_focus_order@[i]);
        assert(all.numbers.dom().contains(ids[order[i]]));
    }
    lemma_local_order(s.child_focus_order@, all.numbers, shifted);
    assert(shifted.map_values(|k: int| local_id(k as nat)) =~= order.map_values(
        |k: int| local_id((before.next + 1 + k) as nat),
    ));
}

proof fn lemma_local_order(
    ids: Seq<ContainerId>,
    numbers: Map<ContainerId, u32>,
    order: Seq<int>,
)
    requires
        order.len() == ids.len(),
        forall|i: int|
            0 <= i < ids.len() ==> numbers.dom().contains(#[trigger] ids[i]) && numbers[ids[i]]
                == order[i],
    ensures
        local_order(ids, numbers) == order.map_values(|k: int| local_id(k as nat)),
    decreases ids.len(),
{
    let known = |id: ContainerId| numbers.dom().contains(id);
    let name = |id: ContainerId| local_id(numbers[id] as nat);
    reveal(Seq::filter);
    if ids.len() > 0 {
        let rest = ids.drop_last();
        let last = ids.len() - 1;
        assert forall|i: int| 0 <= i < rest.len() implies numbers.dom().contains(#[trigger] rest[i])
            && numbers[rest[i]] == order.drop_last()[i] by {
            assert(rest[i] == ids[i]);
        }
        lemma_local_order(rest, numbers, order.drop_last());
        assert(known(ids[last]));
        assert(ids.filter(known) == rest.filter(known).push(ids[last]));
        assert(rest.filter(known).push(ids[last]).map_values(name) =~= rest.filter(known).map_values(
            name,
        ).push(name(ids[last])));
    }
    assert(local_order(ids, numbers) =~= order.map_values(|k: int| local_id(k as nat)));
}

/// The extents of windows side by side, or one above the other.
pub open spec fn window_extents(windows: Seq<WindowDto>, direction: TilingDirection) -> Seq<nat> {
    windows.map_values(
        |w: WindowDto|
            match direction {
                TilingDirection::Horizontal => w.width as nat,
                TilingDirection::Vertical => w.height as nat,
            },
    )
}

/// Tiling windows that cover at least half of their parent, or whose recorded sizes do
/// not add up to one, are saved with their part of the extents: of the widths where they
/// stand side by side, and of the heights otherwise. The saved size is off by at most
/// two to the power of -25.
pub proof fn law_saved_size_is_the_part_on_screen(
    windows: Seq<WindowDto>,
    direction: TilingDirection,
    room: int,
    i: int,
)
    requires
        windows.len() <= usize::MAX,
        0 <= i < windows.len(),
        forall|j: int|
            0 <= j < windows.len() ==> (#[trigger] windows[j]).state == WindowState::Tiling
                && windows[j].width > 0 && windows[j].height > 0,
        2 * shares::sum(window_extents(windows, direction)) >= room || shares::total(
            windows.map_values(
                |w: WindowDto|
                    Some(
                        match w.tiling_size {
                            Some(size) => size.at_least_zero(),
                            None => TilingSize::one(),
                        },
                    ),
            ),
        ).bits != 0x3f80_0000,
    ensures
        ({
            let children = windows.map_values(|w: WindowDto| ContainerDto::Window(w));
            let total = shares::sum(window_extents(windows, direction));
            let size = captured_size(children, direction, room, i);
            &&& size is Some
            &&& -(total * pow2(124)) <= singles::value(size->0) * total - window_extents(
                windows,
                direction,
            )[i] * pow2(149) <= total * pow2(124)
        }),
{
    let children = windows.map_values(|w: WindowDto| ContainerDto::Window(w));
    let extents = window_extents(windows, direction);
    assert forall|j: int| 0 <= j < children.len() && tiles(#[trigger] children[j]) implies extent(
        children[j],
        direction,
    ) > 0 by {
        assert(windows[j].width > 0);
    }
    assert(tiling_extents(children, direction) =~= extents) by {
        assert forall|j: int| 0 <= j < children.len() implies tiling_extents(
            children,
            direction,
        )[j] == extents[j] by {
            assert(windows[j].width > 0);
        }
    }
    assert(windows[i].width > 0);
    assert(tiles(children[i]));
    assert(recorded_weights(children) =~= windows.map_values(
        |w: WindowDto|
            Some(
                match w.tiling_size {
                    Some(size) => size.at_least_zero(),
                    None => TilingSize::one(),
                },
            ),
    )) by {
        assert forall|j: int| 0 <= j < children.len() implies tiles(#[trigger] children[j]) by {
            assert(windows[j].width > 0);
        }
    }
    lemma_part_of_total(children, direction, i);
    singles::lemma_part_is_single(extents[i], shares::sum(extents));
    singles::law_quotient_is_close(extents[i], shares::sum(extents));
}

/// Each node gets the size that was worked out for its place among the siblings.
pub proof fn law_nodes_get_their_sizes(
    children: Seq<ContainerDto>,
    sizes: Seq<Option<TilingSize>>,
    numbers: Map<ContainerId, u32>,
    next: nat,
)
    requires
        forall|i: int|
            0 <= i < children.len() ==> #[trigger] children[i] is Split || children[i] is Window,
    ensures
        ({
            let nodes = capture_all(children, sizes, numbers, next).nodes;
            &&& nodes.len() == children.len()
            &&& forall|i: int|
                0 <= i < nodes.len() ==> (#[trigger] nodes[i]).tiling_size == sizes[i]
        }),
    decreases children.len(),
{
    if children.len() > 0 {
        let rest = children.drop_last();
        assert forall|i: int| 0 <= i < rest.len() implies #[trigger] rest[i] is Split
            || rest[i] is Window by {
            assert(rest[i] == children[i]);
        }
        law_nodes_get_their_sizes(rest, sizes, numbers, next);
        assert(children[children.len() - 1] is Split || children[children.len() - 1] is Window);
        let before = capture_all(rest, sizes, numbers, next);
        assert(capture_all(children, sizes, numbers, next) == capture(
            children.last(),
            sizes[children.len() - 1],
            before,
        ));
    }
}

/// A snapshot of a desktop holds what the desktop reports: its monitors in order, the
/// ignored windows in order, the active binding modes, and whether it is paused.
pub proof fn law_desktop_is_recorded(
    desktop: DesktopState,
    floating: FloatingStateConfig,
    version: Seq<char>,
    captured_at: Seq<char>,
    k: int,
)
    ensures
        ({
            let r = captured_desktop(desktop, floating, version, captured_at);
            &&& r.version == 1
            &&& r.glazewm_version == Some(version)
            &&& r.captured_at == captured_at
            &&& r.paused == desktop.is_paused
            &&& r.binding_modes.len() == desktop.binding_modes@.len()
            &&& 0 <= k < r.binding_modes.len() ==> r.binding_modes[k] == desktop.binding_modes@[k]@
            &&& r.monitors.len() <= desktop.monitors@.len()
            &&& r.ignored_windows.len() == desktop.ignored_windows@.len()
            &&& 0 <= k < r.ignored_windows.len() ==> ({
                let w = desktop.ignored_windows@[k];
                let x = r.ignored_windows[k];
                &&& x.identity.process_path == text::opt_view(w.process_path)
                &&& w.process_name matches Some(name) ==> x.identity.process_name == name@
                &&& w.process_name is None ==> x.identity.process_name == "unknown"@
                &&& x.identity.class_name == text::opt_view(w.class_name)
                &&& x.identity.title_hint == text::opt_view(w.title)
                &&& x.floating_placement == w.frame
                &&& x.handle == Some(w.handle)
                &&& x.state == WindowState::Floating(floating)
                &&& x.prev_state is None
                &&& x.id is None
            })
        }),
{
    lemma_monitor_count(desktop.monitors@);
}

proof fn lemma_monitor_count(containers: Seq<ContainerDto>)
    ensures
        captured_monitors(containers).len() <= containers.len(),
    decreases containers.len(),
{
    if containers.len() > 0 {
        lemma_monitor_count(containers.drop_last());
    }
}

/// Every monitor of the desktop is recorded, in order.
pub proof fn law_every_monitor_is_recorded(containers: Seq<ContainerDto>)
    requires
        forall|i: int| 0 <= i < containers.len() ==> #[trigger] containers[i] is Monitor,
    ensures
        captured_monitors(containers).len() == containers.len(),
        forall|i: int|
            0 <= i < containers.len() ==> (#[trigger] captured_monitors(containers)[i]).id == Some(
                containers[i]->Monitor_0.id,
            ) && captured_monitors(containers)[i].device_name
                == containers[i]->Monitor_0.device_name@,
    decreases containers.len(),
{
    if containers.len() > 0 {
        let rest = containers.drop_last();
        assert forall|i: int| 0 <= i < rest.len() implies #[trigger] rest[i] is Monitor by {
            assert(rest[i] == containers[i]);
        }
        law_every_monitor_is_recorded(rest);
        assert(containers[containers.len() - 1] is Monitor);
    }
}

/// The placement of every window is also recorded as fractions of the monitor that the
/// window is on.
pub proof fn law_placements_are_relative_to_their_monitor(m: MonitorDto, k: int, i: int)
    requires
        0 <= k < captured_monitor(m).workspaces.len(),
        0 <= i < layout_snapshot::leaves(captured_monitor(m).workspaces[k].root).len(),
    ensures
        ({
            let w = layout_snapshot::leaves(captured_monitor(m).workspaces[k].root)[i].window;
            let bounds = Rect { x: m.x, y: m.y, width: m.width, height: m.height };
            w.floating_placement_relative == match w.floating_placement {
                Some(rect) => placement::relative_to(rect, bounds),
                None => None,
            }
        }),
{
    let plain = captured_workspaces(m.children@)[k];
    law_every_window_is_placed(plain.root, monitor_rect(m));
}

/// Where a tiling window has no extent, the sizes that the window manager keeps are
/// saved, scaled to shares. A window without a size counts as one.
pub proof fn law_recorded_sizes_count_without_extents(
    windows: Seq<WindowDto>,
    direction: TilingDirection,
    room: int,
    i: int,
    gone: int,
)
    requires
        0 <= i < windows.len(),
        0 <= gone < windows.len(),
        forall|j: int| 0 <= j < windows.len() ==> (#[trigger] windows[j]).state == WindowState::Tiling,
        windows[gone].width <= 0,
        windows[gone].height <= 0,
    ensures
        captured_size(
            windows.map_values(|w: WindowDto| ContainerDto::Window(w)),
            direction,
            room,
            i,
        ) == Some(
            shares::normalized(
                windows.map_values(
                    |w: WindowDto|
                        Some(
                            match w.tiling_size {
                                Some(size) => size.at_least_zero(),
                                None => TilingSize::one(),
                            },
                        ),
                ),
            )[i],
        ),
{
    let children = windows.map_values(|w: WindowDto| ContainerDto::Window(w));
    assert(windows[i].state == WindowState::Tiling);
    assert(windows[gone].state == WindowState::Tiling);
    assert(tiles(children[gone]) && extent(children[gone], direction) <= 0);
    assert(recorded_weights(children) =~= windows.map_values(
        |w: WindowDto|
            Some(
                match w.tiling_size {
                    Some(size) => size.at_least_zero(),
                    None => TilingSize::one(),
                },
            ),
    )) by {
        assert forall|j: int| 0 <= j < children.len() implies tiles(#[trigger] children[j]) by {
            assert(windows[j].state == WindowState::Tiling);
        }
    }
}

} // verus!
