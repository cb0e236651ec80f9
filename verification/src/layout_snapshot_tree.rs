//! Planning the tiling tree of a workspace around the windows that are left.
//!
//! Windows that are missing or do not tile are pruned, a split that keeps only
//! one child gives its place to that child, and the rest keeps its order and
//! directions. Siblings keep their proportions; their sizes are scaled so that
//! they add up to one.
use crate::dto::{TilingDirection, TilingSize};
use crate::layout_snapshot;
use crate::layout_snapshot::{LeafModel, NodeModel, SnapshotNode, SnapshotNodeKind};
use crate::layout_snapshot::{SnapshotWorkspace, WindowModel, WorkspaceModel};
use crate::seqs;
use crate::shares;
use crate::singles;
use crate::text;
use crate::window_state::WindowState;
use vstd::prelude::*;

verus! {

// ---------------------------------------------------------------------------
// Types and models
// ---------------------------------------------------------------------------

/// A window that is not part of a plan.
#[derive(Debug, PartialEq, Eq)]
pub struct SkippedSnapshotLeaf {
    pub local_id: String,
    pub process_name: String,
    pub reason: SkipReason,
}

#[derive(Clone, Copy, Debug, PartialEq, Eq, Structural)]
pub enum SkipReason {
    /// No running window was matched.
    MissingLiveMatch,
    /// The window does not tile; it is restored by its state alone.
    NonTiling,
}

/// A node of a planned tiling tree.
#[derive(Debug, PartialEq, Eq)]
pub enum LayoutPlanNode {
    Window {
        local_id: String,
        /// Size relative to the siblings.
        tiling_size: TilingSize,
    },
    Split {
        local_id: String,
        tiling_direction: TilingDirection,
        /// Size relative to the siblings.
        tiling_size: TilingSize,
        children: Vec<LayoutPlanNode>,
        /// Local ids of children, most recently focused first.
        child_focus_order: Vec<String>,
    },
}

/// The planned tiling tree of a workspace.
#[derive(Debug, PartialEq, Eq)]
pub struct WorkspaceLayoutPlan {
    pub workspace_name: String,
    pub tiling_direction: TilingDirection,
    pub children: Vec<LayoutPlanNode>,
    pub child_focus_order: Vec<String>,
    pub skipped: Vec<SkippedSnapshotLeaf>,
}

/// What a [`SkippedSnapshotLeaf`] says.
#[verifier::ext_equal]
pub struct SkippedModel {
    pub local_id: Seq<char>,
    pub process_name: Seq<char>,
    pub reason: SkipReason,
}

/// What a [`LayoutPlanNode`] says.
#[verifier::ext_equal]
pub enum PlanNode {
    Window { local_id: Seq<char>, tiling_size: TilingSize },
    Split {
        local_id: Seq<char>,
        tiling_direction: TilingDirection,
        tiling_size: TilingSize,
        children: Seq<PlanNode>,
        child_focus_order: Seq<Seq<char>>,
    },
}

/// What a [`WorkspaceLayoutPlan`] says.
#[verifier::ext_equal]
pub struct PlanModel {
    pub workspace_name: Seq<char>,
    pub tiling_direction: TilingDirection,
    pub children: Seq<PlanNode>,
    pub child_focus_order: Seq<Seq<char>>,
    pub skipped: Seq<SkippedModel>,
}

impl View for SkippedSnapshotLeaf {
    type V = SkippedModel;

    open spec fn view(&self) -> SkippedModel {
        SkippedModel {
            local_id: self.local_id@,
            process_name: self.process_name@,
            reason: self.reason,
        }
    }
}

pub open spec fn skipped_views(s: Seq<SkippedSnapshotLeaf>) -> Seq<SkippedModel> {
    s.map_values(|l: SkippedSnapshotLeaf| l@)
}

/// The model of a planned node.
pub open spec fn plan_view(n: LayoutPlanNode) -> PlanNode
    decreases n,
{
    match n {
        LayoutPlanNode::Window { local_id, tiling_size } => PlanNode::Window {
            local_id: local_id@,
            tiling_size,
        },
        LayoutPlanNode::Split {
            local_id,
            tiling_direction,
            tiling_size,
            children,
            child_focus_order,
        } => PlanNode::Split {
            local_id: local_id@,
            tiling_direction,
            tiling_size,
            children: plan_views(children@),
            child_focus_order: text::views(child_focus_order@),
        },
    }
}

/// The models of planned nodes.
pub open spec fn plan_views(s: Seq<LayoutPlanNode>) -> Seq<PlanNode>
    decreases s,
{
    if s.len() == 0 {
        Seq::empty()
    } else {
        plan_views(s.drop_last()).push(plan_view(s.last()))
    }
}

/// The models of planned nodes, one by one.
pub proof fn lemma_plan_views(s: Seq<LayoutPlanNode>)
    ensures
        plan_views(s).len() == s.len(),
        forall|i: int| 0 <= i < s.len() ==> #[trigger] plan_views(s)[i] == plan_view(s[i]),
    decreases s.len(),
{
    if s.len() > 0 {
        lemma_plan_views(s.drop_last());
    }
}

impl View for LayoutPlanNode {
    type V = PlanNode;

    open spec fn view(&self) -> PlanNode {
        plan_view(*self)
    }
}

impl View for WorkspaceLayoutPlan {
    type V = PlanModel;

    open spec fn view(&self) -> PlanModel {
        PlanModel {
            workspace_name: self.workspace_name@,
            tiling_direction: self.tiling_direction,
            children: plan_views(self.children@),
            child_focus_order: text::views(self.child_focus_order@),
            skipped: skipped_views(self.skipped@),
        }
    }
}

pub open spec fn plan_id(n: PlanNode) -> Seq<char> {
    match n {
        PlanNode::Window { local_id, .. } => local_id,
        PlanNode::Split { local_id, .. } => local_id,
    }
}

pub open spec fn plan_size(n: PlanNode) -> TilingSize {
    match n {
        PlanNode::Window { tiling_size, .. } => tiling_size,
        PlanNode::Split { tiling_size, .. } => tiling_size,
    }
}

/// The local ids of planned siblings.
pub open spec fn plan_ids(s: Seq<PlanNode>) -> Seq<Seq<char>> {
    s.map_values(|n: PlanNode| plan_id(n))
}

/// The node with another size.
pub open spec fn resized(n: PlanNode, size: TilingSize) -> PlanNode {
    match n {
        PlanNode::Window { local_id, .. } => PlanNode::Window { local_id, tiling_size: size },
        PlanNode::Split { local_id, tiling_direction, children, child_focus_order, .. } => {
            PlanNode::Split {
                local_id,
                tiling_direction,
                tiling_size: size,
                children,
                child_focus_order,
            }
        },
    }
}

/// The local ids of the windows of a planned node, in depth-first order.
pub open spec fn plan_windows(n: PlanNode) -> Seq<Seq<char>>
    decreases n,
{
    match n {
        PlanNode::Window { local_id, .. } => seq![local_id],
        PlanNode::Split { children, .. } => plan_windows_all(children),
    }
}

pub open spec fn plan_windows_all(s: Seq<PlanNode>) -> Seq<Seq<char>>
    decreases s,
{
    if s.len() == 0 {
        Seq::empty()
    } else {
        plan_windows_all(s.drop_last()) + plan_windows(s.last())
    }
}

impl LayoutPlanNode {
    /// The local id of the node.
    pub fn local_id(&self) -> (r: &str)
        ensures
            r@ == plan_id(self@),
    {
        match self {
            LayoutPlanNode::Window { local_id, .. } => local_id.as_str(),
            LayoutPlanNode::Split { local_id, .. } => local_id.as_str(),
        }
    }

    /// The size of the node relative to its siblings.
    pub fn tiling_size(&self) -> (r: TilingSize)
        ensures
            r == plan_size(self@),
    {
        match self {
            LayoutPlanNode::Window { tiling_size, .. } => *tiling_size,
            LayoutPlanNode::Split { tiling_size, .. } => *tiling_size,
        }
    }

    /// The node with another size.
    fn with_tiling_size(self, size: TilingSize) -> (r: LayoutPlanNode)
        ensures
            r@ == resized(self@, size),
    {
        match self {
            LayoutPlanNode::Window { local_id, tiling_size: _ } => LayoutPlanNode::Window {
                local_id,
                tiling_size: size,
            },
            LayoutPlanNode::Split {
                local_id,
                tiling_direction,
                tiling_size: _,
                children,
                child_focus_order,
            } => LayoutPlanNode::Split {
                local_id,
                tiling_direction,
                tiling_size: size,
                children,
                child_focus_order,
            },
        }
    }

    /// The local ids of the windows of the node, in depth-first order.
    pub fn window_local_ids(&self) -> (r: Vec<String>)
        ensures
            text::views(r@) == plan_windows(self@),
    {
        let mut out: Vec<String> = Vec::new();
        collect_window_local_ids(self, &mut out);
        assert(text::views(out@) =~= plan_windows(self@));
        out
    }
}

fn collect_window_local_ids(node: &LayoutPlanNode, out: &mut Vec<String>)
    ensures
        text::views(final(out)@) == text::views(old(out)@) + plan_windows(node@),
    decreases node,
{
    match node {
        LayoutPlanNode::Window { local_id, .. } => {
            let ghost before = out@;
            out.push(local_id.clone());
            assert(text::views(out@) =~= text::views(before) + seq![local_id@]);
        },
        LayoutPlanNode::Split { children, .. } => {
            assert(decreases_to!(node => node->Split_children));
            collect_all_window_local_ids(children, out);
        },
    }
}

fn collect_all_window_local_ids(nodes: &Vec<LayoutPlanNode>, out: &mut Vec<String>)
    ensures
        text::views(final(out)@) == text::views(old(out)@) + plan_windows_all(plan_views(nodes@)),
    decreases nodes,
{
    let ghost all = plan_views(nodes@);
    let ghost first = text::views(out@);
    let mut i: usize = 0;
    proof {
        lemma_plan_views(nodes@);
        assert(first =~= first + plan_windows_all(all.take(0)));
    }
    while i < nodes.len()
        invariant
            i <= nodes@.len(),
            all == plan_views(nodes@),
            all.len() == nodes@.len(),
            forall|k: int| 0 <= k < nodes@.len() ==> #[trigger] all[k] == nodes@[k]@,
            text::views(out@) == first + plan_windows_all(all.take(i as int)),
        decreases nodes@.len() - i,
    {
        proof {
            assert(all.take(i + 1).drop_last() =~= all.take(i as int));
            assert(all.take(i + 1).last() == all[i as int]);
            assert(decreases_to!(nodes => nodes@));
            assert(decreases_to!(nodes@ => nodes@[i as int]));
        }
        collect_window_local_ids(&nodes[i], out);
        assert(text::views(out@) =~= first + plan_windows_all(all.take(i + 1)));
        i = i + 1;
    }
    assert(all.take(i as int) =~= all);
}

impl WorkspaceLayoutPlan {
    /// The local ids of the planned windows, in depth-first order.
    pub fn window_local_ids(&self) -> (r: Vec<String>)
        ensures
            text::views(r@) == plan_windows_all(self@.children),
    {
        let mut out: Vec<String> = Vec::new();
        collect_all_window_local_ids(&self.children, &mut out);
        assert(text::views(out@) =~= plan_windows_all(self@.children));
        out
    }

    /// Whether nothing is left to tile.
    pub fn is_empty(&self) -> (r: bool)
        ensures
            r == (self@.children.len() == 0),
    {
        proof {
            lemma_plan_views(self.children@);
        }
        self.children.len() == 0
    }
}

// ---------------------------------------------------------------------------
// Pruning
// ---------------------------------------------------------------------------

/// What is left of a list of siblings, and what was skipped.
#[verifier::ext_equal]
pub struct Pruned {
    pub nodes: Seq<PlanNode>,
    pub skipped: Seq<SkippedModel>,
}

/// A skipped window.
pub open spec fn skip(local_id: Seq<char>, window: WindowModel, reason: SkipReason) -> SkippedModel {
    SkippedModel { local_id, process_name: window.identity.process_name, reason }
}

/// The children of a node; none where it has no list of them.
pub open spec fn children_of(n: NodeModel) -> Seq<NodeModel> {
    match n.children {
        Some(children) => children,
        None => Seq::empty(),
    }
}

/// The focus order of a split among the children that are left.
pub open spec fn surviving_order(order: Seq<Seq<char>>, ids: Seq<Seq<char>>) -> Seq<Seq<char>> {
    order.filter(|id: Seq<char>| ids.contains(id))
}

/// What is left of a window node: the window if it tiles and was matched.
pub open spec fn pruned_window(n: NodeModel, matched: Seq<Seq<char>>) -> Pruned {
    match n.window {
        None => Pruned { nodes: Seq::empty(), skipped: Seq::empty() },
        Some(w) => if w.state != WindowState::Tiling {
            Pruned { nodes: Seq::empty(), skipped: seq![skip(n.local_id, w, SkipReason::NonTiling)] }
        } else if !matched.contains(n.local_id) {
            Pruned {
                nodes: Seq::empty(),
                skipped: seq![skip(n.local_id, w, SkipReason::MissingLiveMatch)],
            }
        } else {
            Pruned {
                nodes: seq![
                    PlanNode::Window {
                        local_id: n.local_id,
                        tiling_size: TilingSize::weight_of(n.tiling_size),
                    },
                ],
                skipped: Seq::empty(),
            }
        },
    }
}

/// What is left of a split whose children were pruned to `inner`: nothing
/// without children, the child itself in place of the split if there is one,
/// and otherwise the split.
pub open spec fn pruned_split(n: NodeModel, inner: Seq<PlanNode>) -> Seq<PlanNode> {
    let size = TilingSize::weight_of(n.tiling_size);
    if inner.len() == 0 {
        Seq::empty()
    } else if inner.len() == 1 {
        seq![resized(inner[0], size)]
    } else {
        seq![
            PlanNode::Split {
                local_id: n.local_id,
                tiling_direction: match n.tiling_direction {
                    Some(direction) => direction,
                    None => TilingDirection::Horizontal,
                },
                tiling_size: size,
                children: inner,
                child_focus_order: surviving_order(
                    match n.child_focus_order {
                        Some(order) => order,
                        None => Seq::empty(),
                    },
                    plan_ids(inner),
                ),
            },
        ]
    }
}

/// What is left of a node: at most one planned node.
pub open spec fn pruned(n: NodeModel, matched: Seq<Seq<char>>) -> Pruned
    decreases n,
{
    match n.kind {
        SnapshotNodeKind::Window => pruned_window(n, matched),
        SnapshotNodeKind::Split => match n.children {
            Some(children) => {
                let inner = pruned_all(children, matched);
                Pruned { nodes: pruned_split(n, inner.nodes), skipped: inner.skipped }
            },
            None => Pruned { nodes: Seq::empty(), skipped: Seq::empty() },
        },
    }
}

/// What is left of a list of siblings.
pub open spec fn pruned_all(s: Seq<NodeModel>, matched: Seq<Seq<char>>) -> Pruned
    decreases s,
{
    if s.len() == 0 {
        Pruned { nodes: Seq::empty(), skipped: Seq::empty() }
    } else {
        let before = pruned_all(s.drop_last(), matched);
        let last = pruned(s.last(), matched);
        Pruned { nodes: before.nodes + last.nodes, skipped: before.skipped + last.skipped }
    }
}

/// The sizes of siblings.
pub open spec fn sibling_weights(s: Seq<PlanNode>) -> Seq<Option<TilingSize>> {
    s.map_values(|n: PlanNode| Some(plan_size(n)))
}

/// The siblings with their sizes, and those of everything below them, scaled so
/// that the sizes of siblings add up to one.
pub open spec fn shared(s: Seq<PlanNode>) -> Seq<PlanNode>
    decreases s, 1nat,
{
    shared_list(s, shares::normalized(sibling_weights(s)))
}

/// The siblings with the given sizes, scaled below them.
pub open spec fn shared_list(s: Seq<PlanNode>, sizes: Seq<TilingSize>) -> Seq<PlanNode>
    decreases s, 0nat,
{
    if s.len() == 0 {
        Seq::empty()
    } else {
        shared_list(s.drop_last(), sizes).push(shared_node(s.last(), sizes[s.len() - 1]))
    }
}

/// The node with the given size, scaled below it.
pub open spec fn shared_node(n: PlanNode, size: TilingSize) -> PlanNode
    decreases n, 0nat,
{
    match n {
        PlanNode::Window { local_id, .. } => PlanNode::Window { local_id, tiling_size: size },
        PlanNode::Split { local_id, tiling_direction, children, child_focus_order, .. } => {
            PlanNode::Split {
                local_id,
                tiling_direction,
                tiling_size: size,
                children: shared(children),
                child_focus_order,
            }
        },
    }
}

proof fn lemma_shared_list(s: Seq<PlanNode>, sizes: Seq<TilingSize>)
    ensures
        shared_list(s, sizes).len() == s.len(),
        forall|i: int|
            0 <= i < s.len() ==> #[trigger] shared_list(s, sizes)[i] == shared_node(s[i], sizes[i]),
    decreases s.len(),
{
    if s.len() > 0 {
        lemma_shared_list(s.drop_last(), sizes);
    }
}

proof fn lemma_shared_ids(s: Seq<PlanNode>)
    ensures
        shared(s).len() == s.len(),
        plan_ids(shared(s)) == plan_ids(s),
{
    lemma_shared_list(s, shares::normalized(sibling_weights(s)));
    assert forall|i: int| 0 <= i < s.len() implies plan_id(#[trigger] shared(s)[i]) == plan_id(
        s[i],
    ) by {
        reveal_with_fuel(shared_node, 2);
    }
    assert(plan_ids(shared(s)) =~= plan_ids(s));
}

/// The plan of a workspace. `matched` holds the local ids of the windows that
/// have a running counterpart.
pub open spec fn workspace_plan(w: WorkspaceModel, matched: Seq<Seq<char>>) -> PlanModel {
    let left = pruned_all(children_of(w.root), matched);
    PlanModel {
        workspace_name: w.name,
        tiling_direction: w.tiling_direction,
        children: shared(left.nodes),
        child_focus_order: seqs::with_missing(
            surviving_order(w.child_focus_order, plan_ids(left.nodes)),
            plan_ids(left.nodes),
        ),
        skipped: left.skipped,
    }
}

fn ids_of(nodes: &Vec<LayoutPlanNode>) -> (r: Vec<String>)
    ensures
        text::views(r@) == plan_ids(plan_views(nodes@)),
{
    let ghost all = plan_ids(plan_views(nodes@));
    let mut out: Vec<String> = Vec::new();
    let mut i: usize = 0;
    proof {
        lemma_plan_views(nodes@);
    }
    while i < nodes.len()
        invariant
            i <= nodes@.len(),
            all.len() == nodes@.len(),
            forall|k: int| 0 <= k < nodes@.len() ==> #[trigger] all[k] == plan_id(nodes@[k]@),
            text::views(out@) == all.take(i as int),
        decreases nodes@.len() - i,
    {
        let ghost before = out@;
        let id = nodes[i].local_id().to_owned();
        out.push(id);
        assert(text::views(out@) =~= text::views(before).push(id@));
        i = i + 1;
        assert(text::views(out@) =~= all.take(i as int));
    }
    assert(all.take(i as int) =~= all);
    out
}

fn filter_order(order: &[String], ids: &[String]) -> (r: Vec<String>)
    ensures
        text::views(r@) == surviving_order(text::views(order@), text::views(ids@)),
{
    let ghost all = text::views(order@);
    let ghost keep = |id: Seq<char>| text::views(ids@).contains(id);
    let mut out: Vec<String> = Vec::new();
    let mut i: usize = 0;
    assert(text::views(out@) =~= all.take(0).filter(keep)) by {
        reveal(Seq::filter);
    }
    while i < order.len()
        invariant
            i <= order@.len(),
            all == text::views(order@),
            keep == (|id: Seq<char>| text::views(ids@).contains(id)),
            text::views(out@) == all.take(i as int).filter(keep),
        decreases order@.len() - i,
    {
        proof {
            assert(all.take(i + 1).drop_last() =~= all.take(i as int));
            assert(all.take(i + 1).last() == order@[i as int]@);
            reveal(Seq::filter);
        }
        if text::list_contains(ids, order[i].as_str()) {
            let ghost before = out@;
            out.push(order[i].clone());
            assert(text::views(out@) =~= text::views(before).push(order@[i as int]@));
        }
        i = i + 1;
    }
    assert(all.take(i as int) =~= all);
    out
}

fn complete_order(order: Vec<String>, ids: &[String]) -> (r: Vec<String>)
    ensures
        text::views(r@) == seqs::with_missing(text::views(order@), text::views(ids@)),
{
    let ghost first = text::views(order@);
    let ghost all = text::views(ids@);
    let mut out = order;
    let mut i: usize = 0;
    assert(seqs::with_missing(first, all.take(0)) == first);
    while i < ids.len()
        invariant
            i <= ids@.len(),
            all == text::views(ids@),
            text::views(out@) == seqs::with_missing(first, all.take(i as int)),
        decreases ids@.len() - i,
    {
        assert(all.take(i + 1).drop_last() =~= all.take(i as int));
        assert(all.take(i + 1).last() == ids@[i as int]@);
        if !text::list_contains(&out, ids[i].as_str()) {
            let ghost before = out@;
            out.push(ids[i].clone());
            assert(text::views(out@) =~= text::views(before).push(ids@[i as int]@));
        }
        i = i + 1;
    }
    assert(all.take(i as int) =~= all);
    out
}

fn skip_window(
    skipped: &mut Vec<SkippedSnapshotLeaf>,
    node: &SnapshotNode,
    process_name: &String,
    reason: SkipReason,
)
    ensures
        skipped_views(final(skipped)@) == skipped_views(old(skipped)@).push(
            SkippedModel { local_id: node.local_id@, process_name: process_name@, reason },
        ),
{
    let ghost before = skipped@;
    skipped.push(
        SkippedSnapshotLeaf {
            local_id: node.local_id.clone(),
            process_name: process_name.clone(),
            reason,
        },
    );
    assert(skipped_views(skipped@) =~= skipped_views(before).push(
        SkippedModel { local_id: node.local_id@, process_name: process_name@, reason },
    ));
}

fn prune_window_node(
    node: &SnapshotNode,
    matched: &[String],
    skipped: &mut Vec<SkippedSnapshotLeaf>,
) -> (r: Option<LayoutPlanNode>)
    ensures
        ({
            let left = pruned_window(node@, text::views(matched@));
            &&& skipped_views(final(skipped)@) == skipped_views(old(skipped)@) + left.skipped
            &&& left.nodes == match r {
                Some(n) => seq![n@],
                None => Seq::empty(),
            }
        }),
{
    let ghost first = skipped_views(skipped@);
    match &node.window {
        None => {
            assert(first =~= first + Seq::<SkippedModel>::empty());
            None
        },
        Some(window) => {
            if window.state != WindowState::Tiling {
                skip_window(skipped, node, &window.identity.process_name, SkipReason::NonTiling);
                assert(skipped_views(skipped@) =~= first + seq![
                    skip(node.local_id@, window@, SkipReason::NonTiling),
                ]);
                return None;
            }
            if !text::list_contains(matched, node.local_id.as_str()) {
                skip_window(
                    skipped,
                    node,
                    &window.identity.process_name,
                    SkipReason::MissingLiveMatch,
                );
                assert(skipped_views(skipped@) =~= first + seq![
                    skip(node.local_id@, window@, SkipReason::MissingLiveMatch),
                ]);
                return None;
            }
            assert(first =~= first + Seq::<SkippedModel>::empty());
            Some(
                LayoutPlanNode::Window {
                    local_id: node.local_id.clone(),
                    tiling_size: TilingSize::weight(node.tiling_size),
                },
            )
        },
    }
}

fn prune_tiling_node(
    node: &SnapshotNode,
    matched: &[String],
    skipped: &mut Vec<SkippedSnapshotLeaf>,
) -> (r: Option<LayoutPlanNode>)
    ensures
        ({
            let left = pruned(node@, text::views(matched@));
            &&& skipped_views(final(skipped)@) == skipped_views(old(skipped)@) + left.skipped
            &&& left.nodes == match r {
                Some(n) => seq![n@],
                None => Seq::empty(),
            }
        }),
    decreases node, 1nat,
{
    match node.kind {
        SnapshotNodeKind::Window => prune_window_node(node, matched, skipped),
        SnapshotNodeKind::Split => prune_split_node(node, matched, skipped),
    }
}

fn prune_split_node(
    node: &SnapshotNode,
    matched: &[String],
    skipped: &mut Vec<SkippedSnapshotLeaf>,
) -> (r: Option<LayoutPlanNode>)
    requires
        node.kind == SnapshotNodeKind::Split,
    ensures
        ({
            let left = pruned(node@, text::views(matched@));
            &&& skipped_views(final(skipped)@) == skipped_views(old(skipped)@) + left.skipped
            &&& left.nodes == match r {
                Some(n) => seq![n@],
                None => Seq::empty(),
            }
        }),
    decreases node, 0nat,
{
    let ghost first = skipped_views(skipped@);
    match &node.children {
        None => {
            assert(first =~= first + Seq::<SkippedModel>::empty());
            None
        },
        Some(raw) => {
            proof {
                assert(decreases_to!(node => node.children));
                assert(decreases_to!(node.children => node.children->0));
            }
            let mut children = prune_tiling_nodes(raw, matched, skipped);
            let ghost inner = plan_views(children@);
            proof {
                lemma_plan_views(children@);
                assert(node@.children == Some(layout_snapshot::node_views(raw@)));
                assert(pruned(node@, text::views(matched@)).nodes == pruned_split(node@, inner));
            }
            let outer_size = TilingSize::weight(node.tiling_size);
            if children.len() == 0 {
                None
            } else if children.len() == 1 {
                let only = children.remove(0);
                let r = only.with_tiling_size(outer_size);
                assert(pruned_split(node@, inner) =~= seq![r@]);
                Some(r)
            } else {
                let ids = ids_of(&children);
                let child_focus_order = match &node.child_focus_order {
                    Some(order) => filter_order(order, &ids),
                    None => {
                        let none: Vec<String> = Vec::new();
                        assert(text::views(none@) =~= surviving_order(
                            Seq::empty(),
                            plan_ids(inner),
                        )) by {
                            reveal(Seq::filter);
                        }
                        none
                    },
                };
                let tiling_direction = match node.tiling_direction {
                    Some(direction) => direction,
                    None => TilingDirection::Horizontal,
                };
                let r = LayoutPlanNode::Split {
                    local_id: node.local_id.clone(),
                    tiling_direction,
                    tiling_size: outer_size,
                    children,
                    child_focus_order,
                };
                assert(pruned_split(node@, inner) =~= seq![r@]);
                Some(r)
            }
        },
    }
}

fn prune_tiling_nodes(
    nodes: &Vec<SnapshotNode>,
    matched: &[String],
    skipped: &mut Vec<SkippedSnapshotLeaf>,
) -> (r: Vec<LayoutPlanNode>)
    ensures
        ({
            let left = pruned_all(layout_snapshot::node_views(nodes@), text::views(matched@));
            &&& skipped_views(final(skipped)@) == skipped_views(old(skipped)@) + left.skipped
            &&& plan_views(r@) == left.nodes
        }),
    decreases nodes, 0nat,
{
    let ghost all = layout_snapshot::node_views(nodes@);
    let ghost ids = text::views(matched@);
    let ghost first = skipped_views(skipped@);
    let mut out: Vec<LayoutPlanNode> = Vec::new();
    let mut i: usize = 0;
    proof {
        layout_snapshot::lemma_node_views(nodes@);
        assert(first =~= first + pruned_all(all.take(0), ids).skipped);
    }
    while i < nodes.len()
        invariant
            i <= nodes@.len(),
            all == layout_snapshot::node_views(nodes@),
            ids == text::views(matched@),
            all.len() == nodes@.len(),
            forall|k: int| 0 <= k < nodes@.len() ==> #[trigger] all[k] == nodes@[k]@,
            skipped_views(skipped@) == first + pruned_all(all.take(i as int), ids).skipped,
            plan_views(out@) == pruned_all(all.take(i as int), ids).nodes,
        decreases nodes@.len() - i,
    {
        let ghost before = pruned_all(all.take(i as int), ids);
        let ghost here = pruned(all[i as int], ids);
        proof {
            assert(all.take(i + 1).drop_last() =~= all.take(i as int));
            assert(all.take(i + 1).last() == all[i as int]);
            assert(pruned_all(all.take(i + 1), ids).nodes == before.nodes + here.nodes);
            assert(pruned_all(all.take(i + 1), ids).skipped == before.skipped + here.skipped);
            assert(decreases_to!(nodes => nodes@));
            assert(decreases_to!(nodes@ => nodes@[i as int]));
        }
        let node = prune_tiling_node(&nodes[i], matched, skipped);
        assert(skipped_views(skipped@) =~= first + (before.skipped + here.skipped));
        match node {
            Some(n) => {
                let ghost list = out@;
                out.push(n);
                assert(out@.drop_last() =~= list);
                assert(plan_views(out@) =~= before.nodes + here.nodes);
            },
            None => {
                assert(before.nodes + here.nodes =~= before.nodes);
            },
        }
        i = i + 1;
    }
    assert(all.take(i as int) =~= all);
    out
}

fn weights_of(nodes: &Vec<LayoutPlanNode>) -> (r: Vec<Option<TilingSize>>)
    ensures
        r@ == sibling_weights(plan_views(nodes@)),
{
    let ghost all = sibling_weights(plan_views(nodes@));
    let mut out: Vec<Option<TilingSize>> = Vec::new();
    let mut i: usize = 0;
    proof {
        lemma_plan_views(nodes@);
    }
    while i < nodes.len()
        invariant
            i <= nodes@.len(),
            all.len() == nodes@.len(),
            forall|k: int|
                0 <= k < nodes@.len() ==> #[trigger] all[k] == Some(plan_size(nodes@[k]@)),
            out@ == all.take(i as int),
        decreases nodes@.len() - i,
    {
        out.push(Some(nodes[i].tiling_size()));
        i = i + 1;
        assert(out@ =~= all.take(i as int));
    }
    assert(all.take(i as int) =~= all);
    out
}

fn share_node(node: &mut LayoutPlanNode, size: TilingSize)
    ensures
        final(node)@ == shared_node(old(node)@, size),
    decreases *old(node), 1nat,
{
    match node {
        LayoutPlanNode::Window { tiling_size, .. } => {
            *tiling_size = size;
        },
        LayoutPlanNode::Split { tiling_size, children, .. } => {
            *tiling_size = size;
            share_nodes(children);
        },
    }
}

/// Scales the sizes of siblings, and those of everything below them.
fn share_nodes(nodes: &mut Vec<LayoutPlanNode>)
    ensures
        plan_views(final(nodes)@) == shared(plan_views(old(nodes)@)),
    decreases *old(nodes), 0nat,
{
    let weights = weights_of(nodes);
    let sizes = shares::normalize(&weights);
    let ghost first = plan_views(old(nodes)@);
    let mut i: usize = 0;
    proof {
        lemma_plan_views(old(nodes)@);
    }
    while i < nodes.len()
        invariant
            i <= nodes@.len(),
            nodes@.len() == old(nodes)@.len(),
            sizes@.len() == nodes@.len(),
            forall|j: int|
                0 <= j < i ==> plan_view(#[trigger] nodes@[j]) == shared_node(
                    plan_view(old(nodes)@[j]),
                    sizes@[j],
                ),
            forall|j: int| i <= j < nodes@.len() ==> #[trigger] nodes@[j] == old(nodes)@[j],
        decreases nodes@.len() - i,
    {
        assert(decreases_to!(*old(nodes) => old(nodes)@[i as int]));
        share_node(&mut nodes[i], sizes[i]);
        i = i + 1;
    }
    proof {
        lemma_plan_views(nodes@);
        lemma_shared_list(first, sizes@);
        assert(plan_views(nodes@) =~= shared(first));
    }
}

/// Plans the tiling tree of a workspace.
///
/// `matched_tiling_local_ids` holds the local ids of the windows that have a
/// running counterpart. Other windows are skipped; what is left keeps its
/// order, nesting and directions, and the sizes of siblings add up to one.
pub fn plan_workspace_tiling_layout(
    workspace: &SnapshotWorkspace,
    matched_tiling_local_ids: &[String],
) -> (r: WorkspaceLayoutPlan)
    ensures
        r@ == workspace_plan(workspace@, text::views(matched_tiling_local_ids@)),
{
    let mut skipped: Vec<SkippedSnapshotLeaf> = Vec::new();
    let mut children = match &workspace.root.children {
        Some(nodes) => prune_tiling_nodes(nodes, matched_tiling_local_ids, &mut skipped),
        None => Vec::new(),
    };
    let ghost left = pruned_all(
        children_of(workspace.root@),
        text::views(matched_tiling_local_ids@),
    );
    assert(skipped_views(skipped@) =~= left.skipped);
    assert(plan_views(children@) =~= left.nodes);
    let ids = ids_of(&children);
    let order = filter_order(&workspace.child_focus_order, &ids);
    let child_focus_order = complete_order(order, &ids);
    share_nodes(&mut children);
    WorkspaceLayoutPlan {
        workspace_name: workspace.name.clone(),
        tiling_direction: workspace.tiling_direction,
        children,
        child_focus_order,
        skipped,
    }
}

// ---------------------------------------------------------------------------
// Tiling windows of a snapshot
// ---------------------------------------------------------------------------

/// The process names of the tiling windows below a node, in depth-first order.
pub open spec fn tiling_process_names(n: NodeModel) -> Seq<Seq<char>> {
    layout_snapshot::leaves(n).filter(
        |l: LeafModel| l.window.state == WindowState::Tiling,
    ).map_values(|l: LeafModel| l.window.identity.process_name)
}

spec fn tiling_names(ls: Seq<LeafModel>) -> Seq<Seq<char>> {
    ls.filter(|l: LeafModel| l.window.state == WindowState::Tiling).map_values(
        |l: LeafModel| l.window.identity.process_name,
    )
}

proof fn lemma_tiling_names_add(a: Seq<LeafModel>, b: Seq<LeafModel>)
    ensures
        tiling_names(a + b) == tiling_names(a) + tiling_names(b),
{
    let tiles = |l: LeafModel| l.window.state == WindowState::Tiling;
    Seq::filter_distributes_over_add(a, b, tiles);
    assert(tiling_names(a + b) =~= tiling_names(a) + tiling_names(b));
}

fn walk_tiling_windows(node: &SnapshotNode, out: &mut Vec<String>)
    ensures
        text::views(final(out)@) == text::views(old(out)@) + tiling_names(
            layout_snapshot::leaves(node@),
        ),
    decreases node,
{
    let ghost first = text::views(out@);
    match node.kind {
        SnapshotNodeKind::Window => {
            proof {
                reveal(Seq::filter);
            }
            match &node.window {
                Some(window) => {
                    let ghost leaf = layout_snapshot::leaves(node@)[0];
                    proof {
                        assert(layout_snapshot::leaves(node@).drop_last() =~= Seq::<LeafModel>::empty());
                        assert(layout_snapshot::leaves(node@).last() == leaf);
                        reveal_with_fuel(Seq::filter, 2);
                    }
                    if window.state == WindowState::Tiling {
                        let ghost before = out@;
                        out.push(window.identity.process_name.clone());
                        assert(text::views(out@) =~= text::views(before).push(
                            window.identity.process_name@,
                        ));
                        assert(tiling_names(layout_snapshot::leaves(node@)) =~= seq![
                            window.identity.process_name@,
                        ]);
                        assert(text::views(out@) =~= first + tiling_names(
                            layout_snapshot::leaves(node@),
                        ));
                    } else {
                        assert(tiling_names(layout_snapshot::leaves(node@)) =~= Seq::<
                            Seq<char>,
                        >::empty());
                        assert(first =~= first + tiling_names(layout_snapshot::leaves(node@)));
                    }
                },
                None => {
                    assert(first =~= first + tiling_names(layout_snapshot::leaves(node@)));
                },
            }
        },
        SnapshotNodeKind::Split => {
            match &node.children {
                Some(children) => {
                    assert(decreases_to!(node => node.children));
                    assert(decreases_to!(node.children => node.children->0));
                    walk_all_tiling_windows(children, out);
                },
                None => {
                    proof {
                        reveal(Seq::filter);
                    }
                    assert(first =~= first + tiling_names(layout_snapshot::leaves(node@)));
                },
            }
        },
    }
}

fn walk_all_tiling_windows(nodes: &Vec<SnapshotNode>, out: &mut Vec<String>)
    ensures
        text::views(final(out)@) == text::views(old(out)@) + tiling_names(
            layout_snapshot::leaves_all(layout_snapshot::node_views(nodes@)),
        ),
    decreases nodes,
{
    let ghost all = layout_snapshot::node_views(nodes@);
    let ghost first = text::views(out@);
    let mut i: usize = 0;
    proof {
        layout_snapshot::lemma_node_views(nodes@);
        reveal(Seq::filter);
        assert(first =~= first + tiling_names(layout_snapshot::leaves_all(all.take(0))));
    }
    while i < nodes.len()
        invariant
            i <= nodes@.len(),
            all == layout_snapshot::node_views(nodes@),
            all.len() == nodes@.len(),
            forall|k: int| 0 <= k < nodes@.len() ==> #[trigger] all[k] == nodes@[k]@,
            text::views(out@) == first + tiling_names(
                layout_snapshot::leaves_all(all.take(i as int)),
            ),
        decreases nodes@.len() - i,
    {
        proof {
            assert(all.take(i + 1).drop_last() =~= all.take(i as int));
            assert(all.take(i + 1).last() == all[i as int]);
            lemma_tiling_names_add(
                layout_snapshot::leaves_all(all.take(i as int)),
                layout_snapshot::leaves(all[i as int]),
            );
            assert(decreases_to!(nodes => nodes@));
            assert(decreases_to!(nodes@ => nodes@[i as int]));
        }
        walk_tiling_windows(&nodes[i], out);
        assert(text::views(out@) =~= first + tiling_names(
            layout_snapshot::leaves_all(all.take(i + 1)),
        ));
        i = i + 1;
    }
    assert(all.take(i as int) =~= all);
}

/// The process names of the tiling windows below a node, in depth-first order.
pub fn snapshot_tiling_process_names(node: &SnapshotNode) -> (r: Vec<String>)
    ensures
        text::views(r@) == tiling_process_names(node@),
{
    let mut out: Vec<String> = Vec::new();
    walk_tiling_windows(node, &mut out);
    assert(text::views(out@) =~= tiling_process_names(node@));
    out
}

// ---------------------------------------------------------------------------
// Laws
// ---------------------------------------------------------------------------

/// Whether a window stays in the plan.
pub open spec fn stays(leaf: LeafModel, matched: Seq<Seq<char>>) -> bool {
    leaf.window.state == WindowState::Tiling && matched.contains(leaf.local_id)
}

/// The local ids of the windows that stay.
pub open spec fn staying_ids(ls: Seq<LeafModel>, matched: Seq<Seq<char>>) -> Seq<Seq<char>> {
    ls.filter(|l: LeafModel| stays(l, matched)).map_values(|l: LeafModel| l.local_id)
}

/// The windows that do not stay, with the reason.
pub open spec fn left_out(ls: Seq<LeafModel>, matched: Seq<Seq<char>>) -> Seq<SkippedModel> {
    ls.filter(|l: LeafModel| !stays(l, matched)).map_values(
        |l: LeafModel|
            skip(
                l.local_id,
                l.window,
                if l.window.state != WindowState::Tiling {
                    SkipReason::NonTiling
                } else {
                    SkipReason::MissingLiveMatch
                },
            ),
    )
}

proof fn lemma_staying_add(a: Seq<LeafModel>, b: Seq<LeafModel>, matched: Seq<Seq<char>>)
    ensures
        staying_ids(a + b, matched) == staying_ids(a, matched) + staying_ids(b, matched),
        left_out(a + b, matched) == left_out(a, matched) + left_out(b, matched),
{
    Seq::filter_distributes_over_add(a, b, |l: LeafModel| stays(l, matched));
    Seq::filter_distributes_over_add(a, b, |l: LeafModel| !stays(l, matched));
    assert(staying_ids(a + b, matched) =~= staying_ids(a, matched) + staying_ids(b, matched));
    assert(left_out(a + b, matched) =~= left_out(a, matched) + left_out(b, matched));
}

proof fn lemma_plan_windows_add(a: Seq<PlanNode>, b: Seq<PlanNode>)
    ensures
        plan_windows_all(a + b) == plan_windows_all(a) + plan_windows_all(b),
    decreases b.len(),
{
    if b.len() == 0 {
        assert(a + b =~= a);
        assert(plan_windows_all(a + b) =~= plan_windows_all(a) + plan_windows_all(b));
    } else {
        assert((a + b).drop_last() =~= a + b.drop_last());
        lemma_plan_windows_add(a, b.drop_last());
        assert(plan_windows_all(a + b) =~= plan_windows_all(a) + plan_windows_all(b));
    }
}

proof fn lemma_plan_windows_single(n: PlanNode)
    ensures
        plan_windows_all(seq![n]) == plan_windows(n),
{
    assert(seq![n].drop_last() =~= Seq::<PlanNode>::empty());
    assert(seq![n].last() == n);
    assert(plan_windows_all(Seq::<PlanNode>::empty()) =~= Seq::<Seq<char>>::empty());
    assert(plan_windows_all(seq![n]) =~= plan_windows(n));
}

proof fn lemma_single_leaf(l: LeafModel, matched: Seq<Seq<char>>)
    ensures
        stays(l, matched) ==> staying_ids(seq![l], matched) == seq![l.local_id] && left_out(
            seq![l],
            matched,
        ) == Seq::<SkippedModel>::empty(),
        !stays(l, matched) ==> staying_ids(seq![l], matched) == Seq::<Seq<char>>::empty()
            && left_out(seq![l], matched) == seq![
            skip(
                l.local_id,
                l.window,
                if l.window.state != WindowState::Tiling {
                    SkipReason::NonTiling
                } else {
                    SkipReason::MissingLiveMatch
                },
            ),
        ],
{
    reveal_with_fuel(Seq::filter, 2);
    assert(seq![l].drop_last() =~= Seq::<LeafModel>::empty());
    assert(seq![l].last() == l);
    if stays(l, matched) {
        assert(staying_ids(seq![l], matched) =~= seq![l.local_id]);
        assert(left_out(seq![l], matched) =~= Seq::<SkippedModel>::empty());
    } else {
        assert(staying_ids(seq![l], matched) =~= Seq::<Seq<char>>::empty());
        assert(left_out(seq![l], matched) =~= seq![
            skip(
                l.local_id,
                l.window,
                if l.window.state != WindowState::Tiling {
                    SkipReason::NonTiling
                } else {
                    SkipReason::MissingLiveMatch
                },
            ),
        ]);
    }
}

proof fn lemma_no_leaves(matched: Seq<Seq<char>>)
    ensures
        staying_ids(Seq::empty(), matched) == Seq::<Seq<char>>::empty(),
        left_out(Seq::empty(), matched) == Seq::<SkippedModel>::empty(),
{
    reveal(Seq::filter);
    assert(staying_ids(Seq::empty(), matched) =~= Seq::<Seq<char>>::empty());
    assert(left_out(Seq::empty(), matched) =~= Seq::<SkippedModel>::empty());
}

proof fn lemma_pruned_windows(n: NodeModel, matched: Seq<Seq<char>>)
    ensures
        plan_windows_all(pruned(n, matched).nodes) == staying_ids(
            layout_snapshot::leaves(n),
            matched,
        ),
        pruned(n, matched).skipped == left_out(layout_snapshot::leaves(n), matched),
    decreases n,
{
    lemma_no_leaves(matched);
    match n.kind {
        SnapshotNodeKind::Window => {
            if let Some(w) = n.window {
                let leaf = LeafModel { local_id: n.local_id, tiling_size: n.tiling_size, window: w };
                lemma_single_leaf(leaf, matched);
                if stays(leaf, matched) {
                    lemma_plan_windows_single(pruned(n, matched).nodes[0]);
                }
            }
        },
        SnapshotNodeKind::Split => {
            if let Some(children) = n.children {
                lemma_pruned_windows_all(children, matched);
                let inner = pruned_all(children, matched).nodes;
                if inner.len() == 1 {
                    assert(inner =~= seq![inner[0]]);
                    lemma_plan_windows_single(inner[0]);
                    lemma_plan_windows_single(pruned(n, matched).nodes[0]);
                } else if inner.len() > 1 {
                    lemma_plan_windows_single(pruned(n, matched).nodes[0]);
                }
            }
        },
    }
}

proof fn lemma_pruned_windows_all(s: Seq<NodeModel>, matched: Seq<Seq<char>>)
    ensures
        plan_windows_all(pruned_all(s, matched).nodes) == staying_ids(
            layout_snapshot::leaves_all(s),
            matched,
        ),
        pruned_all(s, matched).skipped == left_out(layout_snapshot::leaves_all(s), matched),
    decreases s,
{
    lemma_no_leaves(matched);
    if s.len() > 0 {
        lemma_pruned_windows_all(s.drop_last(), matched);
        lemma_pruned_windows(s.last(), matched);
        lemma_plan_windows_add(
            pruned_all(s.drop_last(), matched).nodes,
            pruned(s.last(), matched).nodes,
        );
        lemma_staying_add(
            layout_snapshot::leaves_all(s.drop_last()),
            layout_snapshot::leaves(s.last()),
            matched,
        );
    }
}

proof fn lemma_shared_windows(n: PlanNode, size: TilingSize)
    ensures
        plan_windows(shared_node(n, size)) == plan_windows(n),
    decreases n,
{
    if let PlanNode::Split { children, .. } = n {
        lemma_shared_windows_all(children, shares::normalized(sibling_weights(children)));
    }
}

proof fn lemma_shared_windows_all(s: Seq<PlanNode>, sizes: Seq<TilingSize>)
    ensures
        plan_windows_all(shared_list(s, sizes)) == plan_windows_all(s),
    decreases s,
{
    if s.len() > 0 {
        lemma_shared_windows_all(s.drop_last(), sizes);
        lemma_shared_windows(s.last(), sizes[s.len() - 1]);
        assert(shared_list(s, sizes).drop_last() =~= shared_list(s.drop_last(), sizes));
    }
}

/// A plan holds exactly the tiling windows of the workspace that were matched,
/// in their order, and accounts for every other window with the reason why it
/// was skipped.
pub proof fn law_plan_keeps_matched_tiling_windows(w: WorkspaceModel, matched: Seq<Seq<char>>)
    ensures
        plan_windows_all(workspace_plan(w, matched).children) == staying_ids(
            layout_snapshot::leaves_all(children_of(w.root)),
            matched,
        ),
        workspace_plan(w, matched).skipped == left_out(
            layout_snapshot::leaves_all(children_of(w.root)),
            matched,
        ),
        workspace_plan(w, matched).workspace_name == w.name,
        workspace_plan(w, matched).tiling_direction == w.tiling_direction,
{
    lemma_pruned_windows_all(children_of(w.root), matched);
    let left = pruned_all(children_of(w.root), matched).nodes;
    lemma_shared_windows_all(left, shares::normalized(sibling_weights(left)));
}

/// Whether every split of a planned node has at least two children, and its
/// focus order names only children.
pub open spec fn is_proper(n: PlanNode) -> bool
    decreases n,
{
    match n {
        PlanNode::Window { .. } => true,
        PlanNode::Split { children, child_focus_order, .. } => {
            &&& children.len() >= 2
            &&& forall|i: int|
                0 <= i < child_focus_order.len() ==> plan_ids(children).contains(
                    #[trigger] child_focus_order[i],
                )
            &&& are_proper(children)
        },
    }
}

pub open spec fn are_proper(s: Seq<PlanNode>) -> bool
    decreases s,
{
    s.len() == 0 || (are_proper(s.drop_last()) && is_proper(s.last()))
}

proof fn lemma_proper_add(a: Seq<PlanNode>, b: Seq<PlanNode>)
    requires
        are_proper(a),
        are_proper(b),
    ensures
        are_proper(a + b),
    decreases b.len(),
{
    if b.len() == 0 {
        assert(a + b =~= a);
    } else {
        lemma_proper_add(a, b.drop_last());
        assert((a + b).drop_last() =~= a + b.drop_last());
    }
}

proof fn lemma_order_survives(order: Seq<Seq<char>>, ids: Seq<Seq<char>>)
    ensures
        forall|i: int|
            0 <= i < surviving_order(order, ids).len() ==> ids.contains(
                #[trigger] surviving_order(order, ids)[i],
            ),
{
    let keep = |id: Seq<char>| ids.contains(id);
    assert forall|i: int| 0 <= i < surviving_order(order, ids).len() implies ids.contains(
        #[trigger] surviving_order(order, ids)[i],
    ) by {
        order.lemma_filter_pred(keep, i);
    }
}

proof fn lemma_pruned_proper(n: NodeModel, matched: Seq<Seq<char>>)
    ensures
        are_proper(pruned(n, matched).nodes),
        pruned(n, matched).nodes.len() <= 1,
    decreases n,
{
    let left = pruned(n, matched).nodes;
    match n.kind {
        SnapshotNodeKind::Window => {
            if left.len() > 0 {
                lemma_proper_single(left[0]);
                assert(left =~= seq![left[0]]);
            }
        },
        SnapshotNodeKind::Split => {
            if let Some(children) = n.children {
                lemma_pruned_all_proper(children, matched);
                let inner = pruned_all(children, matched).nodes;
                if inner.len() == 1 {
                    assert(is_proper(inner.last()));
                    lemma_proper_single(left[0]);
                } else if inner.len() > 1 {
                    lemma_order_survives(
                        match n.child_focus_order {
                            Some(order) => order,
                            None => Seq::empty(),
                        },
                        plan_ids(inner),
                    );
                    lemma_proper_single(left[0]);
                }
            }
        },
    }
}

proof fn lemma_proper_single(n: PlanNode)
    requires
        is_proper(n),
    ensures
        are_proper(seq![n]),
{
    assert(seq![n].drop_last() =~= Seq::<PlanNode>::empty());
    assert(are_proper(Seq::<PlanNode>::empty()));
}

proof fn lemma_pruned_all_proper(s: Seq<NodeModel>, matched: Seq<Seq<char>>)
    ensures
        are_proper(pruned_all(s, matched).nodes),
    decreases s,
{
    if s.len() > 0 {
        lemma_pruned_all_proper(s.drop_last(), matched);
        lemma_pruned_proper(s.last(), matched);
        lemma_proper_add(
            pruned_all(s.drop_last(), matched).nodes,
            pruned(s.last(), matched).nodes,
        );
    }
}

proof fn lemma_shared_proper(n: PlanNode, size: TilingSize)
    requires
        is_proper(n),
    ensures
        is_proper(shared_node(n, size)),
    decreases n,
{
    if let PlanNode::Split { children, .. } = n {
        lemma_shared_proper_all(children, shares::normalized(sibling_weights(children)));
        lemma_shared_ids(children);
    }
}

proof fn lemma_shared_proper_all(s: Seq<PlanNode>, sizes: Seq<TilingSize>)
    requires
        are_proper(s),
    ensures
        are_proper(shared_list(s, sizes)),
    decreases s,
{
    if s.len() > 0 {
        lemma_shared_proper_all(s.drop_last(), sizes);
        lemma_shared_proper(s.last(), sizes[s.len() - 1]);
        assert(shared_list(s, sizes).drop_last() =~= shared_list(s.drop_last(), sizes));
    }
}

/// No split of a plan is left with fewer than two children, and focus orders of
/// splits name only their children.
pub proof fn law_plan_has_no_redundant_split(w: WorkspaceModel, matched: Seq<Seq<char>>)
    ensures
        are_proper(workspace_plan(w, matched).children),
{
    lemma_pruned_all_proper(children_of(w.root), matched);
    let left = pruned_all(children_of(w.root), matched).nodes;
    lemma_shared_proper_all(left, shares::normalized(sibling_weights(left)));
}

/// Whether the sizes of siblings are shares: some weights, scaled so that they
/// add up to one.
pub open spec fn are_scaled(s: Seq<PlanNode>) -> bool {
    exists|weights: Seq<Option<TilingSize>>|
        weights.len() == s.len() && s.map_values(|n: PlanNode| plan_size(n))
            == #[trigger] shares::normalized(weights)
}

/// Whether the sizes below a node are shares.
pub open spec fn is_scaled_below(n: PlanNode) -> bool
    decreases n,
{
    match n {
        PlanNode::Window { .. } => true,
        PlanNode::Split { children, .. } => are_scaled(children) && are_scaled_below(children),
    }
}

pub open spec fn are_scaled_below(s: Seq<PlanNode>) -> bool
    decreases s,
{
    s.len() == 0 || (are_scaled_below(s.drop_last()) && is_scaled_below(s.last()))
}

proof fn lemma_shared_sizes(s: Seq<PlanNode>)
    ensures
        shared(s).len() == s.len(),
        shared(s).map_values(|n: PlanNode| plan_size(n)) == shares::normalized(sibling_weights(s)),
{
    let weights = sibling_weights(s);
    let sizes = shares::normalized(weights);
    lemma_shared_list(s, sizes);
    assert forall|i: int| 0 <= i < s.len() implies plan_size(#[trigger] shared(s)[i])
        == sizes[i] by {
        reveal_with_fuel(shared_node, 2);
    }
    assert(shared(s).map_values(|n: PlanNode| plan_size(n)) =~= shares::normalized(weights));
}

proof fn lemma_shared_is_scaled(s: Seq<PlanNode>)
    ensures
        are_scaled(shared(s)),
{
    lemma_shared_sizes(s);
}

/// The sizes of planned siblings, at the root and in every split, add up to one
/// but for rounding, wherever the sum of the sizes before is finite.
pub proof fn law_sibling_sizes_add_up(s: Seq<PlanNode>)
    requires
        0 < s.len() <= usize::MAX,
        shares::total(sibling_weights(s)).bits < singles::INFINITE,
    ensures
        shares::add_up_to_one(shared(s).map_values(|n: PlanNode| plan_size(n)), s.len()),
{
    let weights = sibling_weights(s);
    lemma_shared_sizes(s);
    assert(weights[0] is Some);
    shares::law_shares_add_up(weights);
    lemma_all_given(weights);
}

proof fn lemma_all_given(weights: Seq<Option<TilingSize>>)
    requires
        forall|i: int| 0 <= i < weights.len() ==> #[trigger] weights[i] is Some,
    ensures
        shares::sum(shares::ones(weights)) == weights.len(),
    decreases weights.len(),
{
    if weights.len() > 0 {
        lemma_all_given(weights.drop_last());
        assert(shares::ones(weights).drop_last() =~= shares::ones(weights.drop_last()));
        assert(weights[weights.len() - 1] is Some);
    }
}

proof fn lemma_shared_below(n: PlanNode, size: TilingSize)
    ensures
        is_scaled_below(shared_node(n, size)),
    decreases n,
{
    if let PlanNode::Split { children, .. } = n {
        lemma_shared_is_scaled(children);
        lemma_shared_below_all(children, shares::normalized(sibling_weights(children)));
    }
}

proof fn lemma_shared_below_all(s: Seq<PlanNode>, sizes: Seq<TilingSize>)
    ensures
        are_scaled_below(shared_list(s, sizes)),
    decreases s,
{
    if s.len() > 0 {
        lemma_shared_below_all(s.drop_last(), sizes);
        lemma_shared_below(s.last(), sizes[s.len() - 1]);
        assert(shared_list(s, sizes).drop_last() =~= shared_list(s.drop_last(), sizes));
    }
}

/// In a plan the sizes of siblings are shares of a whole, at the root and in
/// every split.
pub proof fn law_plan_sizes_are_shares(w: WorkspaceModel, matched: Seq<Seq<char>>)
    ensures
        are_scaled(workspace_plan(w, matched).children),
        are_scaled_below(workspace_plan(w, matched).children),
{
    let left = pruned_all(children_of(w.root), matched).nodes;
    lemma_shared_is_scaled(left);
    lemma_shared_below_all(left, shares::normalized(sibling_weights(left)));
}

/// The focus order of a plan names every root child and nothing else. Children
/// that the recorded order names come first, in the recorded order; if it names
/// none twice, neither does the plan.
pub proof fn law_plan_focus_order_covers_children(w: WorkspaceModel, matched: Seq<Seq<char>>)
    ensures
        ({
            let plan = workspace_plan(w, matched);
            let ids = plan_ids(plan.children);
            &&& forall|i: int|
                0 <= i < ids.len() ==> plan.child_focus_order.contains(#[trigger] ids[i])
            &&& forall|i: int|
                0 <= i < plan.child_focus_order.len() ==> ids.contains(
                    #[trigger] plan.child_focus_order[i],
                )
            &&& surviving_order(w.child_focus_order, ids).is_prefix_of(plan.child_focus_order)
            &&& w.child_focus_order.no_duplicates() ==> plan.child_focus_order.no_duplicates()
        }),
{
    let plan = workspace_plan(w, matched);
    let ids = plan_ids(plan.children);
    let order = surviving_order(w.child_focus_order, ids);
    lemma_shared_ids(pruned_all(children_of(w.root), matched).nodes);
    seqs::lemma_with_missing(order, ids);
    lemma_order_survives(w.child_focus_order, ids);
    assert forall|i: int| 0 <= i < plan.child_focus_order.len() implies ids.contains(
        #[trigger] plan.child_focus_order[i],
    ) by {
        if i < order.len() {
            assert(order[i] == plan.child_focus_order.subrange(0, order.len() as int)[i]);
            assert(ids.contains(order[i]));
        }
    }
    if w.child_focus_order.no_duplicates() {
        seqs::lemma_filter_no_duplicates(w.child_focus_order, |id: Seq<char>| ids.contains(id));
    }
}

/// Whether nothing has to be pruned: every window tiles and was matched, and
/// every split has at least two children.
pub open spec fn is_intact(n: NodeModel, matched: Seq<Seq<char>>) -> bool
    decreases n,
{
    match n.kind {
        SnapshotNodeKind::Window => n.window is Some && n.window->0.state == WindowState::Tiling
            && matched.contains(n.local_id),
        SnapshotNodeKind::Split => match n.children {
            Some(children) => children.len() >= 2 && are_intact(children, matched),
            None => false,
        },
    }
}

pub open spec fn are_intact(s: Seq<NodeModel>, matched: Seq<Seq<char>>) -> bool
    decreases s,
{
    s.len() == 0 || (are_intact(s.drop_last(), matched) && is_intact(s.last(), matched))
}

/// The node when nothing is pruned: same place, same direction, same size.
pub open spec fn unpruned(n: NodeModel) -> PlanNode
    decreases n,
{
    let size = TilingSize::weight_of(n.tiling_size);
    match n.kind {
        SnapshotNodeKind::Window => PlanNode::Window { local_id: n.local_id, tiling_size: size },
        SnapshotNodeKind::Split => PlanNode::Split {
            local_id: n.local_id,
            tiling_direction: match n.tiling_direction {
                Some(direction) => direction,
                None => TilingDirection::Horizontal,
            },
            tiling_size: size,
            children: match n.children {
                Some(children) => unpruned_all(children),
                None => Seq::empty(),
            },
            child_focus_order: surviving_order(
                match n.child_focus_order {
                    Some(order) => order,
                    None => Seq::empty(),
                },
                match n.children {
                    Some(children) => plan_ids(unpruned_all(children)),
                    None => Seq::empty(),
                },
            ),
        },
    }
}

pub open spec fn unpruned_all(s: Seq<NodeModel>) -> Seq<PlanNode>
    decreases s,
{
    if s.len() == 0 {
        Seq::empty()
    } else {
        unpruned_all(s.drop_last()).push(unpruned(s.last()))
    }
}

proof fn lemma_intact(n: NodeModel, matched: Seq<Seq<char>>)
    requires
        is_intact(n, matched),
    ensures
        pruned(n, matched).nodes == seq![unpruned(n)],
        pruned(n, matched).skipped.len() == 0,
    decreases n,
{
    if n.kind == SnapshotNodeKind::Split {
        let children = n.children->0;
        lemma_intact_all(children, matched);
        assert(pruned(n, matched).nodes =~= seq![unpruned(n)]);
    } else {
        assert(pruned(n, matched).nodes =~= seq![unpruned(n)]);
    }
}

proof fn lemma_intact_all(s: Seq<NodeModel>, matched: Seq<Seq<char>>)
    requires
        are_intact(s, matched),
    ensures
        pruned_all(s, matched).nodes == unpruned_all(s),
        pruned_all(s, matched).skipped.len() == 0,
        unpruned_all(s).len() == s.len(),
    decreases s,
{
    if s.len() > 0 {
        lemma_intact_all(s.drop_last(), matched);
        lemma_intact(s.last(), matched);
        assert(pruned_all(s, matched).nodes =~= unpruned_all(s));
    }
}

/// Where every window is there and no split is redundant, the plan is the
/// recorded tree: same nesting, same order, same directions, and the recorded
/// sizes as shares. Nothing is skipped.
pub proof fn law_intact_tree_is_kept(w: WorkspaceModel, matched: Seq<Seq<char>>)
    requires
        are_intact(children_of(w.root), matched),
    ensures
        workspace_plan(w, matched).children == shared(unpruned_all(children_of(w.root))),
        workspace_plan(w, matched).skipped.len() == 0,
{
    lemma_intact_all(children_of(w.root), matched);
}

/// The only child left of a split takes the place of the split: it keeps its
/// own contents and gets the size of the split.
pub proof fn law_only_child_takes_place_of_split(n: NodeModel, inner: Seq<PlanNode>)
    requires
        inner.len() == 1,
    ensures
        pruned_split(n, inner).len() == 1,
        plan_id(pruned_split(n, inner)[0]) == plan_id(inner[0]),
        plan_windows(pruned_split(n, inner)[0]) == plan_windows(inner[0]),
        plan_size(pruned_split(n, inner)[0]) == TilingSize::weight_of(n.tiling_size),
{
}

/// A window is planned exactly if it was saved tiling and has a running counterpart. A
/// window that was saved otherwise is skipped as such, and one without a counterpart as
/// missing.
pub proof fn law_windows_are_planned_or_skipped(
    w: WorkspaceModel,
    matched: Seq<Seq<char>>,
    id: Seq<char>,
    name: Seq<char>,
)
    ensures
        ({
            let all = layout_snapshot::leaves_all(children_of(w.root));
            let plan = workspace_plan(w, matched);
            &&& plan_windows_all(plan.children).contains(id) <==> matched.contains(id) && exists|
                k: int,
            |
                0 <= k < all.len() && (#[trigger] all[k]).local_id == id && all[k].window.state
                    == WindowState::Tiling
            &&& plan.skipped.contains(
                SkippedModel { local_id: id, process_name: name, reason: SkipReason::NonTiling },
            ) <==> exists|k: int|
                0 <= k < all.len() && (#[trigger] all[k]).local_id == id
                    && all[k].window.identity.process_name == name && all[k].window.state
                    != WindowState::Tiling
            &&& plan.skipped.contains(
                SkippedModel {
                    local_id: id,
                    process_name: name,
                    reason: SkipReason::MissingLiveMatch,
                },
            ) <==> !matched.contains(id) && exists|k: int|
                0 <= k < all.len() && (#[trigger] all[k]).local_id == id
                    && all[k].window.identity.process_name == name && all[k].window.state
                    == WindowState::Tiling
        }),
{
    law_plan_keeps_matched_tiling_windows(w, matched);
    let all = layout_snapshot::leaves_all(children_of(w.root));
    lemma_staying_membership(all, matched, id);
    lemma_left_out_membership(all, matched, id, name, SkipReason::NonTiling);
    lemma_left_out_membership(all, matched, id, name, SkipReason::MissingLiveMatch);
}

proof fn lemma_staying_membership(all: Seq<LeafModel>, matched: Seq<Seq<char>>, id: Seq<char>)
    ensures
        staying_ids(all, matched).contains(id) <==> matched.contains(id) && exists|k: int|
            0 <= k < all.len() && (#[trigger] all[k]).local_id == id && all[k].window.state
                == WindowState::Tiling,
{
    let keep = |l: LeafModel| stays(l, matched);
    let kept = all.filter(keep);
    let ids = staying_ids(all, matched);
    if ids.contains(id) {
        let n = choose|n: int| 0 <= n < ids.len() && ids[n] == id;
        assert(kept.contains(kept[n]));
        seqs::lemma_filter_membership(all, keep, kept[n]);
        let k = choose|k: int| 0 <= k < all.len() && all[k] == kept[n];
        assert(all[k].local_id == id);
    }
    if matched.contains(id) && exists|k: int|
        0 <= k < all.len() && (#[trigger] all[k]).local_id == id && all[k].window.state
            == WindowState::Tiling {
        let k = choose|k: int|
            0 <= k < all.len() && (#[trigger] all[k]).local_id == id && all[k].window.state
                == WindowState::Tiling;
        seqs::lemma_filter_membership(all, keep, all[k]);
        let n = choose|n: int| 0 <= n < kept.len() && kept[n] == all[k];
        assert(ids[n] == id);
    }
}

proof fn lemma_left_out_membership(
    all: Seq<LeafModel>,
    matched: Seq<Seq<char>>,
    id: Seq<char>,
    name: Seq<char>,
    reason: SkipReason,
)
    ensures
        left_out(all, matched).contains(
            SkippedModel { local_id: id, process_name: name, reason },
        ) <==> (reason is NonTiling || !matched.contains(id)) && exists|k: int|
            0 <= k < all.len() && (#[trigger] all[k]).local_id == id
                && all[k].window.identity.process_name == name && (all[k].window.state
                == WindowState::Tiling) == (reason is MissingLiveMatch),
{
    let keep = |l: LeafModel| !stays(l, matched);
    let kept = all.filter(keep);
    let out = left_out(all, matched);
    let entry = SkippedModel { local_id: id, process_name: name, reason };
    if out.contains(entry) {
        let n = choose|n: int| 0 <= n < out.len() && out[n] == entry;
        assert(kept.contains(kept[n]));
        seqs::lemma_filter_membership(all, keep, kept[n]);
        let k = choose|k: int| 0 <= k < all.len() && all[k] == kept[n];
        assert(all[k].local_id == id);
    }
    if (reason is NonTiling || !matched.contains(id)) && exists|k: int|
        0 <= k < all.len() && (#[trigger] all[k]).local_id == id
            && all[k].window.identity.process_name == name && (all[k].window.state
            == WindowState::Tiling) == (reason is MissingLiveMatch) {
        let k = choose|k: int|
            0 <= k < all.len() && (#[trigger] all[k]).local_id == id
                && all[k].window.identity.process_name == name && (all[k].window.state
                == WindowState::Tiling) == (reason is MissingLiveMatch);
        seqs::lemma_filter_membership(all, keep, all[k]);
        let n = choose|n: int| 0 <= n < kept.len() && kept[n] == all[k];
        assert(out[n] == entry);
    }
}

/// Whether a planned node has the form of a saved one: the same id, a window for a
/// window, and for a split its direction and, in order, what has the form of its
/// children. A split without a recorded direction lays its children out side by side.
pub open spec fn has_form_of(p: PlanNode, n: NodeModel) -> bool
    decreases n,
{
    match p {
        PlanNode::Window { local_id, .. } => n.kind == SnapshotNodeKind::Window && local_id
            == n.local_id,
        PlanNode::Split { local_id, tiling_direction, children, .. } => {
            &&& n.kind == SnapshotNodeKind::Split
            &&& local_id == n.local_id
            &&& n.tiling_direction matches Some(direction) ==> tiling_direction == direction
            &&& n.tiling_direction is None ==> tiling_direction == TilingDirection::Horizontal
            &&& n.children matches Some(saved) && have_form_of(children, saved)
        },
    }
}

pub open spec fn have_form_of(s: Seq<PlanNode>, saved: Seq<NodeModel>) -> bool
    decreases saved,
{
    if saved.len() == 0 {
        s.len() == 0
    } else {
        s.len() > 0 && have_form_of(s.drop_last(), saved.drop_last()) && has_form_of(
            s.last(),
            saved.last(),
        )
    }
}

proof fn lemma_unpruned_form(n: NodeModel, matched: Seq<Seq<char>>, size: TilingSize)
    requires
        is_intact(n, matched),
    ensures
        has_form_of(shared_node(unpruned(n), size), n),
    decreases n,
{
    if n.kind == SnapshotNodeKind::Split {
        let children = n.children->0;
        lemma_unpruned_forms(
            children,
            matched,
            shares::normalized(sibling_weights(unpruned_all(children))),
        );
    }
}

proof fn lemma_unpruned_forms(s: Seq<NodeModel>, matched: Seq<Seq<char>>, sizes: Seq<TilingSize>)
    requires
        are_intact(s, matched),
    ensures
        have_form_of(shared_list(unpruned_all(s), sizes), s),
    decreases s,
{
    if s.len() > 0 {
        let rest = s.drop_last();
        lemma_unpruned_forms(rest, matched, sizes);
        lemma_intact_all(rest, matched);
        lemma_unpruned_form(s.last(), matched, sizes[s.len() - 1]);
        let plan = unpruned_all(s);
        assert(plan.drop_last() =~= unpruned_all(rest));
        assert(plan.len() == s.len());
        assert(shared_list(plan, sizes).drop_last() =~= shared_list(unpruned_all(rest), sizes));
    }
}

/// Where every window is there and no split is redundant, the plan has the form of the
/// saved tree.
pub proof fn law_intact_tree_keeps_its_form(w: WorkspaceModel, matched: Seq<Seq<char>>)
    requires
        are_intact(children_of(w.root), matched),
    ensures
        have_form_of(workspace_plan(w, matched).children, children_of(w.root)),
        workspace_plan(w, matched).tiling_direction == w.tiling_direction,
        workspace_plan(w, matched).workspace_name == w.name,
{
    let children = children_of(w.root);
    lemma_intact_all(children, matched);
    lemma_unpruned_forms(
        children,
        matched,
        shares::normalized(sibling_weights(unpruned_all(children))),
    );
}

/// Children that are left keep their order of focus: one that was focused more recently
/// than another still is.
pub proof fn law_recorded_focus_order_is_kept(
    order: Seq<Seq<char>>,
    ids: Seq<Seq<char>>,
    i: int,
    j: int,
)
    requires
        0 <= i < j < order.len(),
        ids.contains(order[i]),
        ids.contains(order[j]),
    ensures
        exists|p: int, q: int|
            0 <= p < q < surviving_order(order, ids).len() && #[trigger] surviving_order(
                order,
                ids,
            )[p] == order[i] && #[trigger] surviving_order(order, ids)[q] == order[j],
{
    let keep = |id: Seq<char>| ids.contains(id);
    let at = seqs::lemma_filter_keeps_order(order, keep, i, j);
    assert(surviving_order(order, ids)[at.0] == order[i]);
    assert(surviving_order(order, ids)[at.1] == order[j]);
}

/// The sizes that saved siblings weigh: those recorded, one where none is, and nothing
/// below zero.
pub open spec fn saved_weights(saved: Seq<NodeModel>) -> Seq<Option<TilingSize>> {
    saved.map_values(
        |n: NodeModel|
            Some(
                match n.tiling_size {
                    Some(size) => if size.bits <= 0x7f80_0000 {
                        size
                    } else {
                        TilingSize { bits: 0 }
                    },
                    None => TilingSize { bits: 0x3f80_0000 },
                },
            ),
    )
}

/// Whether planned siblings, and those below them, have the recorded sizes as shares.
pub open spec fn have_shares_of(s: Seq<PlanNode>, saved: Seq<NodeModel>) -> bool
    decreases saved, 1nat,
{
    &&& s.map_values(|p: PlanNode| plan_size(p)) == shares::normalized(saved_weights(saved))
    &&& have_shares_below(s, saved)
}

pub open spec fn have_shares_below(s: Seq<PlanNode>, saved: Seq<NodeModel>) -> bool
    decreases saved, 0nat,
{
    saved.len() == 0 || (s.len() > 0 && have_shares_below(s.drop_last(), saved.drop_last())
        && has_shares_below(s.last(), saved.last()))
}

pub open spec fn has_shares_below(p: PlanNode, n: NodeModel) -> bool
    decreases n, 0nat,
{
    match p {
        PlanNode::Window { .. } => true,
        PlanNode::Split { children, .. } => n.children matches Some(saved) && have_shares_of(
            children,
            saved,
        ),
    }
}

proof fn lemma_unpruned_weights(s: Seq<NodeModel>)
    ensures
        unpruned_all(s).len() == s.len(),
        sibling_weights(unpruned_all(s)) == saved_weights(s),
    decreases s.len(),
{
    if s.len() > 0 {
        let rest = s.drop_last();
        lemma_unpruned_weights(rest);
        let last = s.len() - 1;
        assert(unpruned_all(s) == unpruned_all(rest).push(unpruned(s.last())));
        assert forall|i: int| 0 <= i < s.len() implies sibling_weights(unpruned_all(s))[i]
            == saved_weights(s)[i] by {
            if i < last {
                assert(sibling_weights(unpruned_all(rest))[i] == saved_weights(rest)[i]);
                assert(unpruned_all(s)[i] == unpruned_all(rest)[i]);
            } else {
                reveal_with_fuel(unpruned, 2);
            }
        }
    }
    assert(sibling_weights(unpruned_all(s)) =~= saved_weights(s));
}

proof fn lemma_intact_shares(s: Seq<NodeModel>, matched: Seq<Seq<char>>)
    requires
        are_intact(s, matched),
    ensures
        have_shares_of(shared(unpruned_all(s)), s),
    decreases s, 1nat,
{
    lemma_unpruned_weights(s);
    lemma_shared_sizes(unpruned_all(s));
    lemma_intact_shares_below(s, matched, shares::normalized(saved_weights(s)));
}

proof fn lemma_intact_shares_below(
    s: Seq<NodeModel>,
    matched: Seq<Seq<char>>,
    sizes: Seq<TilingSize>,
)
    requires
        are_intact(s, matched),
    ensures
        have_shares_below(shared_list(unpruned_all(s), sizes), s),
    decreases s, 0nat,
{
    if s.len() > 0 {
        let rest = s.drop_last();
        lemma_intact_shares_below(rest, matched, sizes);
        lemma_unpruned_weights(s);
        lemma_unpruned_weights(rest);
        let plan = unpruned_all(s);
        assert(plan.drop_last() =~= unpruned_all(rest));
        let list = shared_list(plan, sizes);
        assert(list == shared_list(unpruned_all(rest), sizes).push(
            shared_node(plan.last(), sizes[s.len() - 1]),
        ));
        assert(list.drop_last() =~= shared_list(unpruned_all(rest), sizes));
        lemma_intact_shares_node(s.last(), matched, sizes[s.len() - 1]);
    }
}

proof fn lemma_intact_shares_node(n: NodeModel, matched: Seq<Seq<char>>, size: TilingSize)
    requires
        is_intact(n, matched),
    ensures
        has_shares_below(shared_node(unpruned(n), size), n),
    decreases n, 0nat,
{
    if n.kind == SnapshotNodeKind::Split {
        let children = n.children->0;
        lemma_intact_shares(children, matched);
    }
}

/// Where every window is there and no split is redundant, siblings get the recorded
/// sizes as shares, at the root and in every split.
pub proof fn law_intact_tree_keeps_its_sizes(w: WorkspaceModel, matched: Seq<Seq<char>>)
    requires
        are_intact(children_of(w.root), matched),
    ensures
        have_shares_of(workspace_plan(w, matched).children, children_of(w.root)),
{
    lemma_intact_all(children_of(w.root), matched);
    lemma_intact_shares(children_of(w.root), matched);
}

/// A split that keeps two children or more stays what it was: its id, its direction, its
/// weight, and its focus order where that names only children that are left.
pub proof fn law_split_stays_what_it_was(
    n: NodeModel,
    inner: Seq<PlanNode>,
    order: Seq<Seq<char>>,
    direction: TilingDirection,
)
    requires
        inner.len() >= 2,
        n.child_focus_order == Some(order),
        n.tiling_direction == Some(direction),
        forall|i: int| 0 <= i < order.len() ==> plan_ids(inner).contains(#[trigger] order[i]),
    ensures
        pruned_split(n, inner).len() == 1,
        pruned_split(n, inner)[0] matches PlanNode::Split {
            local_id,
            tiling_direction,
            tiling_size,
            children,
            child_focus_order,
        } && local_id == n.local_id && tiling_direction == direction && children == inner
            && child_focus_order == order && (n.tiling_size is None ==> tiling_size
            == TilingSize::one()),
{
    let ids = plan_ids(inner);
    seqs::lemma_filter_keeps_all(order, |id: Seq<char>| ids.contains(id));
}

} // verus!
