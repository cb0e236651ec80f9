//! Rebuilding the tiling trees.
//!
//! Each workspace with a matched tiling window gets a plan. To carry it out, the
//! planned windows are detached, what is left of old splits is flattened, and
//! the planned tree is attached node by node. This module plans the workspaces
//! and decides those steps.
use crate::dto::{ContainerId, TilingDirection, TilingSize};
use crate::layout_snapshot;
use crate::layout_snapshot::{SnapshotMonitor, SnapshotWorkspace, WorkspaceModel};
use crate::layout_snapshot_tree;
use crate::layout_snapshot_tree::{LayoutPlanNode, PlanModel, PlanNode, SkipReason};
use crate::layout_snapshot_tree::{SkippedModel, WorkspaceLayoutPlan};
use crate::load_layout_snapshot::RestorePair;
use crate::seqs;
use crate::snapshot_leaves;
use crate::snapshot_leaves::{ListedWorkspace, PlacedLeaf, SnapshotLeaf};
use crate::text;
use crate::window_state::WindowState;
use vstd::hash_set::StringHashSet;
use vstd::prelude::*;
use vstd::string::StringExecFns;

verus! {

// ---------------------------------------------------------------------------
// Plans for workspaces
// ---------------------------------------------------------------------------

/// A container of the desktop that stands for the node with a local id.
#[derive(Debug, PartialEq, Eq)]
pub struct LocalContainer {
    pub local_id: String,
    pub id: ContainerId,
}

/// The plan of a workspace with the windows that it places.
#[derive(Debug, PartialEq, Eq)]
pub struct TilingRestore {
    pub plan: WorkspaceLayoutPlan,
    pub windows: Vec<LocalContainer>,
}

/// What a [`TilingRestore`] says.
#[verifier::ext_equal]
pub struct TilingModel {
    pub plan: PlanModel,
    pub windows: Seq<(Seq<char>, ContainerId)>,
}

pub open spec fn container_views(s: Seq<LocalContainer>) -> Seq<(Seq<char>, ContainerId)> {
    s.map_values(|w: LocalContainer| (w.local_id@, w.id))
}

impl View for TilingRestore {
    type V = TilingModel;

    open spec fn view(&self) -> TilingModel {
        TilingModel { plan: self.plan@, windows: container_views(self.windows@) }
    }
}

pub open spec fn tiling_views(s: Seq<TilingRestore>) -> Seq<TilingModel> {
    s.map_values(|t: TilingRestore| t@)
}

/// A saved tiling window without a running counterpart.
#[derive(Debug, PartialEq, Eq)]
pub struct MissingWindow {
    pub workspace_name: String,
    pub local_id: String,
    pub process_name: String,
}

/// What a [`MissingWindow`] says.
#[verifier::ext_equal]
pub struct MissingModel {
    pub workspace_name: Seq<char>,
    pub local_id: Seq<char>,
    pub process_name: Seq<char>,
}

impl View for MissingWindow {
    type V = MissingModel;

    open spec fn view(&self) -> MissingModel {
        MissingModel {
            workspace_name: self.workspace_name@,
            local_id: self.local_id@,
            process_name: self.process_name@,
        }
    }
}

pub open spec fn missing_views(s: Seq<MissingWindow>) -> Seq<MissingModel> {
    s.map_values(|m: MissingWindow| m@)
}

impl MissingWindow {
    /// The debug message for the window.
    pub fn message(&self) -> (r: String)
        ensures
            r@ == "Layout restore: skipping missing tiling window '"@ + self.process_name@ + "' ("@
                + self.local_id@ + ") on workspace '"@ + self.workspace_name@ + "'"@,
    {
        let mut out = "Layout restore: skipping missing tiling window '".to_owned();
        out.append(self.process_name.as_str());
        out.append("' (");
        out.append(self.local_id.as_str());
        out.append(") on workspace '");
        out.append(self.workspace_name.as_str());
        out.append("'");
        out
    }
}

/// What is planned for the workspaces.
#[derive(Debug, PartialEq, Eq)]
pub struct TilingPlans {
    /// The plans that place a window.
    pub restores: Vec<TilingRestore>,
    /// The windows that no plan can place, of all workspaces.
    pub missing: Vec<MissingWindow>,
}

/// Whether a pair puts a tiling window on the workspace `name`.
pub open spec fn tiles_on(leaves: Seq<PlacedLeaf>, p: RestorePair, name: Seq<char>) -> bool {
    leaves[p.leaf as int].window.state == WindowState::Tiling && leaves[p.leaf as int].workspace_name
        == name
}

/// The matched tiling windows of the workspace `name`, by local id.
pub open spec fn matched_on(
    leaves: Seq<PlacedLeaf>,
    pairs: Seq<RestorePair>,
    name: Seq<char>,
) -> Seq<(Seq<char>, ContainerId)> {
    pairs.filter(|p: RestorePair| tiles_on(leaves, p, name)).map_values(
        |p: RestorePair| (leaves[p.leaf as int].local_id, p.live_id),
    )
}

pub open spec fn matched_ids(windows: Seq<(Seq<char>, ContainerId)>) -> Seq<Seq<char>> {
    windows.map_values(|w: (Seq<char>, ContainerId)| w.0)
}

/// The plan of one workspace.
pub open spec fn tiling_restore(
    w: WorkspaceModel,
    leaves: Seq<PlacedLeaf>,
    pairs: Seq<RestorePair>,
) -> TilingModel {
    let windows = matched_on(leaves, pairs, w.name);
    TilingModel {
        plan: layout_snapshot_tree::workspace_plan(w, matched_ids(windows)),
        windows,
    }
}

pub open spec fn listed_names(list: Seq<ListedWorkspace>) -> Seq<Seq<char>> {
    list.map_values(|w: ListedWorkspace| w.workspace.name)
}

/// The plans of the listed workspaces. A workspace name is planned once, and a
/// workspace with nothing to tile is left out.
pub open spec fn tiling_restores(
    list: Seq<ListedWorkspace>,
    leaves: Seq<PlacedLeaf>,
    pairs: Seq<RestorePair>,
) -> Seq<TilingModel>
    decreases list.len(),
{
    if list.len() == 0 {
        Seq::empty()
    } else {
        let before = tiling_restores(list.drop_last(), leaves, pairs);
        let restore = tiling_restore(list.last().workspace, leaves, pairs);
        if listed_names(list.drop_last()).contains(list.last().workspace.name)
            || restore.plan.children.len() == 0 {
            before
        } else {
            before.push(restore)
        }
    }
}

pub open spec fn is_missing(s: SkippedModel) -> bool {
    s.reason == SkipReason::MissingLiveMatch
}

/// The windows of a workspace that have no running counterpart.
pub open spec fn missing_in(plan: PlanModel) -> Seq<MissingModel> {
    plan.skipped.filter(|s: SkippedModel| is_missing(s)).map_values(
        |s: SkippedModel|
            MissingModel {
                workspace_name: plan.workspace_name,
                local_id: s.local_id,
                process_name: s.process_name,
            },
    )
}

/// The missing windows of the listed workspaces, whether or not there is anything
/// to tile. A workspace name counts once.
pub open spec fn missing_windows(
    list: Seq<ListedWorkspace>,
    leaves: Seq<PlacedLeaf>,
    pairs: Seq<RestorePair>,
) -> Seq<MissingModel>
    decreases list.len(),
{
    if list.len() == 0 {
        Seq::empty()
    } else {
        let before = missing_windows(list.drop_last(), leaves, pairs);
        if listed_names(list.drop_last()).contains(list.last().workspace.name) {
            before
        } else {
            before + missing_in(tiling_restore(list.last().workspace, leaves, pairs).plan)
        }
    }
}

fn push_missing(plan: &WorkspaceLayoutPlan, out: &mut Vec<MissingWindow>)
    ensures
        missing_views(final(out)@) == missing_views(old(out)@) + missing_in(plan@),
{
    let ghost start = missing_views(out@);
    let ghost all = plan@.skipped;
    let ghost keep = |s: SkippedModel| is_missing(s);
    let ghost entry = |s: SkippedModel|
        MissingModel {
            workspace_name: plan@.workspace_name,
            local_id: s.local_id,
            process_name: s.process_name,
        };
    let mut i: usize = 0;
    assert(missing_views(out@) =~= start + all.take(0).filter(keep).map_values(entry)) by {
        reveal(Seq::filter);
    }
    while i < plan.skipped.len()
        invariant
            i <= plan.skipped@.len(),
            all == plan@.skipped,
            all.len() == plan.skipped@.len(),
            keep == (|s: SkippedModel| is_missing(s)),
            entry == (|s: SkippedModel|
                MissingModel {
                    workspace_name: plan@.workspace_name,
                    local_id: s.local_id,
                    process_name: s.process_name,
                }),
            missing_views(out@) == start + all.take(i as int).filter(keep).map_values(entry),
        decreases plan.skipped@.len() - i,
    {
        let skip = &plan.skipped[i];
        let ghost kept = all.take(i as int).filter(keep);
        proof {
            assert(all.take(i + 1).drop_last() =~= all.take(i as int));
            assert(all.take(i + 1).last() == skip@);
            reveal(Seq::filter);
        }
        if skip.reason == SkipReason::MissingLiveMatch {
            let ghost before = out@;
            out.push(
                MissingWindow {
                    workspace_name: plan.workspace_name.clone(),
                    local_id: skip.local_id.clone(),
                    process_name: skip.process_name.clone(),
                },
            );
            assert(missing_views(out@) =~= missing_views(before).push(entry(skip@)));
            assert(kept.push(skip@).map_values(entry) =~= kept.map_values(entry).push(
                entry(skip@),
            ));
            assert(missing_views(out@) =~= start + kept.push(skip@).map_values(entry));
        }
        i = i + 1;
    }
    assert(all.take(i as int) =~= all);
}

fn matched_windows_on(leaves: &[SnapshotLeaf], pairs: &[RestorePair], name: &str) -> (r: Vec<
    LocalContainer,
>)
    requires
        forall|i: int| 0 <= i < pairs@.len() ==> (#[trigger] pairs@[i]).leaf < leaves@.len(),
    ensures
        container_views(r@) == matched_on(snapshot_leaves::leaf_views(leaves@), pairs@, name@),
{
    let ghost saved = snapshot_leaves::leaf_views(leaves@);
    let ghost keep = |p: RestorePair| tiles_on(saved, p, name@);
    let ghost entry = |p: RestorePair| (saved[p.leaf as int].local_id, p.live_id);
    let mut out: Vec<LocalContainer> = Vec::new();
    let mut i: usize = 0;
    assert(container_views(out@) =~= pairs@.take(0).filter(keep).map_values(entry)) by {
        reveal(Seq::filter);
    }
    while i < pairs.len()
        invariant
            i <= pairs@.len(),
            saved == snapshot_leaves::leaf_views(leaves@),
            keep == (|p: RestorePair| tiles_on(saved, p, name@)),
            entry == (|p: RestorePair| (saved[p.leaf as int].local_id, p.live_id)),
            forall|k: int| 0 <= k < pairs@.len() ==> (#[trigger] pairs@[k]).leaf < leaves@.len(),
            container_views(out@) == pairs@.take(i as int).filter(keep).map_values(entry),
        decreases pairs@.len() - i,
    {
        let p = pairs[i];
        let leaf = &leaves[p.leaf];
        let ghost kept = pairs@.take(i as int).filter(keep);
        proof {
            assert(pairs@.take(i + 1).drop_last() =~= pairs@.take(i as int));
            assert(pairs@.take(i + 1).last() == p);
            assert(saved[p.leaf as int] == leaf@);
            reveal(Seq::filter);
        }
        if leaf.window.state == WindowState::Tiling && text::same_text(
            leaf.workspace_name.as_str(),
            name,
        ) {
            let ghost before = out@;
            out.push(LocalContainer { local_id: leaf.local_id.clone(), id: p.live_id });
            assert(container_views(out@) =~= container_views(before).push(entry(p)));
            assert(kept.push(p).map_values(entry) =~= kept.map_values(entry).push(entry(p)));
        }
        i = i + 1;
    }
    assert(pairs@.take(i as int) =~= pairs@);
    out
}

fn local_ids_of(windows: &[LocalContainer]) -> (r: Vec<String>)
    ensures
        text::views(r@) == matched_ids(container_views(windows@)),
{
    let ghost all = matched_ids(container_views(windows@));
    let mut out: Vec<String> = Vec::new();
    let mut i: usize = 0;
    while i < windows.len()
        invariant
            i <= windows@.len(),
            all == matched_ids(container_views(windows@)),
            text::views(out@) == all.take(i as int),
        decreases windows@.len() - i,
    {
        let ghost before = out@;
        out.push(windows[i].local_id.clone());
        assert(text::views(out@) =~= text::views(before).push(windows@[i as int].local_id@));
        i = i + 1;
        assert(text::views(out@) =~= all.take(i as int));
    }
    assert(all.take(i as int) =~= all);
    out
}

/// The plan of one workspace.
pub fn restore_for_workspace(
    workspace: &SnapshotWorkspace,
    leaves: &[SnapshotLeaf],
    pairs: &[RestorePair],
) -> (r: TilingRestore)
    requires
        forall|i: int| 0 <= i < pairs@.len() ==> (#[trigger] pairs@[i]).leaf < leaves@.len(),
    ensures
        r@ == tiling_restore(workspace@, snapshot_leaves::leaf_views(leaves@), pairs@),
{
    let windows = matched_windows_on(leaves, pairs, workspace.name.as_str());
    let ids = local_ids_of(&windows);
    let plan = layout_snapshot_tree::plan_workspace_tiling_layout(workspace, &ids);
    TilingRestore { plan, windows }
}

/// The plans of the workspaces of the monitors with the given indices, and the
/// windows that are missing there.
pub fn plan_tiling_restores(
    monitors: &[SnapshotMonitor],
    order: &[usize],
    leaves: &[SnapshotLeaf],
    pairs: &[RestorePair],
) -> (r: TilingPlans)
    requires
        forall|i: int| 0 <= i < order@.len() ==> #[trigger] order@[i] < monitors@.len(),
        forall|i: int| 0 <= i < pairs@.len() ==> (#[trigger] pairs@[i]).leaf < leaves@.len(),
    ensures
        ({
            let list = snapshot_leaves::listed_workspaces(
                layout_snapshot::monitor_views(monitors@),
                order@,
            );
            let saved = snapshot_leaves::leaf_views(leaves@);
            &&& tiling_views(r.restores@) == tiling_restores(list, saved, pairs@)
            &&& missing_views(r.missing@) == missing_windows(list, saved, pairs@)
        }),
{
    let ghost mons = layout_snapshot::monitor_views(monitors@);
    let ghost saved = snapshot_leaves::leaf_views(leaves@);
    let mut out: Vec<TilingRestore> = Vec::new();
    let mut missing: Vec<MissingWindow> = Vec::new();
    let mut seen: StringHashSet = StringHashSet::new();
    let mut i: usize = 0;
    proof {
        let none = snapshot_leaves::listed_workspaces(mons, order@.take(0));
        assert(tiling_views(out@) =~= tiling_restores(none, saved, pairs@));
        assert(missing_views(missing@) =~= missing_windows(none, saved, pairs@));
        assert(seen@ =~= listed_names(none).to_set());
    }
    while i < order.len()
        invariant
            i <= order@.len(),
            mons == layout_snapshot::monitor_views(monitors@),
            saved == snapshot_leaves::leaf_views(leaves@),
            forall|k: int| 0 <= k < order@.len() ==> #[trigger] order@[k] < monitors@.len(),
            forall|k: int| 0 <= k < pairs@.len() ==> (#[trigger] pairs@[k]).leaf < leaves@.len(),
            tiling_views(out@) == tiling_restores(
                snapshot_leaves::listed_workspaces(mons, order@.take(i as int)),
                saved,
                pairs@,
            ),
            missing_views(missing@) == missing_windows(
                snapshot_leaves::listed_workspaces(mons, order@.take(i as int)),
                saved,
                pairs@,
            ),
            seen@ == listed_names(
                snapshot_leaves::listed_workspaces(mons, order@.take(i as int)),
            ).to_set(),
        decreases order@.len() - i,
    {
        let at: usize = order[i];
        let ghost before = snapshot_leaves::listed_workspaces(mons, order@.take(i as int));
        let ghost mine = snapshot_leaves::monitor_workspaces(mons[at as int]);
        let mut j: usize = 0;
        proof {
            assert(order@.take(i + 1).drop_last() =~= order@.take(i as int));
            assert(snapshot_leaves::listed_workspaces(mons, order@.take(i + 1)) == before + mine);
            assert(before + mine.take(0) =~= before);
            assert(mine.len() == monitors@[at as int].workspaces@.len());
        }
        while j < monitors[at].workspaces.len()
            invariant
                at < monitors@.len(),
                mons == layout_snapshot::monitor_views(monitors@),
                saved == snapshot_leaves::leaf_views(leaves@),
                mine == snapshot_leaves::monitor_workspaces(mons[at as int]),
                mine.len() == monitors@[at as int].workspaces@.len(),
                j <= mine.len(),
                forall|k: int|
                    0 <= k < pairs@.len() ==> (#[trigger] pairs@[k]).leaf < leaves@.len(),
                tiling_views(out@) == tiling_restores(
                    before + mine.take(j as int),
                    saved,
                    pairs@,
                ),
                missing_views(missing@) == missing_windows(
                    before + mine.take(j as int),
                    saved,
                    pairs@,
                ),
                seen@ == listed_names(before + mine.take(j as int)).to_set(),
            decreases mine.len() - j,
        {
            let workspace = &monitors[at].workspaces[j];
            let ghost list = before + mine.take(j as int);
            let ghost next = before + mine.take(j + 1);
            proof {
                assert(mine[j as int].workspace == workspace@);
                assert(next.drop_last() =~= list);
                assert(next.last() == mine[j as int]);
                assert(listed_names(next) =~= listed_names(list).push(workspace.name@));
                seqs::lemma_to_set_push(listed_names(list), workspace.name@);
            }
            let ghost old_seen = seen@;
            let fresh = seen.insert(workspace.name.clone());
            assert(old_seen.contains(workspace.name@) <==> listed_names(list).contains(
                workspace.name@,
            ));
            if fresh {
                let restore = restore_for_workspace(workspace, leaves, pairs);
                push_missing(&restore.plan, &mut missing);
                if !restore.plan.is_empty() {
                    let ghost old_out = out@;
                    out.push(restore);
                    assert(tiling_views(out@) =~= tiling_views(old_out).push(restore@));
                }
            }
            j = j + 1;
        }
        assert(mine.take(j as int) =~= mine);
        i = i + 1;
    }
    assert(order@.take(i as int) =~= order@);
    TilingPlans { restores: out, missing }
}

/// The container for a local id: the last one listed for it.
pub fn container_for(windows: &[LocalContainer], local_id: &str) -> (r: Option<ContainerId>)
    ensures
        r == seqs::lookup(container_views(windows@), local_id@),
{
    let ghost all = container_views(windows@);
    let mut n: usize = windows.len();
    assert(all.take(n as int) =~= all);
    while n > 0
        invariant
            n <= windows@.len(),
            all == container_views(windows@),
            seqs::lookup(all, local_id@) == seqs::lookup(all.take(n as int), local_id@),
        decreases n,
    {
        assert(all.take(n as int).last() == (
            windows@[n - 1].local_id@,
            windows@[n - 1].id,
        ));
        assert(all.take(n as int).drop_last() =~= all.take(n - 1));
        if text::same_text(windows[n - 1].local_id.as_str(), local_id) {
            return Some(windows[n - 1].id);
        }
        n = n - 1;
    }
    None
}

// ---------------------------------------------------------------------------
// Detaching
// ---------------------------------------------------------------------------

/// What matters of a running window that is to be detached.
#[derive(Clone, Copy, Debug, PartialEq, Eq, Structural)]
pub struct DetachCandidate {
    pub is_tiling: bool,
    pub has_parent: bool,
}

/// What to do with a window before the tree is rebuilt.
#[derive(Clone, Copy, Debug, PartialEq, Eq, Structural)]
pub enum DetachStep {
    /// Leave it out.
    Skip,
    /// Make it tile, then look again.
    ForceTiling,
    /// Take it out of the tree and keep it for attaching.
    Detach,
    /// It is out of the tree already; keep it for attaching.
    Keep,
}

/// Decides what to do with a planned window. `forced` says that the window was
/// already made to tile; a window that is gone after that is an error.
pub fn detach_step(window: Option<DetachCandidate>, forced: bool) -> (r: Result<DetachStep, String>)
    ensures
        match window {
            None => if forced {
                r is Err && r->Err_0@ == "Window missing after forcing tiling."@
            } else {
                r == Ok::<DetachStep, String>(DetachStep::Skip)
            },
            Some(w) => r == Ok::<DetachStep, String>(
                if w.is_tiling {
                    if w.has_parent {
                        DetachStep::Detach
                    } else {
                        DetachStep::Keep
                    }
                } else if forced {
                    DetachStep::Skip
                } else {
                    DetachStep::ForceTiling
                },
            ),
        },
{
    match window {
        None => {
            if forced {
                Err("Window missing after forcing tiling.".to_owned())
            } else {
                Ok(DetachStep::Skip)
            }
        },
        Some(w) => {
            if !w.is_tiling {
                if forced {
                    Ok(DetachStep::Skip)
                } else {
                    Ok(DetachStep::ForceTiling)
                }
            } else if w.has_parent {
                Ok(DetachStep::Detach)
            } else {
                Ok(DetachStep::Keep)
            }
        },
    }
}

// ---------------------------------------------------------------------------
// Flattening
// ---------------------------------------------------------------------------

/// Whether `order` lists all splits, the deepest first, and splits of the same
/// depth in the given order.
pub open spec fn is_flatten_order(depths: Seq<usize>, order: Seq<usize>) -> bool {
    &&& order.len() == depths.len()
    &&& forall|i: int| 0 <= i < order.len() ==> #[trigger] order[i] < depths.len()
    &&& forall|i: int, j: int|
        0 <= i < j < order.len() ==> flattens_before(
            depths,
            #[trigger] order[i] as int,
            #[trigger] order[j] as int,
        )
}

pub open spec fn flattens_before(depths: Seq<usize>, i: int, j: int) -> bool {
    depths[i] > depths[j] || (depths[i] == depths[j] && i < j)
}

/// The order in which splits are flattened: the deepest first.
pub fn flatten_order(depths: &[usize]) -> (r: Vec<usize>)
    ensures
        is_flatten_order(depths@, r@),
{
    let mut out: Vec<usize> = Vec::new();
    let mut k: usize = 0;
    while k < depths.len()
        invariant
            k <= depths@.len(),
            out@.len() == k,
            forall|i: int| 0 <= i < out@.len() ==> #[trigger] out@[i] < k,
            forall|i: int, j: int|
                0 <= i < j < out@.len() ==> flattens_before(
                    depths@,
                    #[trigger] out@[i] as int,
                    #[trigger] out@[j] as int,
                ),
        decreases depths@.len() - k,
    {
        let mut pos: usize = out.len();
        while pos > 0 && depths[k] > depths[out[pos - 1]]
            invariant
                pos <= out@.len(),
                k < depths@.len(),
                forall|i: int| 0 <= i < out@.len() ==> #[trigger] out@[i] < k,
                forall|i: int|
                    pos <= i < out@.len() ==> flattens_before(
                        depths@,
                        k as int,
                        #[trigger] out@[i] as int,
                    ),
            decreases pos,
        {
            pos = pos - 1;
        }
        let ghost before = out@;
        assert forall|i: int| 0 <= i < pos implies flattens_before(
            depths@,
            #[trigger] before[i] as int,
            k as int,
        ) by {
            if i < pos - 1 {
                assert(flattens_before(depths@, before[i] as int, before[pos - 1] as int));
            }
        }
        out.insert(pos, k);
        proof {
            assert forall|i: int, j: int| 0 <= i < j < out@.len() implies flattens_before(
                depths@,
                #[trigger] out@[i] as int,
                #[trigger] out@[j] as int,
            ) by {
                let bi = if i < pos {
                    i
                } else {
                    i - 1
                };
                let bj = if j < pos {
                    j
                } else {
                    j - 1
                };
                if i == pos as int {
                    assert(out@[j] == before[bj]);
                } else if j == pos as int {
                    assert(out@[i] == before[bi]);
                } else {
                    assert(out@[i] == before[bi]);
                    assert(out@[j] == before[bj]);
                }
            }
            assert forall|i: int| 0 <= i < out@.len() implies #[trigger] out@[i] < k + 1 by {
                if i < pos {
                    assert(out@[i] == before[i]);
                } else if i > pos {
                    assert(out@[i] == before[i - 1]);
                }
            }
        }
        k = k + 1;
    }
    out
}

/// Whether to flatten once more: splits remain, and the last round got rid of
/// some. So the rounds come to an end even if a split cannot be flattened.
pub fn should_flatten_again(before: usize, remaining: usize) -> (r: bool)
    ensures
        r == (0 < remaining < before),
{
    0 < remaining && remaining < before
}

// ---------------------------------------------------------------------------
// Attaching
// ---------------------------------------------------------------------------

#[derive(Clone, Copy, Debug, PartialEq, Eq, Structural)]
pub enum AttachKind {
    /// A detached window.
    Window,
    /// A new split.
    Split(TilingDirection),
}

/// One node to attach.
#[derive(Debug, PartialEq, Eq)]
pub struct AttachStep {
    /// The step that attached the parent; the workspace itself if none.
    pub parent: Option<usize>,
    /// Position among the children of the parent.
    pub index: usize,
    pub local_id: String,
    pub kind: AttachKind,
}

/// The nodes to attach, in order. If a planned window was not detached, the
/// steps end before it.
#[derive(Debug, PartialEq, Eq)]
pub struct AttachPlan {
    pub steps: Vec<AttachStep>,
    pub missing: Option<String>,
    /// How many detached windows are not attached by the steps.
    pub left_over: usize,
}

/// What an [`AttachStep`] says.
#[verifier::ext_equal]
pub struct StepModel {
    pub parent: Option<nat>,
    pub index: nat,
    pub local_id: Seq<char>,
    pub kind: AttachKind,
}

impl View for AttachStep {
    type V = StepModel;

    open spec fn view(&self) -> StepModel {
        StepModel {
            parent: match self.parent {
                Some(p) => Some(p as nat),
                None => None,
            },
            index: self.index as nat,
            local_id: self.local_id@,
            kind: self.kind,
        }
    }
}

pub open spec fn step_views(s: Seq<AttachStep>) -> Seq<StepModel> {
    s.map_values(|x: AttachStep| x@)
}

/// The steps so far, the detached windows that are left, and the window that
/// was missing.
#[verifier::ext_equal]
pub struct Attaching {
    pub steps: Seq<StepModel>,
    pub left: Set<Seq<char>>,
    pub missing: Option<Seq<char>>,
}

/// Attaches one node as child number `index` of `parent`. A split comes before
/// its children.
pub open spec fn attach_node(
    n: PlanNode,
    parent: Option<nat>,
    index: nat,
    before: Attaching,
) -> Attaching
    decreases n,
{
    match n {
        PlanNode::Window { local_id, .. } => if before.left.contains(local_id) {
            Attaching {
                steps: before.steps.push(
                    StepModel { parent, index, local_id, kind: AttachKind::Window },
                ),
                left: before.left.remove(local_id),
                missing: None,
            }
        } else {
            Attaching { missing: Some(local_id), ..before }
        },
        PlanNode::Split { local_id, tiling_direction, children, .. } => attach_nodes(
            children,
            Some(before.steps.len()),
            Attaching {
                steps: before.steps.push(
                    StepModel {
                        parent,
                        index,
                        local_id,
                        kind: AttachKind::Split(tiling_direction),
                    },
                ),
                left: before.left,
                missing: None,
            },
        ),
    }
}

/// Attaches siblings one after the other, up to a missing window.
pub open spec fn attach_nodes(
    s: Seq<PlanNode>,
    parent: Option<nat>,
    start: Attaching,
) -> Attaching
    decreases s,
{
    if s.len() == 0 {
        start
    } else {
        let before = attach_nodes(s.drop_last(), parent, start);
        if before.missing is Some {
            before
        } else {
            attach_node(s.last(), parent, (s.len() - 1) as nat, before)
        }
    }
}

/// Attaching the children of a plan to the workspace.
pub open spec fn attaching(children: Seq<PlanNode>, detached: Set<Seq<char>>) -> Attaching {
    attach_nodes(
        children,
        None,
        Attaching { steps: Seq::empty(), left: detached, missing: None },
    )
}

fn attach_plan_node(
    node: &LayoutPlanNode,
    parent: Option<usize>,
    index: usize,
    steps: &mut Vec<AttachStep>,
    left: &mut StringHashSet,
) -> (r: Option<String>)
    ensures
        ({
            let after = attach_node(
                node@,
                match parent {
                    Some(p) => Some(p as nat),
                    None => None,
                },
                index as nat,
                Attaching { steps: step_views(old(steps)@), left: old(left)@, missing: None },
            );
            &&& step_views(final(steps)@) == after.steps
            &&& final(left)@ == after.left
            &&& text::opt_view(r) == after.missing
        }),
    decreases node,
{
    let ghost first = steps@;
    match node {
        LayoutPlanNode::Window { local_id, .. } => {
            if left.remove(local_id.as_str()) {
                let step = AttachStep {
                    parent,
                    index,
                    local_id: local_id.clone(),
                    kind: AttachKind::Window,
                };
                steps.push(step);
                assert(step_views(steps@) =~= step_views(first).push(step@));
                None
            } else {
                assert(left@ =~= old(left)@);
                Some(local_id.clone())
            }
        },
        LayoutPlanNode::Split { local_id, tiling_direction, children, .. } => {
            let here: usize = steps.len();
            let step = AttachStep {
                parent,
                index,
                local_id: local_id.clone(),
                kind: AttachKind::Split(*tiling_direction),
            };
            steps.push(step);
            assert(step_views(steps@) =~= step_views(first).push(step@));
            assert(decreases_to!(node => node->Split_children));
            attach_plan_nodes(children, Some(here), steps, left)
        },
    }
}

fn attach_plan_nodes(
    nodes: &Vec<LayoutPlanNode>,
    parent: Option<usize>,
    steps: &mut Vec<AttachStep>,
    left: &mut StringHashSet,
) -> (r: Option<String>)
    ensures
        ({
            let after = attach_nodes(
                layout_snapshot_tree::plan_views(nodes@),
                match parent {
                    Some(p) => Some(p as nat),
                    None => None,
                },
                Attaching { steps: step_views(old(steps)@), left: old(left)@, missing: None },
            );
            &&& step_views(final(steps)@) == after.steps
            &&& final(left)@ == after.left
            &&& text::opt_view(r) == after.missing
        }),
    decreases nodes,
{
    let ghost all = layout_snapshot_tree::plan_views(nodes@);
    let ghost up = match parent {
        Some(p) => Some(p as nat),
        None => None,
    };
    let ghost start = Attaching { steps: step_views(steps@), left: left@, missing: None };
    let mut i: usize = 0;
    proof {
        layout_snapshot_tree::lemma_plan_views(nodes@);
        assert(all.take(0).len() == 0);
    }
    while i < nodes.len()
        invariant
            i <= nodes@.len(),
            all == layout_snapshot_tree::plan_views(nodes@),
            all.len() == nodes@.len(),
            forall|k: int| 0 <= k < nodes@.len() ==> #[trigger] all[k] == nodes@[k]@,
            up == (match parent {
                Some(p) => Some(p as nat),
                None => None,
            }),
            start == (Attaching {
                steps: step_views(old(steps)@),
                left: old(left)@,
                missing: None,
            }),
            attach_nodes(all.take(i as int), up, start) == (Attaching {
                steps: step_views(steps@),
                left: left@,
                missing: None,
            }),
        decreases nodes@.len() - i,
    {
        proof {
            assert(all.take(i + 1).drop_last() =~= all.take(i as int));
            assert(all.take(i + 1).last() == all[i as int]);
            assert(decreases_to!(nodes => nodes@));
            assert(decreases_to!(nodes@ => nodes@[i as int]));
        }
        let missing = attach_plan_node(&nodes[i], parent, i, steps, left);
        if missing.is_some() {
            proof {
                lemma_attach_stops(all, up, start, i + 1);
            }
            return missing;
        }
        i = i + 1;
    }
    assert(all.take(i as int) =~= all);
    None
}

/// Once a window is missing, no more is attached.
proof fn lemma_attach_stops(s: Seq<PlanNode>, parent: Option<nat>, start: Attaching, k: int)
    requires
        0 <= k <= s.len(),
        attach_nodes(s.take(k), parent, start).missing is Some,
    ensures
        attach_nodes(s, parent, start) == attach_nodes(s.take(k), parent, start),
    decreases s.len() - k,
{
    if k < s.len() {
        assert(s.take(k + 1).drop_last() =~= s.take(k));
        lemma_attach_stops(s, parent, start, k + 1);
    } else {
        assert(s.take(k) =~= s);
    }
}

/// The steps that attach a planned tree to its workspace, given the local ids
/// of the windows that were detached.
pub fn plan_attach(plan: &WorkspaceLayoutPlan, detached: &[String]) -> (r: AttachPlan)
    ensures
        ({
            let after = attaching(plan@.children, text::views(detached@).to_set());
            &&& step_views(r.steps@) == after.steps
            &&& text::opt_view(r.missing) == after.missing
            &&& r.left_over == after.left.len()
        }),
{
    let mut left: StringHashSet = StringHashSet::new();
    let mut i: usize = 0;
    assert(left@ =~= text::views(detached@).take(0).to_set());
    while i < detached.len()
        invariant
            i <= detached@.len(),
            left@ == text::views(detached@).take(i as int).to_set(),
        decreases detached@.len() - i,
    {
        let ghost all = text::views(detached@);
        proof {
            assert(all.take(i + 1) =~= all.take(i as int).push(detached@[i as int]@));
            seqs::lemma_to_set_push(all.take(i as int), detached@[i as int]@);
        }
        left.insert(detached[i].clone());
        i = i + 1;
    }
    assert(text::views(detached@).take(i as int) =~= text::views(detached@));
    let mut steps: Vec<AttachStep> = Vec::new();
    assert(step_views(steps@) =~= Seq::<StepModel>::empty());
    let missing = attach_plan_nodes(&plan.children, None, &mut steps, &mut left);
    AttachPlan { steps, missing, left_over: left.len() }
}

/// The message for a planned window that was not detached.
pub fn missing_window_message(local_id: &str) -> (r: String)
    ensures
        r@ == "Detached window '"@ + local_id@ + "' missing during attach."@,
{
    let mut out = "Detached window '".to_owned();
    out.append(local_id);
    out.append("' missing during attach.");
    out
}

// ---------------------------------------------------------------------------
// Sizes
// ---------------------------------------------------------------------------

/// A planned node and its size relative to its siblings.
#[derive(Debug, PartialEq, Eq)]
pub struct NodeSize {
    pub local_id: String,
    pub tiling_size: TilingSize,
}

pub open spec fn size_views(s: Seq<NodeSize>) -> Seq<(Seq<char>, TilingSize)> {
    s.map_values(|n: NodeSize| (n.local_id@, n.tiling_size))
}

pub open spec fn group_views(s: Seq<Vec<NodeSize>>) -> Seq<Seq<(Seq<char>, TilingSize)>> {
    s.map_values(|g: Vec<NodeSize>| size_views(g@))
}

/// The sizes of siblings.
pub open spec fn sizes_of(s: Seq<PlanNode>) -> Seq<(Seq<char>, TilingSize)> {
    s.map_values(
        |n: PlanNode| (layout_snapshot_tree::plan_id(n), layout_snapshot_tree::plan_size(n)),
    )
}

/// The sizes of siblings, followed by those below each of them.
pub open spec fn sizes_from(s: Seq<PlanNode>) -> Seq<Seq<(Seq<char>, TilingSize)>>
    decreases s, 1nat,
{
    seq![sizes_of(s)] + sizes_below_all(s)
}

/// The sizes below a node.
pub open spec fn sizes_below(n: PlanNode) -> Seq<Seq<(Seq<char>, TilingSize)>>
    decreases n, 0nat,
{
    match n {
        PlanNode::Window { .. } => Seq::empty(),
        PlanNode::Split { children, .. } => sizes_from(children),
    }
}

/// The sizes below siblings.
pub open spec fn sizes_below_all(s: Seq<PlanNode>) -> Seq<Seq<(Seq<char>, TilingSize)>>
    decreases s, 0nat,
{
    if s.len() == 0 {
        Seq::empty()
    } else {
        sizes_below_all(s.drop_last()) + sizes_below(s.last())
    }
}

fn sibling_sizes(nodes: &Vec<LayoutPlanNode>) -> (r: Vec<NodeSize>)
    ensures
        size_views(r@) == sizes_of(layout_snapshot_tree::plan_views(nodes@)),
{
    let ghost all = sizes_of(layout_snapshot_tree::plan_views(nodes@));
    let mut out: Vec<NodeSize> = Vec::new();
    let mut i: usize = 0;
    proof {
        layout_snapshot_tree::lemma_plan_views(nodes@);
        assert(size_views(out@) =~= all.take(0));
    }
    while i < nodes.len()
        invariant
            i <= nodes@.len(),
            all == sizes_of(layout_snapshot_tree::plan_views(nodes@)),
            all.len() == nodes@.len(),
            forall|k: int|
                0 <= k < nodes@.len() ==> #[trigger] all[k] == (
                    layout_snapshot_tree::plan_id(nodes@[k]@),
                    layout_snapshot_tree::plan_size(nodes@[k]@),
                ),
            size_views(out@) == all.take(i as int),
        decreases nodes@.len() - i,
    {
        let ghost before = size_views(out@);
        let entry = NodeSize {
            local_id: nodes[i].local_id().to_owned(),
            tiling_size: nodes[i].tiling_size(),
        };
        out.push(entry);
        assert(size_views(out@) =~= before.push((entry.local_id@, entry.tiling_size)));
        assert(size_views(out@) =~= all.take(i + 1));
        i = i + 1;
    }
    assert(all.take(i as int) =~= all);
    out
}

fn collect_sizes(nodes: &Vec<LayoutPlanNode>, out: &mut Vec<Vec<NodeSize>>)
    ensures
        group_views(final(out)@) == group_views(old(out)@) + sizes_from(
            layout_snapshot_tree::plan_views(nodes@),
        ),
    decreases nodes,
{
    let ghost all = layout_snapshot_tree::plan_views(nodes@);
    let ghost first = group_views(out@);
    let group = sibling_sizes(nodes);
    out.push(group);
    let ghost head = first.push(sizes_of(all));
    let mut i: usize = 0;
    proof {
        layout_snapshot_tree::lemma_plan_views(nodes@);
        assert(group_views(out@) =~= head);
        assert(head =~= head + sizes_below_all(all.take(0)));
    }
    while i < nodes.len()
        invariant
            i <= nodes@.len(),
            all == layout_snapshot_tree::plan_views(nodes@),
            all.len() == nodes@.len(),
            forall|k: int| 0 <= k < nodes@.len() ==> #[trigger] all[k] == nodes@[k]@,
            group_views(out@) == head + sizes_below_all(all.take(i as int)),
        decreases nodes@.len() - i,
    {
        proof {
            assert(all.take(i + 1).drop_last() =~= all.take(i as int));
            assert(all.take(i + 1).last() == nodes@[i as int]@);
            assert(decreases_to!(nodes => nodes@));
            assert(decreases_to!(nodes@ => nodes@[i as int]));
        }
        let node = &nodes[i];
        let ghost before = group_views(out@);
        match node {
            LayoutPlanNode::Window { .. } => {
                assert(group_views(out@) =~= before + sizes_below(node@));
            },
            LayoutPlanNode::Split { children, .. } => {
                assert(decreases_to!(node => node->Split_children));
                collect_sizes(children, out);
                assert(sizes_below(node@) == sizes_from(
                    layout_snapshot_tree::plan_views(children@),
                ));
            },
        }
        assert(sizes_below_all(all.take(i + 1)) == sizes_below_all(all.take(i as int))
            + sizes_below(node@));
        assert(group_views(out@) =~= head + sizes_below_all(all.take(i + 1)));
        i = i + 1;
    }
    proof {
        assert(all.take(i as int) =~= all);
        assert(group_views(out@) =~= first + sizes_from(all));
    }
}

/// The sizes to give to the nodes of a plan, siblings together, each group
/// before those below it.
pub fn plan_sizes(plan: &WorkspaceLayoutPlan) -> (r: Vec<Vec<NodeSize>>)
    ensures
        group_views(r@) == sizes_from(plan@.children),
{
    let mut out: Vec<Vec<NodeSize>> = Vec::new();
    collect_sizes(&plan.children, &mut out);
    assert(group_views(out@) =~= sizes_from(plan@.children));
    out
}

// ---------------------------------------------------------------------------
// Focus
// ---------------------------------------------------------------------------

/// The focus order of a planned split.
#[derive(Debug, PartialEq, Eq)]
pub struct SplitFocusOrder {
    pub local_id: String,
    pub child_focus_order: Vec<String>,
}

pub open spec fn focus_views(s: Seq<SplitFocusOrder>) -> Seq<(Seq<char>, Seq<Seq<char>>)> {
    s.map_values(|f: SplitFocusOrder| (f.local_id@, text::views(f.child_focus_order@)))
}

/// The focus orders of a split and of the splits below it.
pub open spec fn split_orders(n: PlanNode) -> Seq<(Seq<char>, Seq<Seq<char>>)>
    decreases n,
{
    match n {
        PlanNode::Window { .. } => Seq::empty(),
        PlanNode::Split { local_id, children, child_focus_order, .. } => seq![
            (local_id, child_focus_order),
        ] + split_orders_all(children),
    }
}

pub open spec fn split_orders_all(s: Seq<PlanNode>) -> Seq<(Seq<char>, Seq<Seq<char>>)>
    decreases s,
{
    if s.len() == 0 {
        Seq::empty()
    } else {
        split_orders_all(s.drop_last()) + split_orders(s.last())
    }
}

fn collect_split_orders(node: &LayoutPlanNode, out: &mut Vec<SplitFocusOrder>)
    ensures
        focus_views(final(out)@) == focus_views(old(out)@) + split_orders(node@),
    decreases node,
{
    let ghost first = out@;
    match node {
        LayoutPlanNode::Window { .. } => {
            assert(focus_views(out@) =~= focus_views(first) + split_orders(node@));
        },
        LayoutPlanNode::Split { local_id, children, child_focus_order, .. } => {
            let entry = SplitFocusOrder {
                local_id: local_id.clone(),
                child_focus_order: text::copy_all(child_focus_order),
            };
            out.push(entry);
            assert(focus_views(out@) =~= focus_views(first) + seq![
                (local_id@, text::views(child_focus_order@)),
            ]);
            assert(decreases_to!(node => node->Split_children));
            collect_all_split_orders(children, out);
            assert(focus_views(out@) =~= focus_views(first) + split_orders(node@));
        },
    }
}

fn collect_all_split_orders(nodes: &Vec<LayoutPlanNode>, out: &mut Vec<SplitFocusOrder>)
    ensures
        focus_views(final(out)@) == focus_views(old(out)@) + split_orders_all(
            layout_snapshot_tree::plan_views(nodes@),
        ),
    decreases nodes,
{
    let ghost all = layout_snapshot_tree::plan_views(nodes@);
    let ghost first = focus_views(out@);
    let mut i: usize = 0;
    proof {
        layout_snapshot_tree::lemma_plan_views(nodes@);
        assert(first =~= first + split_orders_all(all.take(0)));
    }
    while i < nodes.len()
        invariant
            i <= nodes@.len(),
            all == layout_snapshot_tree::plan_views(nodes@),
            all.len() == nodes@.len(),
            forall|k: int| 0 <= k < nodes@.len() ==> #[trigger] all[k] == nodes@[k]@,
            focus_views(out@) == first + split_orders_all(all.take(i as int)),
        decreases nodes@.len() - i,
    {
        proof {
            assert(all.take(i + 1).drop_last() =~= all.take(i as int));
            assert(all.take(i + 1).last() == all[i as int]);
            assert(decreases_to!(nodes => nodes@));
            assert(decreases_to!(nodes@ => nodes@[i as int]));
        }
        collect_split_orders(&nodes[i], out);
        assert(focus_views(out@) =~= first + split_orders_all(all.take(i + 1)));
        i = i + 1;
    }
    assert(all.take(i as int) =~= all);
}

/// The focus orders of all planned splits, each split before those below it.
pub fn split_focus_orders(plan: &WorkspaceLayoutPlan) -> (r: Vec<SplitFocusOrder>)
    ensures
        focus_views(r@) == split_orders_all(plan@.children),
{
    let mut out: Vec<SplitFocusOrder> = Vec::new();
    collect_all_split_orders(&plan.children, &mut out);
    assert(focus_views(out@) =~= split_orders_all(plan@.children));
    out
}

/// The containers for the local ids that have one.
pub open spec fn containers_for(
    local_ids: Seq<Seq<char>>,
    containers: Seq<(Seq<char>, ContainerId)>,
) -> Seq<ContainerId>
    decreases local_ids.len(),
{
    if local_ids.len() == 0 {
        Seq::empty()
    } else {
        let before = containers_for(local_ids.drop_last(), containers);
        match seqs::lookup(containers, local_ids.last()) {
            Some(id) => before.push(id),
            None => before,
        }
    }
}

/// The focus order of a container with the given children: first the children
/// that are wanted in front, in that order, then the others as they stand.
pub open spec fn new_focus_order(
    children: Seq<ContainerId>,
    wanted: Seq<ContainerId>,
) -> Seq<ContainerId> {
    seqs::with_missing(
        seqs::with_missing(
            Seq::empty(),
            wanted.filter(|id: ContainerId| children.contains(id)),
        ),
        children,
    )
}

fn contains_id(ids: &[ContainerId], id: ContainerId) -> (r: bool)
    ensures
        r == ids@.contains(id),
{
    let mut i: usize = 0;
    while i < ids.len()
        invariant
            i <= ids@.len(),
            forall|k: int| 0 <= k < i ==> ids@[k] != id,
        decreases ids@.len() - i,
    {
        if ids[i] == id {
            return true;
        }
        i = i + 1;
    }
    false
}

/// The new focus order of a container with the given children, where
/// `focus_local_ids` names the nodes that come first.
pub fn child_focus_order(
    children: &[ContainerId],
    focus_local_ids: &[String],
    containers: &[LocalContainer],
) -> (r: Vec<ContainerId>)
    ensures
        r@ == new_focus_order(
            children@,
            containers_for(text::views(focus_local_ids@), container_views(containers@)),
        ),
{
    let ghost names = text::views(focus_local_ids@);
    let ghost table = container_views(containers@);
    let ghost inside = |id: ContainerId| children@.contains(id);
    let mut out: Vec<ContainerId> = Vec::new();
    let mut i: usize = 0;
    assert(out@ =~= seqs::with_missing(
        Seq::empty(),
        containers_for(names.take(0), table).filter(inside),
    )) by {
        reveal(Seq::filter);
    }
    while i < focus_local_ids.len()
        invariant
            i <= focus_local_ids@.len(),
            names == text::views(focus_local_ids@),
            table == container_views(containers@),
            inside == (|id: ContainerId| children@.contains(id)),
            out@ == seqs::with_missing(
                Seq::empty(),
                containers_for(names.take(i as int), table).filter(inside),
            ),
        decreases focus_local_ids@.len() - i,
    {
        let ghost before = containers_for(names.take(i as int), table);
        proof {
            assert(names.take(i + 1).drop_last() =~= names.take(i as int));
            assert(names.take(i + 1).last() == focus_local_ids@[i as int]@);
            reveal(Seq::filter);
        }
        match container_for(containers, focus_local_ids[i].as_str()) {
            Some(id) => {
                proof {
                    assert(before.push(id).drop_last() =~= before);
                    if inside(id) {
                        let kept = before.filter(inside);
                        assert(kept.push(id).drop_last() =~= kept);
                    }
                }
                if contains_id(children, id) && !contains_id(&out, id) {
                    out.push(id);
                }
            },
            None => {},
        }
        i = i + 1;
    }
    assert(names.take(i as int) =~= names);
    let ghost front = out@;
    let mut k: usize = 0;
    assert(seqs::with_missing(front, children@.take(0)) == front);
    while k < children.len()
        invariant
            k <= children@.len(),
            out@ == seqs::with_missing(front, children@.take(k as int)),
        decreases children@.len() - k,
    {
        assert(children@.take(k + 1).drop_last() =~= children@.take(k as int));
        assert(children@.take(k + 1).last() == children@[k as int]);
        if !contains_id(&out, children[k]) {
            out.push(children[k]);
        }
        k = k + 1;
    }
    assert(children@.take(k as int) =~= children@);
    out
}

/// The container to focus after a tree was rebuilt: the one for the first local
/// id of the plan's focus order.
pub fn first_focus(plan: &WorkspaceLayoutPlan, containers: &[LocalContainer]) -> (r: Option<
    ContainerId,
>)
    ensures
        r == if plan@.child_focus_order.len() == 0 {
            None
        } else {
            seqs::lookup(container_views(containers@), plan@.child_focus_order[0])
        },
{
    if plan.child_focus_order.len() == 0 {
        None
    } else {
        container_for(containers, plan.child_focus_order[0].as_str())
    }
}

// ---------------------------------------------------------------------------
// Laws
// ---------------------------------------------------------------------------

/// A new focus order is a rearrangement of the children: it names every child,
/// nothing but children, and none twice.
pub proof fn law_focus_order_rearranges_children(
    children: Seq<ContainerId>,
    wanted: Seq<ContainerId>,
)
    ensures
        forall|i: int|
            0 <= i < children.len() ==> new_focus_order(children, wanted).contains(
                #[trigger] children[i],
            ),
        forall|i: int|
            0 <= i < new_focus_order(children, wanted).len() ==> children.contains(
                #[trigger] new_focus_order(children, wanted)[i],
            ),
        new_focus_order(children, wanted).no_duplicates(),
{
    let inside = |id: ContainerId| children.contains(id);
    let kept = wanted.filter(inside);
    let front = seqs::with_missing(Seq::<ContainerId>::empty(), kept);
    seqs::lemma_with_missing(Seq::<ContainerId>::empty(), kept);
    seqs::lemma_with_missing(front, children);
    let order = new_focus_order(children, wanted);
    assert forall|i: int| 0 <= i < order.len() implies children.contains(#[trigger] order[i]) by {
        if i < front.len() {
            assert(front[i] == order.subrange(0, front.len() as int)[i]);
            assert(kept.contains(front[i]));
            seqs::lemma_filter_membership(wanted, inside, front[i]);
        }
    }
}

/// The local ids of a planned node and of everything below it.
pub open spec fn plan_preorder(n: PlanNode) -> Seq<Seq<char>>
    decreases n,
{
    match n {
        PlanNode::Window { local_id, .. } => seq![local_id],
        PlanNode::Split { local_id, children, .. } => seq![local_id] + plan_preorder_all(children),
    }
}

pub open spec fn plan_preorder_all(s: Seq<PlanNode>) -> Seq<Seq<char>>
    decreases s,
{
    if s.len() == 0 {
        Seq::empty()
    } else {
        plan_preorder_all(s.drop_last()) + plan_preorder(s.last())
    }
}

pub open spec fn step_ids(s: Seq<StepModel>) -> Seq<Seq<char>> {
    s.map_values(|x: StepModel| x.local_id)
}

/// Whether all of `ids` are in `left`, and none occurs twice.
spec fn are_available(ids: Seq<Seq<char>>, left: Set<Seq<char>>) -> bool {
    ids.no_duplicates() && forall|i: int| 0 <= i < ids.len() ==> left.contains(#[trigger] ids[i])
}

proof fn lemma_attach_node(n: PlanNode, parent: Option<nat>, index: nat, before: Attaching)
    requires
        before.missing is None,
        are_available(layout_snapshot_tree::plan_windows(n), before.left),
    ensures
        ({
            let after = attach_node(n, parent, index, before);
            &&& after.missing is None
            &&& after.left == before.left.difference(
                layout_snapshot_tree::plan_windows(n).to_set(),
            )
            &&& step_ids(after.steps) == step_ids(before.steps) + plan_preorder(n)
        }),
    decreases n,
{
    let after = attach_node(n, parent, index, before);
    let windows = layout_snapshot_tree::plan_windows(n);
    match n {
        PlanNode::Window { local_id, .. } => {
            assert(windows[0] == local_id);
            assert(before.left.contains(local_id));
            assert(windows.to_set() =~= set![local_id]) by {
                assert forall|x: Seq<char>| windows.to_set().contains(x) <==> x == local_id by {
                    if windows.contains(x) {
                        let i = choose|i: int| 0 <= i < windows.len() && windows[i] == x;
                    }
                    assert(windows.contains(windows[0]));
                }
            }
            assert(after.left =~= before.left.difference(windows.to_set()));
            assert(step_ids(after.steps) =~= step_ids(before.steps) + seq![local_id]);
        },
        PlanNode::Split { local_id, tiling_direction, children, .. } => {
            let opened = Attaching {
                steps: before.steps.push(
                    StepModel {
                        parent,
                        index,
                        local_id,
                        kind: AttachKind::Split(tiling_direction),
                    },
                ),
                left: before.left,
                missing: None,
            };
            lemma_attach_nodes(children, Some(before.steps.len()), opened);
            assert(step_ids(opened.steps) =~= step_ids(before.steps) + seq![local_id]);
            assert(step_ids(after.steps) =~= step_ids(before.steps) + plan_preorder(n));
        },
    }
}

proof fn lemma_attach_nodes(s: Seq<PlanNode>, parent: Option<nat>, start: Attaching)
    requires
        start.missing is None,
        are_available(layout_snapshot_tree::plan_windows_all(s), start.left),
    ensures
        ({
            let after = attach_nodes(s, parent, start);
            &&& after.missing is None
            &&& after.left == start.left.difference(
                layout_snapshot_tree::plan_windows_all(s).to_set(),
            )
            &&& step_ids(after.steps) == step_ids(start.steps) + plan_preorder_all(s)
        }),
    decreases s,
{
    let after = attach_nodes(s, parent, start);
    let windows = layout_snapshot_tree::plan_windows_all(s);
    if s.len() == 0 {
        assert(after.left =~= start.left.difference(windows.to_set()));
        assert(step_ids(after.steps) =~= step_ids(start.steps) + plan_preorder_all(s));
    } else {
        let a = layout_snapshot_tree::plan_windows_all(s.drop_last());
        let b = layout_snapshot_tree::plan_windows(s.last());
        assert(windows == a + b);
        assert forall|i: int| 0 <= i < a.len() implies start.left.contains(#[trigger] a[i]) by {
            assert(windows[i] == a[i]);
        }
        assert(a.no_duplicates()) by {
            assert forall|i: int, j: int| 0 <= i < a.len() && 0 <= j < a.len() && i != j implies a[i]
                != a[j] by {
                assert(windows[i] == a[i] && windows[j] == a[j]);
            }
        }
        lemma_attach_nodes(s.drop_last(), parent, start);
        let before = attach_nodes(s.drop_last(), parent, start);
        assert(b.no_duplicates()) by {
            assert forall|i: int, j: int| 0 <= i < b.len() && 0 <= j < b.len() && i != j implies b[i]
                != b[j] by {
                assert(windows[a.len() + i] == b[i] && windows[a.len() + j] == b[j]);
            }
        }
        assert forall|i: int| 0 <= i < b.len() implies before.left.contains(#[trigger] b[i]) by {
            assert(windows[a.len() + i] == b[i]);
            if a.contains(b[i]) {
                let k = choose|k: int| 0 <= k < a.len() && a[k] == b[i];
                assert(windows[k] == windows[a.len() + i]);
            }
        }
        lemma_attach_node(s.last(), parent, (s.len() - 1) as nat, before);
        assert(windows.to_set() =~= a.to_set().union(b.to_set())) by {
            vstd::seq_lib::seq_to_set_distributes_over_add(a, b);
        }
        assert(after.left =~= start.left.difference(windows.to_set()));
        assert(step_ids(after.steps) =~= step_ids(start.steps) + plan_preorder_all(s));
    }
}

/// If every planned window was detached and none is planned twice, all nodes of
/// the plan are attached, each split before what is below it, and exactly the
/// planned windows are used up.
pub proof fn law_attach_places_every_window(children: Seq<PlanNode>, detached: Set<Seq<char>>)
    requires
        layout_snapshot_tree::plan_windows_all(children).no_duplicates(),
        forall|i: int|
            0 <= i < layout_snapshot_tree::plan_windows_all(children).len() ==> detached.contains(
                #[trigger] layout_snapshot_tree::plan_windows_all(children)[i],
            ),
    ensures
        attaching(children, detached).missing is None,
        attaching(children, detached).left == detached.difference(
            layout_snapshot_tree::plan_windows_all(children).to_set(),
        ),
        step_ids(attaching(children, detached).steps) == plan_preorder_all(children),
{
    let start = Attaching { steps: Seq::empty(), left: detached, missing: None };
    lemma_attach_nodes(children, None, start);
    assert(step_ids(Seq::<StepModel>::empty()) + plan_preorder_all(children)
        =~= plan_preorder_all(children));
}

/// Whether each step has a parent among the steps before it, if it has one, and
/// that parent is a split.
pub open spec fn parents_come_first(steps: Seq<StepModel>) -> bool {
    forall|i: int| 0 <= i < steps.len() ==> #[trigger] parent_comes_first(steps, i)
}

pub open spec fn parent_comes_first(steps: Seq<StepModel>, i: int) -> bool {
    match steps[i].parent {
        Some(p) => p < i && steps[p as int].kind is Split,
        None => true,
    }
}

proof fn lemma_parents_node(n: PlanNode, parent: Option<nat>, index: nat, before: Attaching)
    requires
        parents_come_first(before.steps),
        parent matches Some(p) ==> p < before.steps.len() && before.steps[p as int].kind is Split,
    ensures
        parents_come_first(attach_node(n, parent, index, before).steps),
        before.steps.is_prefix_of(attach_node(n, parent, index, before).steps),
    decreases n,
{
    let after = attach_node(n, parent, index, before);
    match n {
        PlanNode::Window { .. } => {
            assert(before.steps =~= after.steps.subrange(0, before.steps.len() as int));
            assert forall|i: int| 0 <= i < after.steps.len() implies #[trigger] parent_comes_first(
                after.steps,
                i,
            ) by {
                if i < before.steps.len() {
                    assert(parent_comes_first(before.steps, i));
                    assert(after.steps[i] == before.steps[i]);
                }
            }
        },
        PlanNode::Split { local_id, tiling_direction, children, .. } => {
            let opened = Attaching {
                steps: before.steps.push(
                    StepModel {
                        parent,
                        index,
                        local_id,
                        kind: AttachKind::Split(tiling_direction),
                    },
                ),
                left: before.left,
                missing: None,
            };
            assert forall|i: int| 0 <= i < opened.steps.len() implies #[trigger] parent_comes_first(
                opened.steps,
                i,
            ) by {
                if i < before.steps.len() {
                    assert(parent_comes_first(before.steps, i));
                    assert(opened.steps[i] == before.steps[i]);
                }
            }
            lemma_parents_nodes(children, Some(before.steps.len()), opened);
            assert(before.steps =~= after.steps.subrange(0, before.steps.len() as int)) by {
                assert(opened.steps =~= after.steps.subrange(0, opened.steps.len() as int));
                assert forall|i: int| 0 <= i < before.steps.len() implies before.steps[i]
                    == after.steps[i] by {
                    assert(opened.steps[i] == after.steps.subrange(
                        0,
                        opened.steps.len() as int,
                    )[i]);
                }
            }
        },
    }
}

proof fn lemma_parents_nodes(s: Seq<PlanNode>, parent: Option<nat>, start: Attaching)
    requires
        parents_come_first(start.steps),
        parent matches Some(p) ==> p < start.steps.len() && start.steps[p as int].kind is Split,
    ensures
        parents_come_first(attach_nodes(s, parent, start).steps),
        start.steps.is_prefix_of(attach_nodes(s, parent, start).steps),
    decreases s,
{
    let after = attach_nodes(s, parent, start);
    if s.len() == 0 {
        assert(start.steps =~= start.steps.subrange(0, start.steps.len() as int));
    } else {
        let before = attach_nodes(s.drop_last(), parent, start);
        lemma_parents_nodes(s.drop_last(), parent, start);
        if before.missing is None {
            if let Some(p) = parent {
                assert(start.steps[p as int] == before.steps.subrange(
                    0,
                    start.steps.len() as int,
                )[p as int]);
            }
            lemma_parents_node(s.last(), parent, (s.len() - 1) as nat, before);
            assert(start.steps =~= after.steps.subrange(0, start.steps.len() as int)) by {
                assert forall|i: int| 0 <= i < start.steps.len() implies start.steps[i]
                    == after.steps[i] by {
                    assert(start.steps[i] == before.steps.subrange(0, start.steps.len() as int)[i]);
                    assert(before.steps[i] == after.steps.subrange(
                        0,
                        before.steps.len() as int,
                    )[i]);
                }
            }
        }
    }
}

/// A node is attached to the workspace or to a split that an earlier step
/// attached, whatever windows were detached.
pub proof fn law_parents_are_attached_first(children: Seq<PlanNode>, detached: Set<Seq<char>>)
    ensures
        parents_come_first(attaching(children, detached).steps),
{
    lemma_parents_nodes(
        children,
        None,
        Attaching { steps: Seq::empty(), left: detached, missing: None },
    );
}

/// Every window of a workspace's plan has a running window, and all of them were
/// saved on that workspace.
pub proof fn law_planned_windows_are_running(
    w: WorkspaceModel,
    leaves: Seq<PlacedLeaf>,
    pairs: Seq<RestorePair>,
    i: int,
)
    requires
        0 <= i < layout_snapshot_tree::plan_windows_all(
            tiling_restore(w, leaves, pairs).plan.children,
        ).len(),
    ensures
        ({
            let restore = tiling_restore(w, leaves, pairs);
            let id = layout_snapshot_tree::plan_windows_all(restore.plan.children)[i];
            &&& seqs::lookup(restore.windows, id) is Some
            &&& exists|k: int|
                0 <= k < pairs.len() && tiles_on(leaves, #[trigger] pairs[k], w.name)
                    && leaves[pairs[k].leaf as int].local_id == id && pairs[k].live_id
                    == seqs::lookup(restore.windows, id)->0
        }),
{
    let restore = tiling_restore(w, leaves, pairs);
    let windows = restore.windows;
    let ids = matched_ids(windows);
    let all = layout_snapshot::leaves_all(layout_snapshot_tree::children_of(w.root));
    layout_snapshot_tree::law_plan_keeps_matched_tiling_windows(w, ids);
    let keep = |l: layout_snapshot::LeafModel| layout_snapshot_tree::stays(l, ids);
    let id = layout_snapshot_tree::plan_windows_all(restore.plan.children)[i];
    all.lemma_filter_pred(keep, i);
    assert(layout_snapshot_tree::stays(all.filter(keep)[i], ids));
    assert(id == all.filter(keep)[i].local_id);
    assert(ids.contains(id));
    let n = choose|n: int| 0 <= n < ids.len() && ids[n] == id;
    assert(windows[n].0 == id);
    seqs::lemma_lookup(windows, id);
    let live = seqs::lookup(windows, id)->0;
    let m = choose|m: int| 0 <= m < windows.len() && windows[m] == (id, live);
    let on = |p: RestorePair| tiles_on(leaves, p, w.name);
    let kept = pairs.filter(on);
    assert(kept.contains(kept[m]));
    seqs::lemma_filter_membership(pairs, on, kept[m]);
    let k = choose|k: int| 0 <= k < pairs.len() && pairs[k] == kept[m];
    assert(tiles_on(leaves, pairs[k], w.name));
}

/// Each workspace name is planned at most once, and only workspaces with
/// something to tile are planned.
pub proof fn law_each_workspace_is_planned_once(
    list: Seq<ListedWorkspace>,
    leaves: Seq<PlacedLeaf>,
    pairs: Seq<RestorePair>,
)
    ensures
        ({
            let restores = tiling_restores(list, leaves, pairs);
            &&& forall|i: int|
                0 <= i < restores.len() ==> (#[trigger] restores[i]).plan.children.len() > 0
                    && listed_names(list).contains(restores[i].plan.workspace_name)
            &&& forall|i: int, j: int|
                0 <= i < j < restores.len() ==> (#[trigger] restores[i]).plan.workspace_name != (
                #[trigger] restores[j]).plan.workspace_name
        }),
    decreases list.len(),
{
    if list.len() > 0 {
        let rest = list.drop_last();
        law_each_workspace_is_planned_once(rest, leaves, pairs);
        let before = tiling_restores(rest, leaves, pairs);
        let restores = tiling_restores(list, leaves, pairs);
        let last = list.len() - 1;
        let name = list.last().workspace.name;
        assert(listed_names(list)[last] == name);
        assert forall|i: int| 0 <= i < restores.len() implies (
        #[trigger] restores[i]).plan.children.len() > 0 && listed_names(list).contains(
            restores[i].plan.workspace_name,
        ) by {
            if i < before.len() {
                assert(restores[i] == before[i]);
                let k = choose|k: int|
                    0 <= k < rest.len() && listed_names(rest)[k] == before[i].plan.workspace_name;
                assert(listed_names(list)[k] == before[i].plan.workspace_name);
            }
        }
        assert forall|i: int, j: int| 0 <= i < j < restores.len() implies (
        #[trigger] restores[i]).plan.workspace_name != (
        #[trigger] restores[j]).plan.workspace_name by {
            assert(restores[i] == before[i]);
            if j < before.len() {
                assert(restores[j] == before[j]);
            } else {
                assert(listed_names(rest).contains(before[i].plan.workspace_name));
            }
        }
    }
}

/// Every missing window of a workspace is reported, also where nothing is left to
/// tile there; of workspaces with the same name the first counts.
pub proof fn law_missing_windows_are_reported(
    list: Seq<ListedWorkspace>,
    leaves: Seq<PlacedLeaf>,
    pairs: Seq<RestorePair>,
    i: int,
    m: MissingModel,
)
    requires
        0 <= i < list.len(),
        !listed_names(list.take(i)).contains(list[i].workspace.name),
        missing_in(tiling_restore(list[i].workspace, leaves, pairs).plan).contains(m),
    ensures
        missing_windows(list, leaves, pairs).contains(m),
    decreases list.len(),
{
    let rest = list.drop_last();
    let before = missing_windows(rest, leaves, pairs);
    let own = missing_in(tiling_restore(list.last().workspace, leaves, pairs).plan);
    if i < rest.len() {
        assert(rest.take(i) =~= list.take(i));
        law_missing_windows_are_reported(rest, leaves, pairs, i, m);
        let at = choose|k: int| 0 <= k < before.len() && before[k] == m;
        assert((before + own)[at] == m);
    } else {
        assert(list.take(i) =~= rest);
        let at = choose|k: int| 0 <= k < own.len() && own[k] == m;
        assert((before + own)[before.len() + at] == m);
    }
}

/// Whether a planned node is attached by the steps from `at` on: as child number
/// `index` of what step `parent` attached, a window as a window and a split with its
/// direction, and the children of a split in their order below it.
pub open spec fn is_attached(
    steps: Seq<StepModel>,
    n: PlanNode,
    at: int,
    parent: Option<nat>,
    index: nat,
) -> bool
    decreases n, 0nat,
{
    &&& 0 <= at < steps.len()
    &&& steps[at].parent == parent
    &&& steps[at].index == index
    &&& match n {
        PlanNode::Window { local_id, .. } => steps[at].local_id == local_id
            && steps[at].kind is Window,
        PlanNode::Split { local_id, tiling_direction, children, .. } => steps[at].local_id
            == local_id && steps[at].kind == AttachKind::Split(tiling_direction) && are_attached(
            steps,
            children,
            at + 1,
            Some(at as nat),
        ),
    }
}

/// Whether planned siblings are attached one after the other by the steps from `at`
/// on, below what step `parent` attached.
pub open spec fn are_attached(
    steps: Seq<StepModel>,
    s: Seq<PlanNode>,
    at: int,
    parent: Option<nat>,
) -> bool
    decreases s, 0nat,
{
    s.len() == 0 || (are_attached(steps, s.drop_last(), at, parent) && is_attached(
        steps,
        s.last(),
        at + plan_preorder_all(s.drop_last()).len(),
        parent,
        (s.len() - 1) as nat,
    ))
}

proof fn lemma_attached_stays(
    steps: Seq<StepModel>,
    more: Seq<StepModel>,
    n: PlanNode,
    at: int,
    parent: Option<nat>,
    index: nat,
)
    requires
        steps.is_prefix_of(more),
        is_attached(steps, n, at, parent, index),
    ensures
        is_attached(more, n, at, parent, index),
    decreases n, 0nat,
{
    assert(more[at] == steps[at]);
    if let PlanNode::Split { children, .. } = n {
        lemma_all_attached_stay(steps, more, children, at + 1, Some(at as nat));
    }
}

proof fn lemma_all_attached_stay(
    steps: Seq<StepModel>,
    more: Seq<StepModel>,
    s: Seq<PlanNode>,
    at: int,
    parent: Option<nat>,
)
    requires
        steps.is_prefix_of(more),
        are_attached(steps, s, at, parent),
    ensures
        are_attached(more, s, at, parent),
    decreases s, 0nat,
{
    if s.len() > 0 {
        lemma_all_attached_stay(steps, more, s.drop_last(), at, parent);
        lemma_attached_stays(
            steps,
            more,
            s.last(),
            at + plan_preorder_all(s.drop_last()).len(),
            parent,
            (s.len() - 1) as nat,
        );
    }
}

/// Attaching never changes what was attached before.
proof fn lemma_steps_grow(n: PlanNode, parent: Option<nat>, index: nat, before: Attaching)
    ensures
        before.steps.is_prefix_of(attach_node(n, parent, index, before).steps),
    decreases n,
{
    let after = attach_node(n, parent, index, before);
    if let PlanNode::Split { local_id, tiling_direction, children, .. } = n {
        let start = Attaching {
            steps: before.steps.push(
                StepModel { parent, index, local_id, kind: AttachKind::Split(tiling_direction) },
            ),
            left: before.left,
            missing: None,
        };
        lemma_all_steps_grow(children, Some(before.steps.len()), start);
        assert(before.steps.is_prefix_of(start.steps));
    }
}

proof fn lemma_all_steps_grow(s: Seq<PlanNode>, parent: Option<nat>, start: Attaching)
    ensures
        start.steps.is_prefix_of(attach_nodes(s, parent, start).steps),
    decreases s,
{
    if s.len() > 0 {
        let before = attach_nodes(s.drop_last(), parent, start);
        lemma_all_steps_grow(s.drop_last(), parent, start);
        if before.missing is None {
            lemma_steps_grow(s.last(), parent, (s.len() - 1) as nat, before);
        }
    }
}

proof fn lemma_is_attached(n: PlanNode, parent: Option<nat>, index: nat, before: Attaching)
    requires
        before.missing is None,
        attach_node(n, parent, index, before).missing is None,
    ensures
        ({
            let after = attach_node(n, parent, index, before);
            &&& is_attached(after.steps, n, before.steps.len() as int, parent, index)
            &&& after.steps.len() == before.steps.len() + plan_preorder(n).len()
        }),
    decreases n,
{
    let after = attach_node(n, parent, index, before);
    if let PlanNode::Split { local_id, tiling_direction, children, .. } = n {
        let start = Attaching {
            steps: before.steps.push(
                StepModel { parent, index, local_id, kind: AttachKind::Split(tiling_direction) },
            ),
            left: before.left,
            missing: None,
        };
        lemma_are_attached(children, Some(before.steps.len()), start);
        lemma_all_steps_grow(children, Some(before.steps.len()), start);
        assert(after.steps[before.steps.len() as int] == start.steps[before.steps.len() as int]);
    }
}

proof fn lemma_are_attached(s: Seq<PlanNode>, parent: Option<nat>, start: Attaching)
    requires
        start.missing is None,
        attach_nodes(s, parent, start).missing is None,
    ensures
        ({
            let after = attach_nodes(s, parent, start);
            &&& are_attached(after.steps, s, start.steps.len() as int, parent)
            &&& after.steps.len() == start.steps.len() + plan_preorder_all(s).len()
        }),
    decreases s,
{
    if s.len() > 0 {
        let before = attach_nodes(s.drop_last(), parent, start);
        let after = attach_nodes(s, parent, start);
        assert(before.missing is None);
        lemma_are_attached(s.drop_last(), parent, start);
        lemma_is_attached(s.last(), parent, (s.len() - 1) as nat, before);
        lemma_steps_grow(s.last(), parent, (s.len() - 1) as nat, before);
        lemma_all_attached_stay(
            before.steps,
            after.steps,
            s.drop_last(),
            start.steps.len() as int,
            parent,
        );
    }
}

/// Attaching rebuilds the planned tree: where no window is missing, every node is
/// attached below its own parent and at its own position.
pub proof fn law_attach_rebuilds_the_tree(children: Seq<PlanNode>, detached: Set<Seq<char>>)
    requires
        attaching(children, detached).missing is None,
    ensures
        are_attached(attaching(children, detached).steps, children, 0, None),
{
    lemma_are_attached(
        children,
        None,
        Attaching { steps: Seq::empty(), left: detached, missing: None },
    );
}

/// The nodes of a planned tree, each before what is below it.
pub open spec fn plan_nodes(n: PlanNode) -> Seq<PlanNode>
    decreases n,
{
    match n {
        PlanNode::Window { .. } => seq![n],
        PlanNode::Split { children, .. } => seq![n] + plan_nodes_all(children),
    }
}

pub open spec fn plan_nodes_all(s: Seq<PlanNode>) -> Seq<PlanNode>
    decreases s,
{
    if s.len() == 0 {
        Seq::empty()
    } else {
        plan_nodes_all(s.drop_last()) + plan_nodes(s.last())
    }
}

/// Whether some group of sizes names a node with its size.
pub open spec fn is_sized(groups: Seq<Seq<(Seq<char>, TilingSize)>>, n: PlanNode) -> bool {
    exists|g: int, h: int|
        0 <= g < groups.len() && 0 <= h < groups[g].len() && #[trigger] groups[g][h] == match n {
            PlanNode::Window { local_id, tiling_size } => (local_id, tiling_size),
            PlanNode::Split { local_id, tiling_size, .. } => (local_id, tiling_size),
        }
}

proof fn lemma_sized_in_sum(
    a: Seq<Seq<(Seq<char>, TilingSize)>>,
    b: Seq<Seq<(Seq<char>, TilingSize)>>,
    n: PlanNode,
)
    requires
        is_sized(a, n) || is_sized(b, n),
    ensures
        is_sized(a + b, n),
{
    let entry = match n {
        PlanNode::Window { local_id, tiling_size } => (local_id, tiling_size),
        PlanNode::Split { local_id, tiling_size, .. } => (local_id, tiling_size),
    };
    if is_sized(a, n) {
        let (g, h) = choose|g: int, h: int|
            0 <= g < a.len() && 0 <= h < a[g].len() && #[trigger] a[g][h] == entry;
        assert((a + b)[g][h] == entry);
    } else {
        let (g, h) = choose|g: int, h: int|
            0 <= g < b.len() && 0 <= h < b[g].len() && #[trigger] b[g][h] == entry;
        assert((a + b)[a.len() + g][h] == entry);
    }
}

/// Every node of a planned tree is given its own size.
pub proof fn law_every_node_gets_its_size(s: Seq<PlanNode>, k: int)
    requires
        0 <= k < plan_nodes_all(s).len(),
    ensures
        is_sized(sizes_from(s), plan_nodes_all(s)[k]),
    decreases s, 1nat,
{
    lemma_sized_all(s, k);
    let n = plan_nodes_all(s)[k];
    lemma_sized_in_sum(seq![sizes_of(s)], sizes_below_all(s), n);
}

proof fn lemma_sized_all(s: Seq<PlanNode>, k: int)
    requires
        0 <= k < plan_nodes_all(s).len(),
    ensures
        is_sized(seq![sizes_of(s)], plan_nodes_all(s)[k]) || is_sized(
            sizes_below_all(s),
            plan_nodes_all(s)[k],
        ),
    decreases s, 0nat,
{
    let rest = s.drop_last();
    let n = plan_nodes_all(s)[k];
    let m = plan_nodes_all(rest).len() as int;
    if k < m {
        lemma_sized_all(rest, k);
        assert(n == plan_nodes_all(rest)[k]);
        if is_sized(seq![sizes_of(rest)], n) {
            let entry = match n {
                PlanNode::Window { local_id, tiling_size } => (local_id, tiling_size),
                PlanNode::Split { local_id, tiling_size, .. } => (local_id, tiling_size),
            };
            let (g, h) = choose|g: int, h: int|
                0 <= g < seq![sizes_of(rest)].len() && 0 <= h < seq![sizes_of(rest)][g].len()
                    && #[trigger] seq![sizes_of(rest)][g][h] == entry;
            assert(sizes_of(rest)[h] == sizes_of(s)[h]);
            assert(seq![sizes_of(s)][0][h] == entry);
        } else {
            lemma_sized_in_sum(sizes_below_all(rest), sizes_below(s.last()), n);
        }
    } else {
        let last = s.last();
        assert(n == plan_nodes(last)[k - m]);
        if k == m {
            assert(n == last);
            let h = s.len() - 1;
            assert(seq![sizes_of(s)][0][h] == sizes_of(s)[h]);
        } else if let PlanNode::Split { children, .. } = last {
            assert(n == plan_nodes_all(children)[k - m - 1]);
            law_every_node_gets_its_size(children, k - m - 1);
            lemma_sized_in_sum(sizes_below_all(rest), sizes_below(last), n);
        }
    }
}

/// The focus order of every split of a planned tree is listed for that split, and
/// nothing else is listed.
pub proof fn law_every_split_gets_its_focus_order(
    s: Seq<PlanNode>,
    id: Seq<char>,
    order: Seq<Seq<char>>,
)
    ensures
        split_orders_all(s).contains((id, order)) <==> exists|k: int|
            0 <= k < plan_nodes_all(s).len() && is_split_with(
                #[trigger] plan_nodes_all(s)[k],
                id,
                order,
            ),
    decreases s,
{
    if s.len() > 0 {
        let rest = s.drop_last();
        let last = s.last();
        let a = split_orders_all(rest);
        let b = split_orders(last);
        let x = plan_nodes_all(rest);
        let y = plan_nodes(last);
        law_every_split_gets_its_focus_order(rest, id, order);
        lemma_split_orders(last, id, order);
        assert(split_orders_all(s) == a + b);
        assert(plan_nodes_all(s) == x + y);
        if (a + b).contains((id, order)) {
            let n = choose|n: int| 0 <= n < (a + b).len() && (a + b)[n] == (id, order);
            if n < a.len() {
                assert(a[n] == (id, order));
                let k = choose|k: int| 0 <= k < x.len() && is_split_with(#[trigger] x[k], id, order);
                assert(plan_nodes_all(s)[k] == x[k]);
            } else {
                assert(b[n - a.len()] == (id, order));
                let k = choose|k: int| 0 <= k < y.len() && is_split_with(#[trigger] y[k], id, order);
                assert(plan_nodes_all(s)[x.len() + k] == y[k]);
            }
        }
        if exists|k: int|
            0 <= k < plan_nodes_all(s).len() && is_split_with(
                #[trigger] plan_nodes_all(s)[k],
                id,
                order,
            ) {
            let k = choose|k: int|
                0 <= k < plan_nodes_all(s).len() && is_split_with(
                    #[trigger] plan_nodes_all(s)[k],
                    id,
                    order,
                );
            if k < x.len() {
                assert(x[k] == plan_nodes_all(s)[k]);
                let n = choose|n: int| 0 <= n < a.len() && a[n] == (id, order);
                assert((a + b)[n] == (id, order));
            } else {
                assert(y[k - x.len()] == plan_nodes_all(s)[k]);
                let n = choose|n: int| 0 <= n < b.len() && b[n] == (id, order);
                assert((a + b)[a.len() + n] == (id, order));
            }
        }
    }
}

pub open spec fn is_split_with(n: PlanNode, id: Seq<char>, order: Seq<Seq<char>>) -> bool {
    n matches PlanNode::Split { local_id, child_focus_order, .. } && local_id == id
        && child_focus_order == order
}

proof fn lemma_split_orders(n: PlanNode, id: Seq<char>, order: Seq<Seq<char>>)
    ensures
        split_orders(n).contains((id, order)) <==> exists|k: int|
            0 <= k < plan_nodes(n).len() && is_split_with(
                #[trigger] plan_nodes(n)[k],
                id,
                order,
            ),
    decreases n,
{
    match n {
        PlanNode::Window { .. } => {
            assert(plan_nodes(n) =~= seq![n]);
        },
        PlanNode::Split { local_id, children, child_focus_order, .. } => {
            law_every_split_gets_its_focus_order(children, id, order);
            let inner = split_orders_all(children);
            let nodes = plan_nodes_all(children);
            let all = split_orders(n);
            if all.contains((id, order)) {
                let k = choose|k: int| 0 <= k < all.len() && all[k] == (id, order);
                if k == 0 {
                    assert(is_split_with(plan_nodes(n)[0], id, order));
                } else {
                    assert(inner[k - 1] == (id, order));
                    let j = choose|j: int|
                        0 <= j < nodes.len() && is_split_with(#[trigger] nodes[j], id, order);
                    assert(plan_nodes(n)[j + 1] == nodes[j]);
                }
            }
            if exists|k: int|
                0 <= k < plan_nodes(n).len() && is_split_with(
                    #[trigger] plan_nodes(n)[k],
                    id,
                    order,
                ) {
                let k = choose|k: int|
                    0 <= k < plan_nodes(n).len() && is_split_with(
                        #[trigger] plan_nodes(n)[k],
                        id,
                        order,
                    );
                if k == 0 {
                    assert(all[0] == (id, order));
                } else {
                    assert(nodes[k - 1] == plan_nodes(n)[k]);
                    let j = choose|j: int| 0 <= j < inner.len() && inner[j] == (id, order);
                    assert(all[j + 1] == (id, order));
                }
            }
        },
    }
}

/// A matched tiling window is placed by the plan of its own workspace, and by its own
/// running window: the windows of a restore are the matches of that workspace.
pub proof fn law_restore_holds_the_matches_of_its_workspace(
    w: WorkspaceModel,
    leaves: Seq<PlacedLeaf>,
    pairs: Seq<RestorePair>,
    local_id: Seq<char>,
    live: ContainerId,
)
    ensures
        tiling_restore(w, leaves, pairs).windows.contains((local_id, live)) <==> exists|k: int|
            0 <= k < pairs.len() && (#[trigger] pairs[k]).live_id == live
                && leaves[pairs[k].leaf as int].local_id == local_id
                && leaves[pairs[k].leaf as int].workspace_name == w.name
                && leaves[pairs[k].leaf as int].window.state == WindowState::Tiling,
{
    let on = |p: RestorePair| tiles_on(leaves, p, w.name);
    let kept = pairs.filter(on);
    let windows = tiling_restore(w, leaves, pairs).windows;
    if windows.contains((local_id, live)) {
        let n = choose|n: int| 0 <= n < windows.len() && windows[n] == (local_id, live);
        assert(kept.contains(kept[n]));
        seqs::lemma_filter_membership(pairs, on, kept[n]);
        let k = choose|k: int| 0 <= k < pairs.len() && pairs[k] == kept[n];
        assert(pairs[k].live_id == live);
    }
    if exists|k: int|
        0 <= k < pairs.len() && (#[trigger] pairs[k]).live_id == live
            && leaves[pairs[k].leaf as int].local_id == local_id
            && leaves[pairs[k].leaf as int].workspace_name == w.name
            && leaves[pairs[k].leaf as int].window.state == WindowState::Tiling {
        let k = choose|k: int|
            0 <= k < pairs.len() && (#[trigger] pairs[k]).live_id == live
                && leaves[pairs[k].leaf as int].local_id == local_id
                && leaves[pairs[k].leaf as int].workspace_name == w.name
                && leaves[pairs[k].leaf as int].window.state == WindowState::Tiling;
        assert(on(pairs[k]));
        seqs::lemma_filter_membership(pairs, on, pairs[k]);
        let n = choose|n: int| 0 <= n < kept.len() && kept[n] == pairs[k];
        assert(windows[n] == (local_id, live));
    }
}

/// Children that are wanted in front keep the wanted order, and where one is wanted, one
/// of those leads.
pub proof fn law_wanted_children_lead(
    children: Seq<ContainerId>,
    wanted: Seq<ContainerId>,
    i: int,
    j: int,
)
    requires
        wanted.no_duplicates(),
        0 <= i < j < wanted.len(),
        children.contains(wanted[i]),
        children.contains(wanted[j]),
    ensures
        wanted.contains(new_focus_order(children, wanted)[0]),
        exists|p: int, q: int|
            0 <= p < q < new_focus_order(children, wanted).len() && #[trigger] new_focus_order(
                children,
                wanted,
            )[p] == wanted[i] && #[trigger] new_focus_order(children, wanted)[q] == wanted[j],
{
    let inside = |id: ContainerId| children.contains(id);
    let kept = wanted.filter(inside);
    let order = new_focus_order(children, wanted);
    seqs::lemma_filter_no_duplicates(wanted, inside);
    seqs::lemma_with_missing_of_distinct(kept);
    seqs::lemma_with_missing(kept, children);
    let at = seqs::lemma_filter_keeps_order(wanted, inside, i, j);
    assert(kept.is_prefix_of(order));
    assert(order.subrange(0, kept.len() as int) == kept);
    assert(order[at.0] == kept[at.0]);
    assert(order[at.1] == kept[at.1]);
    assert(order[0] == kept[0]);
    assert(kept.contains(kept[0]));
    seqs::lemma_filter_membership(wanted, inside, kept[0]);
}

/// Splits are flattened from the deepest to the shallowest, and all of them are.
pub proof fn law_deepest_splits_are_flattened_first(
    depths: Seq<usize>,
    order: Seq<usize>,
    i: int,
    j: int,
)
    requires
        is_flatten_order(depths, order),
        0 <= i < j < order.len(),
    ensures
        depths[order[i] as int] >= depths[order[j] as int],
        order[i] != order[j],
        order.len() == depths.len(),
{
    assert(flattens_before(depths, order[i] as int, order[j] as int));
}

/// What is reported missing are the windows that were skipped for want of a running one,
/// under the name of their workspace.
pub proof fn law_missing_windows_were_skipped(
    plan: PlanModel,
    id: Seq<char>,
    name: Seq<char>,
    workspace: Seq<char>,
)
    ensures
        missing_in(plan).contains(
            MissingModel { workspace_name: workspace, local_id: id, process_name: name },
        ) <==> workspace == plan.workspace_name && plan.skipped.contains(
            SkippedModel { local_id: id, process_name: name, reason: SkipReason::MissingLiveMatch },
        ),
{
    let keep = |s: SkippedModel| is_missing(s);
    let kept = plan.skipped.filter(keep);
    let out = missing_in(plan);
    let entry = MissingModel { workspace_name: workspace, local_id: id, process_name: name };
    let skip = SkippedModel {
        local_id: id,
        process_name: name,
        reason: SkipReason::MissingLiveMatch,
    };
    seqs::lemma_filter_membership(plan.skipped, keep, skip);
    if out.contains(entry) {
        let n = choose|n: int| 0 <= n < out.len() && out[n] == entry;
        assert(kept.contains(kept[n]));
        seqs::lemma_filter_membership(plan.skipped, keep, kept[n]);
        assert(kept[n] == skip);
    }
    if workspace == plan.workspace_name && plan.skipped.contains(skip) {
        let n = choose|n: int| 0 <= n < kept.len() && kept[n] == skip;
        assert(out[n] == entry);
    }
}

/// The first listed workspace of a name is planned from its own saved tree and the
/// matches on it, if there is anything to tile.
pub proof fn law_workspaces_are_planned_from_their_own_tree(
    list: Seq<ListedWorkspace>,
    leaves: Seq<PlacedLeaf>,
    pairs: Seq<RestorePair>,
    i: int,
)
    requires
        0 <= i < list.len(),
        forall|j: int|
            0 <= j < i ==> (#[trigger] list[j]).workspace.name != list[i].workspace.name,
        tiling_restore(list[i].workspace, leaves, pairs).plan.children.len() > 0,
    ensures
        tiling_restores(list, leaves, pairs).contains(
            tiling_restore(list[i].workspace, leaves, pairs),
        ),
    decreases list.len(),
{
    let rest = list.drop_last();
    let before = tiling_restores(rest, leaves, pairs);
    let all = tiling_restores(list, leaves, pairs);
    let own = tiling_restore(list[i].workspace, leaves, pairs);
    if i < rest.len() {
        assert forall|j: int| 0 <= j < i implies (#[trigger] rest[j]).workspace.name
            != rest[i].workspace.name by {
            assert(list[j].workspace.name != list[i].workspace.name);
        }
        law_workspaces_are_planned_from_their_own_tree(rest, leaves, pairs, i);
        let n = choose|n: int| 0 <= n < before.len() && before[n] == own;
        assert(all[n] == own);
    } else {
        assert(!listed_names(rest).contains(list[i].workspace.name)) by {
            if listed_names(rest).contains(list[i].workspace.name) {
                let j = choose|j: int|
                    0 <= j < rest.len() && listed_names(rest)[j] == list[i].workspace.name;
                assert(list[j].workspace.name != list[i].workspace.name);
            }
        }
        assert(all[before.len() as int] == own);
    }
}

/// Local ids are translated one by one, in order; those without a container drop out.
pub proof fn law_local_ids_become_containers(
    local_ids: Seq<Seq<char>>,
    containers: Seq<(Seq<char>, ContainerId)>,
    of: Seq<ContainerId>,
)
    requires
        of.len() == local_ids.len(),
        forall|i: int, j: int|
            0 <= i < j < containers.len() ==> (#[trigger] containers[i]).0 != (
            #[trigger] containers[j]).0,
        forall|i: int|
            0 <= i < local_ids.len() ==> containers.contains((#[trigger] local_ids[i], of[i])),
    ensures
        containers_for(local_ids, containers) == of,
    decreases local_ids.len(),
{
    if local_ids.len() > 0 {
        let rest = local_ids.drop_last();
        let last = local_ids.len() - 1;
        assert forall|i: int| 0 <= i < rest.len() implies containers.contains(
            (#[trigger] rest[i], of.drop_last()[i]),
        ) by {
            assert(containers.contains((local_ids[i], of[i])));
        }
        law_local_ids_become_containers(rest, containers, of.drop_last());
        assert(containers.contains((local_ids[last], of[last])));
        let n = choose|n: int|
            0 <= n < containers.len() && containers[n] == (local_ids[last], of[last]);
        seqs::lemma_lookup(containers, local_ids[last]);
        let found = seqs::lookup(containers, local_ids[last]);
        assert(found is Some) by {
            if found is None {
                assert(containers[n].0 != local_ids[last]);
            }
        }
        let m = choose|m: int|
            0 <= m < containers.len() && containers[m] == (local_ids[last], found->0);
        if m < n {
            assert(containers[m].0 != containers[n].0);
        }
        if n < m {
            assert(containers[n].0 != containers[m].0);
        }
        assert(containers_for(local_ids, containers) =~= of);
    } else {
        assert(containers_for(local_ids, containers) =~= of);
    }
}

} // verus!
