//! What a restore does, decided from the snapshot and the desktop.
//!
//! A restore is best effort. It launches no application and leaves ignored
//! windows alone. It pairs saved windows with running ones, brings workspaces to
//! their monitors, windows to their workspaces and states, and then rebuilds the
//! tiling trees. This module decides all of that before anything is touched; the
//! steps for a single window and for a tiling tree are in [`crate::restore_window`]
//! and [`crate::restore_tiling`].
use crate::container_id;
use crate::dto::{ContainerId, Rect};
use crate::layout_snapshot;
use crate::layout_snapshot::{LayoutSnapshot, MonitorModel, SnapshotModel, SnapshotMonitor};
use crate::layout_snapshot::WorkspaceModel;
use crate::layout_snapshot_matcher;
use crate::layout_snapshot_matcher::{IndexPair, LayoutMatchReport, LayoutMatchWindow};
use crate::layout_snapshot_matcher::{MatchIdentityModel, MatchWindowModel, MatchableIdentity};
use crate::layout_snapshot_matcher::{MatchableModel, MatchableWindow};
use crate::monitor_match;
use crate::monitor_match::{LiveMonitor, MonitorPair};
use crate::restore_tiling;
use crate::restore_tiling::{MissingWindow, TilingRestore};
use crate::restore_window;
use crate::restore_window::{RestoreAction, RestorePhase, WindowOnDesktop};
use crate::seqs;
use crate::snapshot_leaves;
use crate::snapshot_leaves::{PlacedLeaf, SnapshotLeaf};
use crate::text;
use vstd::prelude::*;
use vstd::string::StringExecFns;

verus! {

// ---------------------------------------------------------------------------
// Running windows
// ---------------------------------------------------------------------------

/// A managed window as the desktop reports it. A class name or title that the
/// window does not have is empty.
#[derive(Debug, PartialEq, Eq)]
pub struct LiveWindow {
    pub id: ContainerId,
    pub process_path: Option<String>,
    pub process_name: String,
    pub class_name: String,
    pub title: String,
    /// Name of the workspace that the window is on.
    pub workspace: Option<String>,
}

/// A text that counts only if it is not empty.
pub open spec fn non_empty(s: Seq<char>) -> Option<Seq<char>> {
    if s.len() == 0 {
        None
    } else {
        Some(s)
    }
}

/// What a running window is recognised by.
pub open spec fn running_identity(w: LiveWindow) -> MatchIdentityModel {
    MatchIdentityModel {
        process_path: text::opt_view(w.process_path),
        process_name: w.process_name@,
        class_name: non_empty(w.class_name@),
        title: non_empty(w.title@),
    }
}

/// A running window to be matched; its key is the text of its id.
pub open spec fn running_matchable(w: LiveWindow) -> MatchableModel {
    MatchableModel { key: container_id::id_text(w.id), identity: running_identity(w) }
}

pub open spec fn running_matchables(s: Seq<LiveWindow>) -> Seq<MatchableModel> {
    s.map_values(|w: LiveWindow| running_matchable(w))
}

/// A running window in a report.
pub open spec fn running_match_window(w: LiveWindow) -> MatchWindowModel {
    MatchWindowModel {
        key: container_id::id_text(w.id),
        identity: running_identity(w),
        workspace: text::opt_view(w.workspace),
    }
}

fn some_if_not_empty(s: &String) -> (r: Option<String>)
    ensures
        text::opt_view(r) == non_empty(s@),
{
    if s.as_str().is_empty() {
        None
    } else {
        Some(s.clone())
    }
}

/// What a running window is recognised by.
pub fn live_identity(window: &LiveWindow) -> (r: MatchableIdentity)
    ensures
        r@ == running_identity(*window),
{
    MatchableIdentity {
        process_path: text::copy_opt(&window.process_path),
        process_name: window.process_name.clone(),
        class_name: some_if_not_empty(&window.class_name),
        title: some_if_not_empty(&window.title),
    }
}

/// A running window in a report.
pub fn live_match_window(window: &LiveWindow) -> (r: LayoutMatchWindow)
    ensures
        r@ == running_match_window(*window),
{
    let identity = live_identity(window);
    LayoutMatchWindow {
        key: container_id::id_to_text(window.id),
        process_name: identity.process_name,
        process_path: identity.process_path,
        class_name: identity.class_name,
        title: identity.title,
        workspace: text::copy_opt(&window.workspace),
    }
}

fn live_matchables(windows: &[LiveWindow]) -> (r: Vec<MatchableWindow>)
    ensures
        layout_snapshot_matcher::matchable_views(r@) == running_matchables(windows@),
        forall|i: int|
            0 <= i < windows@.len() ==> container_id::id_of_text(
                container_id::id_text((#[trigger] windows@[i]).id),
            ) == Some(windows@[i].id),
{
    let ghost all = running_matchables(windows@);
    let mut out: Vec<MatchableWindow> = Vec::new();
    let mut i: usize = 0;
    while i < windows.len()
        invariant
            i <= windows@.len(),
            all == running_matchables(windows@),
            layout_snapshot_matcher::matchable_views(out@) == all.take(i as int),
            forall|k: int|
                0 <= k < i ==> container_id::id_of_text(
                    container_id::id_text((#[trigger] windows@[k]).id),
                ) == Some(windows@[k].id),
        decreases windows@.len() - i,
    {
        let w = MatchableWindow {
            key: container_id::id_to_text(windows[i].id),
            identity: live_identity(&windows[i]),
        };
        let ghost before = out@;
        out.push(w);
        assert(layout_snapshot_matcher::matchable_views(out@)
            =~= layout_snapshot_matcher::matchable_views(before).push(w@));
        i = i + 1;
        assert(layout_snapshot_matcher::matchable_views(out@) =~= all.take(i as int));
    }
    assert(all.take(i as int) =~= all);
    out
}

// ---------------------------------------------------------------------------
// Dry runs
// ---------------------------------------------------------------------------

/// Matches a snapshot against the running windows without changing anything.
/// Refuses a snapshot of another version.
pub fn inspect_layout_snapshot(
    snapshot: &LayoutSnapshot,
    windows: &[LiveWindow],
) -> (r: Result<LayoutMatchReport, String>)
    ensures
        match r {
            Ok(report) => snapshot.version == layout_snapshot::LAYOUT_SNAPSHOT_VERSION && report@
                == layout_snapshot_matcher::match_report(
                layout_snapshot_matcher::snapshot_match_windows(snapshot@),
                windows@.map_values(|w: LiveWindow| running_match_window(w)),
            ),
            Err(message) => snapshot.version != layout_snapshot::LAYOUT_SNAPSHOT_VERSION && message@
                == layout_snapshot::unsupported_version_message(snapshot.version),
        },
{
    match layout_snapshot::validate_layout_snapshot_version(snapshot) {
        Ok(()) => {},
        Err(message) => {
            return Err(message);
        },
    }
    let saved = layout_snapshot_matcher::collect_snapshot_windows_for_match(snapshot);
    let ghost all = windows@.map_values(|w: LiveWindow| running_match_window(w));
    let mut running: Vec<LayoutMatchWindow> = Vec::new();
    let mut i: usize = 0;
    while i < windows.len()
        invariant
            i <= windows@.len(),
            all == windows@.map_values(|w: LiveWindow| running_match_window(w)),
            layout_snapshot_matcher::match_window_views(running@) == all.take(i as int),
        decreases windows@.len() - i,
    {
        let w = live_match_window(&windows[i]);
        let ghost before = running@;
        running.push(w);
        assert(layout_snapshot_matcher::match_window_views(running@)
            =~= layout_snapshot_matcher::match_window_views(before).push(w@));
        i = i + 1;
        assert(layout_snapshot_matcher::match_window_views(running@) =~= all.take(i as int));
    }
    assert(all.take(i as int) =~= all);
    Ok(layout_snapshot_matcher::build_layout_match_report(&saved, &running))
}

// ---------------------------------------------------------------------------
// Saved windows
// ---------------------------------------------------------------------------

/// The monitors of a snapshot in the order in which their windows are taken:
/// matched monitors first, then all of them.
pub open spec fn restore_monitor_order(pairs: Seq<MonitorPair>, count: nat) -> Seq<usize> {
    pairs.map_values(|p: MonitorPair| p.0 as usize) + snapshot_leaves::all_indices(count)
}

/// The saved windows that a restore looks at. Windows of monitors without a
/// match are included.
pub open spec fn restore_leaves(
    monitors: Seq<MonitorModel>,
    pairs: Seq<MonitorPair>,
) -> Seq<PlacedLeaf> {
    snapshot_leaves::collected_leaves(
        snapshot_leaves::listed_workspaces(
            monitors,
            restore_monitor_order(pairs, monitors.len()),
        ),
    )
}

fn monitor_order(pairs: &[(usize, usize)], count: usize) -> (r: Vec<usize>)
    ensures
        r@ == restore_monitor_order(monitor_match::index_views(pairs@), count as nat),
{
    let ghost firsts = monitor_match::index_views(pairs@).map_values(
        |p: MonitorPair| p.0 as usize,
    );
    let mut out: Vec<usize> = Vec::new();
    let mut i: usize = 0;
    while i < pairs.len()
        invariant
            i <= pairs@.len(),
            firsts == monitor_match::index_views(pairs@).map_values(
                |p: MonitorPair| p.0 as usize,
            ),
            out@ == firsts.take(i as int),
        decreases pairs@.len() - i,
    {
        out.push(pairs[i].0);
        i = i + 1;
        assert(out@ =~= firsts.take(i as int));
    }
    assert(firsts.take(i as int) =~= firsts);
    let mut rest = snapshot_leaves::indices_below(count);
    out.append(&mut rest);
    assert(out@ =~= restore_monitor_order(monitor_match::index_views(pairs@), count as nat));
    out
}

/// The saved windows that a restore looks at.
pub fn collect_snapshot_leaves(
    monitors: &[SnapshotMonitor],
    pairs: &[(usize, usize)],
) -> (r: Vec<SnapshotLeaf>)
    requires
        forall|i: int| 0 <= i < pairs@.len() ==> (#[trigger] pairs@[i]).0 < monitors@.len(),
    ensures
        snapshot_leaves::leaf_views(r@) == restore_leaves(
            layout_snapshot::monitor_views(monitors@),
            monitor_match::index_views(pairs@),
        ),
{
    let order = monitor_order(pairs, monitors.len());
    proof {
        assert forall|i: int| 0 <= i < order@.len() implies #[trigger] order@[i]
            < monitors@.len() by {
            if i < pairs@.len() {
                assert(order@[i] == pairs@[i].0);
            } else {
                assert(order@[i] == i - pairs@.len());
            }
        }
        assert(layout_snapshot::monitor_views(monitors@).len() == monitors@.len());
    }
    snapshot_leaves::collect_leaves(monitors, &order)
}

/// A saved window to be matched.
pub open spec fn leaf_matchable(l: PlacedLeaf) -> MatchableModel {
    MatchableModel {
        key: l.key,
        identity: layout_snapshot_matcher::matchable_identity(l.window.identity),
    }
}

pub open spec fn leaf_matchables(s: Seq<PlacedLeaf>) -> Seq<MatchableModel> {
    s.map_values(|l: PlacedLeaf| leaf_matchable(l))
}

fn snap_matchables(leaves: &[SnapshotLeaf]) -> (r: Vec<MatchableWindow>)
    ensures
        layout_snapshot_matcher::matchable_views(r@) == leaf_matchables(
            snapshot_leaves::leaf_views(leaves@),
        ),
{
    let ghost all = leaf_matchables(snapshot_leaves::leaf_views(leaves@));
    let mut out: Vec<MatchableWindow> = Vec::new();
    let mut i: usize = 0;
    while i < leaves.len()
        invariant
            i <= leaves@.len(),
            all == leaf_matchables(snapshot_leaves::leaf_views(leaves@)),
            layout_snapshot_matcher::matchable_views(out@) == all.take(i as int),
        decreases leaves@.len() - i,
    {
        let w = MatchableWindow {
            key: leaves[i].key.clone(),
            identity: MatchableIdentity::from_window(&leaves[i].window),
        };
        let ghost before = out@;
        out.push(w);
        assert(w@ =~= leaf_matchable(leaves@[i as int]@));
        assert(layout_snapshot_matcher::matchable_views(out@)
            =~= layout_snapshot_matcher::matchable_views(before).push(w@));
        i = i + 1;
        assert(layout_snapshot_matcher::matchable_views(out@) =~= all.take(i as int));
    }
    assert(all.take(i as int) =~= all);
    out
}

/// The last saved window with the given key.
pub open spec fn leaf_with_key(leaves: Seq<PlacedLeaf>, key: Seq<char>) -> int
    decreases leaves.len(),
{
    if leaves.len() == 0 || leaves.last().key == key {
        leaves.len() - 1
    } else {
        leaf_with_key(leaves.drop_last(), key)
    }
}

/// The last saved window with the given key, which one of them has.
fn find_leaf(leaves: &[SnapshotLeaf], key: &str) -> (r: usize)
    requires
        exists|i: int| 0 <= i < leaves@.len() && (#[trigger] leaves@[i]).key@ == key@,
    ensures
        r < leaves@.len(),
        r == leaf_with_key(snapshot_leaves::leaf_views(leaves@), key@),
        leaves@[r as int].key@ == key@,
{
    let ghost all = snapshot_leaves::leaf_views(leaves@);
    let mut n: usize = leaves.len();
    assert(all.take(n as int) =~= all);
    while !text::same_text(leaves[n - 1].key.as_str(), key)
        invariant
            0 < n <= leaves@.len(),
            all == snapshot_leaves::leaf_views(leaves@),
            exists|i: int| 0 <= i < n && (#[trigger] leaves@[i]).key@ == key@,
            leaf_with_key(all, key@) == leaf_with_key(all.take(n as int), key@),
        decreases n,
    {
        assert(all.take(n as int).last() == leaves@[n - 1]@);
        assert(all.take(n as int).drop_last() =~= all.take(n - 1));
        n = n - 1;
    }
    assert(all.take(n as int).last() == leaves@[n - 1]@);
    n - 1
}

// ---------------------------------------------------------------------------
// Pairs in the order of restoring
// ---------------------------------------------------------------------------

/// Where a saved window goes: by workspace name and then by position.
#[verifier::ext_equal]
pub struct RestoreRank {
    pub workspace_name: Seq<char>,
    pub order_index: nat,
}

pub open spec fn rank_of(leaf: PlacedLeaf) -> RestoreRank {
    RestoreRank { workspace_name: leaf.workspace_name, order_index: leaf.order_index }
}

pub open spec fn ranks_below(a: RestoreRank, b: RestoreRank) -> bool {
    text::sorts_before(a.workspace_name, b.workspace_name) || (a.workspace_name == b.workspace_name
        && a.order_index < b.order_index)
}

/// Whether item `i` goes before item `j`: by rank, and in the given order where
/// ranks are equal.
pub open spec fn goes_before(ranks: Seq<RestoreRank>, i: int, j: int) -> bool {
    ranks_below(ranks[i], ranks[j]) || (!ranks_below(ranks[j], ranks[i]) && i < j)
}

/// Whether `order` lists all items by rank.
pub open spec fn is_rank_order(ranks: Seq<RestoreRank>, order: Seq<usize>) -> bool {
    &&& order.len() == ranks.len()
    &&& forall|i: int| 0 <= i < order.len() ==> #[trigger] order[i] < ranks.len()
    &&& forall|i: int, j: int|
        0 <= i < j < order.len() ==> goes_before(
            ranks,
            #[trigger] order[i] as int,
            #[trigger] order[j] as int,
        )
}

proof fn lemma_ranks_total(a: RestoreRank, b: RestoreRank)
    ensures
        a == b || ranks_below(a, b) || ranks_below(b, a),
        ranks_below(a, b) ==> !ranks_below(b, a),
{
    text::law_text_order_is_total(a.workspace_name, b.workspace_name);
    text::law_text_order_is_total(b.workspace_name, a.workspace_name);
}

proof fn lemma_ranks_transitive(a: RestoreRank, b: RestoreRank, c: RestoreRank)
    requires
        ranks_below(a, b),
        ranks_below(b, c),
    ensures
        ranks_below(a, c),
{
    if text::sorts_before(a.workspace_name, b.workspace_name) && text::sorts_before(
        b.workspace_name,
        c.workspace_name,
    ) {
        text::law_text_order_is_transitive(a.workspace_name, b.workspace_name, c.workspace_name);
    }
}

proof fn lemma_goes_before_transitive(ranks: Seq<RestoreRank>, i: int, j: int, k: int)
    requires
        goes_before(ranks, i, j),
        goes_before(ranks, j, k),
    ensures
        goes_before(ranks, i, k),
{
    lemma_ranks_total(ranks[i], ranks[j]);
    lemma_ranks_total(ranks[j], ranks[k]);
    lemma_ranks_total(ranks[i], ranks[k]);
    lemma_ranks_total(ranks[k], ranks[i]);
    if ranks_below(ranks[i], ranks[j]) && ranks_below(ranks[j], ranks[k]) {
        lemma_ranks_transitive(ranks[i], ranks[j], ranks[k]);
    }
}

proof fn lemma_goes_before_total(ranks: Seq<RestoreRank>, i: int, j: int)
    requires
        i != j,
    ensures
        goes_before(ranks, i, j) || goes_before(ranks, j, i),
        !(goes_before(ranks, i, j) && goes_before(ranks, j, i)),
{
    lemma_ranks_total(ranks[i], ranks[j]);
    lemma_ranks_total(ranks[j], ranks[i]);
}

/// There is only one order by rank.
pub proof fn law_rank_order_is_unique(ranks: Seq<RestoreRank>, a: Seq<usize>, b: Seq<usize>)
    requires
        is_rank_order(ranks, a),
        is_rank_order(ranks, b),
    ensures
        a == b,
{
    lemma_same_order(ranks, a, b, 0);
}

proof fn lemma_order_is_onto(ranks: Seq<RestoreRank>, order: Seq<usize>, x: usize) -> (at: int)
    requires
        is_rank_order(ranks, order),
        x < ranks.len(),
    ensures
        0 <= at < order.len(),
        order[at] == x,
{
    let n = ranks.len();
    if forall|i: int| 0 <= i < order.len() ==> order[i] != x {
        assert(order.no_duplicates()) by {
            assert forall|i: int, j: int|
                0 <= i < order.len() && 0 <= j < order.len() && i != j implies order[i]
                != order[j] by {
                let (p, q) = if i < j {
                    (i, j)
                } else {
                    (j, i)
                };
                assert(goes_before(ranks, order[p] as int, order[q] as int));
                lemma_ranks_total(ranks[order[p] as int], ranks[order[q] as int]);
                lemma_ranks_total(ranks[order[q] as int], ranks[order[p] as int]);
            }
        }
        let all = vstd::set_lib::set_int_range(0, n as int);
        let ints = order.map_values(|u: usize| u as int);
        assert(ints.no_duplicates()) by {
            assert forall|i: int, j: int|
                0 <= i < ints.len() && 0 <= j < ints.len() && i != j implies ints[i]
                != ints[j] by {
                assert(order[i] != order[j]);
            }
        }
        ints.unique_seq_to_set();
        vstd::set_lib::lemma_int_range(0, n as int);
        let smaller = all.remove(x as int);
        assert forall|y: int| ints.to_set().contains(y) implies smaller.contains(y) by {
            let i = choose|i: int| 0 <= i < ints.len() && ints[i] == y;
            assert(order[i] < ranks.len());
            assert(order[i] != x);
        }
        assert(ints.to_set().subset_of(smaller));
        vstd::set_lib::lemma_len_subset(ints.to_set(), smaller);
        assert(false);
    }
    choose|at: int| 0 <= at < order.len() && order[at] == x
}

proof fn lemma_same_order(ranks: Seq<RestoreRank>, a: Seq<usize>, b: Seq<usize>, k: int)
    requires
        is_rank_order(ranks, a),
        is_rank_order(ranks, b),
        0 <= k <= a.len(),
        forall|i: int| 0 <= i < k ==> a[i] == b[i],
    ensures
        a == b,
    decreases a.len() - k,
{
    if k < a.len() {
        let at = lemma_order_is_onto(ranks, b, a[k]);
        let back = lemma_order_is_onto(ranks, a, b[k]);
        if a[k] != b[k] {
            if at < k {
                assert(a[at] == a[k]);
                assert(goes_before(ranks, a[at] as int, a[k] as int));
                lemma_ranks_total(ranks[a[k] as int], ranks[a[k] as int]);
            }
            if back < k {
                assert(b[back] == b[k]);
                assert(goes_before(ranks, b[back] as int, b[k] as int));
                lemma_ranks_total(ranks[b[k] as int], ranks[b[k] as int]);
            }
            assert(goes_before(ranks, b[k] as int, b[at] as int));
            assert(goes_before(ranks, a[k] as int, a[back] as int));
            lemma_goes_before_total(ranks, a[k] as int, b[k] as int);
        }
        lemma_same_order(ranks, a, b, k + 1);
    } else {
        assert(a =~= b);
    }
}

/// A rank in executable form.
#[derive(Debug, PartialEq, Eq)]
struct Rank {
    workspace_name: String,
    order_index: usize,
}

impl Rank {
    spec fn model(self) -> RestoreRank {
        RestoreRank {
            workspace_name: self.workspace_name@,
            order_index: self.order_index as nat,
        }
    }

    fn is_below(&self, other: &Rank) -> (r: bool)
        ensures
            r == ranks_below(self.model(), other.model()),
    {
        if text::text_sorts_before(self.workspace_name.as_str(), other.workspace_name.as_str()) {
            true
        } else {
            text::same_text(self.workspace_name.as_str(), other.workspace_name.as_str())
                && self.order_index < other.order_index
        }
    }
}

spec fn rank_models(s: Seq<Rank>) -> Seq<RestoreRank> {
    s.map_values(|r: Rank| r.model())
}

/// Sorts items by rank; equal ranks keep their order.
fn order_by_rank(ranks: &Vec<Rank>) -> (r: Vec<usize>)
    ensures
        is_rank_order(rank_models(ranks@), r@),
{
    let ghost models = rank_models(ranks@);
    let mut out: Vec<usize> = Vec::new();
    let mut k: usize = 0;
    while k < ranks.len()
        invariant
            k <= ranks@.len(),
            models == rank_models(ranks@),
            out@.len() == k,
            forall|i: int| 0 <= i < out@.len() ==> #[trigger] out@[i] < k,
            forall|i: int, j: int|
                0 <= i < j < out@.len() ==> goes_before(
                    models,
                    #[trigger] out@[i] as int,
                    #[trigger] out@[j] as int,
                ),
        decreases ranks@.len() - k,
    {
        let mut pos: usize = out.len();
        while pos > 0 && ranks[k].is_below(&ranks[out[pos - 1]])
            invariant
                pos <= out@.len(),
                k < ranks@.len(),
                models == rank_models(ranks@),
                forall|i: int| 0 <= i < out@.len() ==> #[trigger] out@[i] < k,
                forall|i: int|
                    pos <= i < out@.len() ==> goes_before(
                        models,
                        k as int,
                        #[trigger] out@[i] as int,
                    ),
            decreases pos,
        {
            assert(models[k as int] == ranks@[k as int].model());
            assert(models[out@[pos - 1] as int] == ranks@[out@[pos - 1] as int].model());
            pos = pos - 1;
        }
        let ghost before = out@;
        proof {
            if pos > 0 {
                let last = before[pos - 1] as int;
                assert(models[k as int] == ranks@[k as int].model());
                assert(models[last] == ranks@[last].model());
                assert(goes_before(models, last, k as int));
                assert forall|i: int| 0 <= i < pos implies goes_before(
                    models,
                    #[trigger] before[i] as int,
                    k as int,
                ) by {
                    if i < pos - 1 {
                        assert(goes_before(models, before[i] as int, before[pos - 1] as int));
                        lemma_goes_before_transitive(models, before[i] as int, last, k as int);
                    }
                }
            }
        }
        out.insert(pos, k);
        proof {
            assert forall|i: int, j: int| 0 <= i < j < out@.len() implies goes_before(
                models,
                #[trigger] out@[i] as int,
                #[trigger] out@[j] as int,
            ) by {
                let bi = if i < pos {
                    i
                } else {
                    i - 1
                };
                let bj = if j < pos {
                    j
                } else {
                    j - 1
                };
                if i == pos as int {
                    assert(out@[j] == before[bj]);
                } else if j == pos as int {
                    assert(out@[i] == before[bi]);
                } else {
                    assert(out@[i] == before[bi]);
                    assert(out@[j] == before[bj]);
                }
            }
            assert forall|i: int| 0 <= i < out@.len() implies #[trigger] out@[i] < k + 1 by {
                if i < pos {
                    assert(out@[i] == before[i]);
                } else if i > pos {
                    assert(out@[i] == before[i - 1]);
                }
            }
        }
        k = k + 1;
    }
    out
}

/// The items by rank.
pub open spec fn rank_order(ranks: Seq<RestoreRank>) -> Seq<usize> {
    choose|order: Seq<usize>| is_rank_order(ranks, order)
}

proof fn lemma_rank_position(ranks: Seq<RestoreRank>, order: Seq<usize>, item: usize, pos: int) -> (at:
    int)
    requires
        forall|i: int| 0 <= i < order.len() ==> #[trigger] order[i] < item,
        forall|i: int, j: int|
            0 <= i < j < order.len() ==> goes_before(
                ranks,
                #[trigger] order[i] as int,
                #[trigger] order[j] as int,
            ),
        0 <= pos <= order.len(),
        forall|i: int|
            pos <= i < order.len() ==> goes_before(ranks, item as int, #[trigger] order[i] as int),
    ensures
        0 <= at <= order.len(),
        forall|i: int|
            0 <= i < at ==> goes_before(ranks, #[trigger] order[i] as int, item as int),
        forall|i: int|
            at <= i < order.len() ==> goes_before(ranks, item as int, #[trigger] order[i] as int),
    decreases pos,
{
    if pos == 0 {
        0
    } else {
        let last = order[pos - 1] as int;
        lemma_goes_before_total(ranks, last, item as int);
        if goes_before(ranks, item as int, last) {
            lemma_rank_position(ranks, order, item, pos - 1)
        } else {
            assert forall|i: int| 0 <= i < pos implies goes_before(
                ranks,
                #[trigger] order[i] as int,
                item as int,
            ) by {
                if i < pos - 1 {
                    assert(goes_before(ranks, order[i] as int, order[pos - 1] as int));
                    lemma_goes_before_transitive(ranks, order[i] as int, last, item as int);
                }
            }
            pos
        }
    }
}

proof fn lemma_rank_order_of_prefix(ranks: Seq<RestoreRank>, k: usize) -> (order: Seq<usize>)
    requires
        k <= ranks.len(),
    ensures
        order.len() == k,
        forall|i: int| 0 <= i < order.len() ==> #[trigger] order[i] < k,
        forall|i: int, j: int|
            0 <= i < j < order.len() ==> goes_before(
                ranks,
                #[trigger] order[i] as int,
                #[trigger] order[j] as int,
            ),
    decreases k,
{
    if k == 0 {
        Seq::empty()
    } else {
        let item = (k - 1) as usize;
        let before = lemma_rank_order_of_prefix(ranks, item);
        let pos = lemma_rank_position(ranks, before, item, before.len() as int);
        let order = before.insert(pos, item);
        assert forall|i: int| 0 <= i < order.len() implies order[i] == (if i < pos {
            before[i]
        } else if i == pos {
            item
        } else {
            before[i - 1]
        }) by {
            before.insert_ensures(pos, item);
        }
        assert(order.len() == k) by {
            before.insert_ensures(pos, item);
        }
        assert forall|i: int, j: int| 0 <= i < j < order.len() implies goes_before(
            ranks,
            #[trigger] order[i] as int,
            #[trigger] order[j] as int,
        ) by {
            if i == pos {
                assert(order[j] == before[j - 1]);
            } else if j == pos {
                assert(order[i] == before[i]);
            } else {
                let bi = if i < pos {
                    i
                } else {
                    i - 1
                };
                let bj = if j < pos {
                    j
                } else {
                    j - 1
                };
                assert(order[i] == before[bi]);
                assert(order[j] == before[bj]);
            }
        }
        assert forall|i: int| 0 <= i < order.len() implies #[trigger] order[i] < k by {
            if i < pos {
                assert(order[i] == before[i]);
            } else if i > pos {
                assert(order[i] == before[i - 1]);
            }
        }
        order
    }
}

/// Any list of ranks of addressable length has an order.
pub proof fn law_rank_order_exists(ranks: Seq<RestoreRank>)
    requires
        ranks.len() <= usize::MAX,
    ensures
        is_rank_order(ranks, rank_order(ranks)),
{
    let order = lemma_rank_order_of_prefix(ranks, ranks.len() as usize);
    assert(is_rank_order(ranks, order));
}

/// A saved window and the running window that takes its place.
#[derive(Clone, Copy, Debug, PartialEq, Eq, Structural)]
pub struct RestorePair {
    /// Index of the saved window.
    pub leaf: usize,
    pub live_id: ContainerId,
}

/// The matches between saved and running windows.
pub open spec fn window_matches(leaves: Seq<PlacedLeaf>, live: Seq<LiveWindow>) -> Seq<IndexPair> {
    layout_snapshot_matcher::matching(leaf_matchables(leaves), running_matchables(live))
}

/// A match as a restore carries it out. The saved window is looked up by its
/// key, so of several windows with one key the last stands for all.
pub open spec fn restore_pair(
    leaves: Seq<PlacedLeaf>,
    live: Seq<LiveWindow>,
    p: IndexPair,
) -> RestorePair {
    RestorePair {
        leaf: leaf_with_key(leaves, leaves[p.0].key) as usize,
        live_id: live[p.1].id,
    }
}

/// The ranks of matches.
pub open spec fn match_ranks(leaves: Seq<PlacedLeaf>, live: Seq<LiveWindow>) -> Seq<RestoreRank> {
    window_matches(leaves, live).map_values(
        |p: IndexPair| rank_of(leaves[restore_pair(leaves, live, p).leaf as int]),
    )
}

/// The matches by workspace name and position.
pub open spec fn restore_pairs(leaves: Seq<PlacedLeaf>, live: Seq<LiveWindow>) -> Seq<RestorePair> {
    rank_order(match_ranks(leaves, live)).map_values(
        |i: usize| restore_pair(leaves, live, window_matches(leaves, live)[i as int]),
    )
}

/// The keys of matched saved windows.
pub open spec fn matched_leaf_keys(leaves: Seq<PlacedLeaf>, live: Seq<LiveWindow>) -> Seq<
    Seq<char>,
> {
    window_matches(leaves, live).map_values(|p: IndexPair| leaves[p.0].key)
}

/// The keys of matched running windows.
pub open spec fn matched_live_keys(leaves: Seq<PlacedLeaf>, live: Seq<LiveWindow>) -> Seq<
    Seq<char>,
> {
    window_matches(leaves, live).map_values(|p: IndexPair| container_id::id_text(live[p.1].id))
}

/// Saved and running windows that were matched, in the order of restoring, with
/// the keys that were used.
struct Matched {
    pairs: Vec<RestorePair>,
    leaf_keys: Vec<String>,
    live_keys: Vec<String>,
}

proof fn lemma_window_matches_in_range(leaves: Seq<PlacedLeaf>, live: Seq<LiveWindow>)
    ensures
        forall|i: int|
            0 <= i < window_matches(leaves, live).len() ==> 0 <= (#[trigger] window_matches(
                leaves,
                live,
            )[i]).0 < leaves.len() && 0 <= window_matches(leaves, live)[i].1 < live.len(),
{
    layout_snapshot_matcher::law_no_window_is_used_twice(
        leaf_matchables(leaves),
        running_matchables(live),
    );
}

fn match_leaves(leaves: &[SnapshotLeaf], live: &[LiveWindow]) -> (r: Matched)
    ensures
        r.pairs@ == restore_pairs(snapshot_leaves::leaf_views(leaves@), live@),
        text::views(r.leaf_keys@) == matched_leaf_keys(
            snapshot_leaves::leaf_views(leaves@),
            live@,
        ),
        text::views(r.live_keys@) == matched_live_keys(
            snapshot_leaves::leaf_views(leaves@),
            live@,
        ),
        r.pairs@.len() == r.leaf_keys@.len(),
        forall|i: int| 0 <= i < r.pairs@.len() ==> (#[trigger] r.pairs@[i]).leaf < leaves@.len(),
{
    let ghost saved = snapshot_leaves::leaf_views(leaves@);
    let ghost found = window_matches(saved, live@);
    let saved_m = snap_matchables(leaves);
    let live_m = live_matchables(live);
    let keys = layout_snapshot_matcher::match_windows(&saved_m, &live_m);
    let mut unordered: Vec<RestorePair> = Vec::new();
    let mut ranks: Vec<Rank> = Vec::new();
    let mut leaf_keys: Vec<String> = Vec::new();
    let mut live_keys: Vec<String> = Vec::new();
    let mut i: usize = 0;
    proof {
        lemma_window_matches_in_range(saved, live@);
        assert(keys@.len() == found.len()) by {
            assert(layout_snapshot_matcher::pair_views(keys@).len() == found.len());
        }
        assert forall|k: int| 0 <= k < found.len() implies (#[trigger] keys@[k]).0@
            == saved[found[k].0].key && keys@[k].1@ == container_id::id_text(
            live@[found[k].1].id,
        ) by {
            assert(layout_snapshot_matcher::pair_views(keys@)[k] == (keys@[k].0@, keys@[k].1@));
        }
    }
    while i < keys.len()
        invariant
            i <= keys@.len(),
            keys@.len() == found.len(),
            saved == snapshot_leaves::leaf_views(leaves@),
            found == window_matches(saved, live@),
            forall|k: int|
                0 <= k < found.len() ==> 0 <= (#[trigger] found[k]).0 < saved.len() && 0
                    <= found[k].1 < live@.len(),
            forall|k: int|
                0 <= k < found.len() ==> (#[trigger] keys@[k]).0@ == saved[found[k].0].key
                    && keys@[k].1@ == container_id::id_text(live@[found[k].1].id),
            forall|k: int|
                0 <= k < live@.len() ==> container_id::id_of_text(
                    container_id::id_text((#[trigger] live@[k]).id),
                ) == Some(live@[k].id),
            unordered@.len() == i,
            ranks@.len() == i,
            forall|k: int|
                0 <= k < i ==> #[trigger] unordered@[k] == restore_pair(saved, live@, found[k])
                    && unordered@[k].leaf < leaves@.len(),
            forall|k: int|
                0 <= k < i ==> (#[trigger] ranks@[k]).model() == rank_of(
                    saved[unordered@[k].leaf as int],
                ),
            text::views(leaf_keys@) == matched_leaf_keys(saved, live@).take(i as int),
            text::views(live_keys@) == matched_live_keys(saved, live@).take(i as int),
        decreases keys@.len() - i,
    {
        let snap_key = &keys[i].0;
        let live_key = &keys[i].1;
        proof {
            assert(leaves@[found[i as int].0].key@ == snap_key@);
            assert(container_id::id_of_text(live_key@) == Some(live@[found[i as int].1].id));
        }
        let at: usize = find_leaf(leaves, snap_key.as_str());
        if let Some(live_id) = container_id::text_to_id(live_key.as_str()) {
            let pair = RestorePair { leaf: at, live_id };
            let rank = Rank {
                workspace_name: leaves[at].workspace_name.clone(),
                order_index: leaves[at].order_index,
            };
            let ghost old_leaf_keys = leaf_keys@;
            let ghost old_live_keys = live_keys@;
            unordered.push(pair);
            ranks.push(rank);
            leaf_keys.push(snap_key.clone());
            live_keys.push(live_key.clone());
            proof {
                assert(pair == restore_pair(saved, live@, found[i as int]));
                assert(rank.model() =~= rank_of(saved[at as int]));
                let a = matched_leaf_keys(saved, live@);
                let b = matched_live_keys(saved, live@);
                assert(text::views(leaf_keys@) =~= text::views(old_leaf_keys).push(snap_key@));
                assert(text::views(live_keys@) =~= text::views(old_live_keys).push(live_key@));
                assert(a.take(i + 1) =~= a.take(i as int).push(snap_key@));
                assert(b.take(i + 1) =~= b.take(i as int).push(live_key@));
            }
        }
        i = i + 1;
    }
    let order = order_by_rank(&ranks);
    let ghost all_ranks = match_ranks(saved, live@);
    proof {
        assert(rank_models(ranks@) =~= all_ranks);
        law_rank_order_is_unique(all_ranks, order@, rank_order(all_ranks));
        assert(matched_leaf_keys(saved, live@).take(i as int) =~= matched_leaf_keys(saved, live@));
        assert(matched_live_keys(saved, live@).take(i as int) =~= matched_live_keys(saved, live@));
    }
    let ghost all = restore_pairs(saved, live@);
    let mut pairs: Vec<RestorePair> = Vec::new();
    let mut k: usize = 0;
    while k < order.len()
        invariant
            k <= order@.len(),
            order@.len() == all.len(),
            order@ == rank_order(all_ranks),
            all_ranks == match_ranks(saved, live@),
            all == restore_pairs(saved, live@),
            found == window_matches(saved, live@),
            unordered@.len() == order@.len(),
            forall|n: int| 0 <= n < order@.len() ==> #[trigger] order@[n] < unordered@.len(),
            forall|n: int|
                0 <= n < unordered@.len() ==> #[trigger] unordered@[n] == restore_pair(
                    saved,
                    live@,
                    found[n],
                ) && unordered@[n].leaf < leaves@.len(),
            pairs@ == all.take(k as int),
            forall|n: int| 0 <= n < pairs@.len() ==> (#[trigger] pairs@[n]).leaf < leaves@.len(),
        decreases order@.len() - k,
    {
        pairs.push(unordered[order[k]]);
        k = k + 1;
        assert(pairs@ =~= all.take(k as int));
    }
    assert(all.take(k as int) =~= all);
    Matched { pairs, leaf_keys, live_keys }
}

// ---------------------------------------------------------------------------
// Counts
// ---------------------------------------------------------------------------

/// Summary of a restore.
#[derive(Clone, Copy, Debug, PartialEq, Eq, Structural)]
pub struct LoadLayoutSummary {
    pub matched: usize,
    pub unmatched_snapshot: usize,
    pub unmatched_live: usize,
    pub state_updates: usize,
    pub workspace_moves: usize,
    pub tiling_trees_restored: usize,
    pub tiling_windows_placed: usize,
}

impl Default for LoadLayoutSummary {
    fn default() -> (r: LoadLayoutSummary)
        ensures
            r == (LoadLayoutSummary {
                matched: 0,
                unmatched_snapshot: 0,
                unmatched_live: 0,
                state_updates: 0,
                workspace_moves: 0,
                tiling_trees_restored: 0,
                tiling_windows_placed: 0,
            }),
    {
        LoadLayoutSummary {
            matched: 0,
            unmatched_snapshot: 0,
            unmatched_live: 0,
            state_updates: 0,
            workspace_moves: 0,
            tiling_trees_restored: 0,
            tiling_windows_placed: 0,
        }
    }
}

/// The saved windows that were not matched.
pub open spec fn unmatched_leaves(leaves: Seq<PlacedLeaf>, keys: Seq<Seq<char>>) -> Seq<PlacedLeaf> {
    leaves.filter(|l: PlacedLeaf| !keys.contains(l.key))
}

/// The running windows that were not matched.
pub open spec fn unmatched_windows(live: Seq<LiveWindow>, keys: Seq<Seq<char>>) -> Seq<LiveWindow> {
    live.filter(|w: LiveWindow| !keys.contains(container_id::id_text(w.id)))
}

fn count_unmatched_leaves(leaves: &[SnapshotLeaf], keys: &[String]) -> (r: usize)
    ensures
        r == unmatched_leaves(snapshot_leaves::leaf_views(leaves@), text::views(keys@)).len(),
{
    let ghost all = snapshot_leaves::leaf_views(leaves@);
    let ghost open = |l: PlacedLeaf| !text::views(keys@).contains(l.key);
    let mut n: usize = 0;
    let mut i: usize = 0;
    assert(all.take(0).filter(open).len() == 0) by {
        reveal(Seq::filter);
    }
    while i < leaves.len()
        invariant
            i <= leaves@.len(),
            n <= i,
            all == snapshot_leaves::leaf_views(leaves@),
            open == (|l: PlacedLeaf| !text::views(keys@).contains(l.key)),
            n == all.take(i as int).filter(open).len(),
        decreases leaves@.len() - i,
    {
        proof {
            assert(all.take(i + 1).drop_last() =~= all.take(i as int));
            assert(all.take(i + 1).last() == leaves@[i as int]@);
            reveal(Seq::filter);
        }
        if !text::list_contains(keys, leaves[i].key.as_str()) {
            n = n + 1;
        }
        i = i + 1;
    }
    assert(all.take(i as int) =~= all);
    n
}

fn count_unmatched_windows(live: &[LiveWindow], keys: &[String]) -> (r: usize)
    ensures
        r == unmatched_windows(live@, text::views(keys@)).len(),
{
    let ghost open = |w: LiveWindow| !text::views(keys@).contains(container_id::id_text(w.id));
    let mut n: usize = 0;
    let mut i: usize = 0;
    assert(live@.take(0).filter(open).len() == 0) by {
        reveal(Seq::filter);
    }
    while i < live.len()
        invariant
            i <= live@.len(),
            n <= i,
            open == (|w: LiveWindow| !text::views(keys@).contains(container_id::id_text(w.id))),
            n == live@.take(i as int).filter(open).len(),
        decreases live@.len() - i,
    {
        proof {
            assert(live@.take(i + 1).drop_last() =~= live@.take(i as int));
            assert(live@.take(i + 1).last() == live@[i as int]);
            reveal(Seq::filter);
        }
        let key = container_id::id_to_text(live[i].id);
        if !text::list_contains(keys, key.as_str()) {
            n = n + 1;
        }
        i = i + 1;
    }
    assert(live@.take(i as int) =~= live@);
    n
}

// ---------------------------------------------------------------------------
// Workspaces and monitors
// ---------------------------------------------------------------------------

/// The monitor of the desktop that a workspace belongs on.
#[derive(Debug, PartialEq, Eq)]
pub struct WorkspaceTarget {
    pub workspace_name: String,
    /// Index of the monitor.
    pub monitor: usize,
}

pub open spec fn target_views(s: Seq<WorkspaceTarget>) -> Seq<(Seq<char>, int)> {
    s.map_values(|t: WorkspaceTarget| (t.workspace_name@, t.monitor as int))
}

/// The workspaces of matched monitors with the monitor that each matched.
pub open spec fn target_entries(monitors: Seq<MonitorModel>, pairs: Seq<MonitorPair>) -> Seq<
    (Seq<char>, int),
>
    decreases pairs.len(),
{
    if pairs.len() == 0 {
        Seq::empty()
    } else {
        target_entries(monitors, pairs.drop_last()) + monitors[pairs.last().0].workspaces.map_values(
            |w: WorkspaceModel| (w.name, pairs.last().1),
        )
    }
}

pub open spec fn entry_names(s: Seq<(Seq<char>, int)>) -> Seq<Seq<char>> {
    s.map_values(|e: (Seq<char>, int)| e.0)
}

/// The first entry of each name.
pub open spec fn first_entries(s: Seq<(Seq<char>, int)>) -> Seq<(Seq<char>, int)>
    decreases s.len(),
{
    if s.len() == 0 {
        Seq::empty()
    } else {
        let before = s.drop_last();
        if entry_names(before).contains(s.last().0) {
            first_entries(before)
        } else {
            first_entries(before).push(s.last())
        }
    }
}

/// Where each workspace of the matched monitors belongs: on the first monitor
/// that has it. Workspaces without windows are included.
pub fn workspace_targets(monitors: &[SnapshotMonitor], pairs: &[(usize, usize)]) -> (r: Vec<
    WorkspaceTarget,
>)
    requires
        forall|i: int| 0 <= i < pairs@.len() ==> (#[trigger] pairs@[i]).0 < monitors@.len(),
    ensures
        target_views(r@) == first_entries(
            target_entries(
                layout_snapshot::monitor_views(monitors@),
                monitor_match::index_views(pairs@),
            ),
        ),
{
    let ghost mons = layout_snapshot::monitor_views(monitors@);
    let ghost ps = monitor_match::index_views(pairs@);
    let mut out: Vec<WorkspaceTarget> = Vec::new();
    let mut seen: Vec<String> = Vec::new();
    let mut i: usize = 0;
    proof {
        assert(target_views(out@) =~= first_entries(target_entries(mons, ps.take(0))));
        assert(text::views(seen@) =~= entry_names(target_entries(mons, ps.take(0))));
    }
    while i < pairs.len()
        invariant
            i <= pairs@.len(),
            mons == layout_snapshot::monitor_views(monitors@),
            ps == monitor_match::index_views(pairs@),
            forall|k: int| 0 <= k < pairs@.len() ==> (#[trigger] pairs@[k]).0 < monitors@.len(),
            target_views(out@) == first_entries(target_entries(mons, ps.take(i as int))),
            text::views(seen@) == entry_names(target_entries(mons, ps.take(i as int))),
        decreases pairs@.len() - i,
    {
        let at: usize = pairs[i].0;
        let to: usize = pairs[i].1;
        let ghost before = target_entries(mons, ps.take(i as int));
        let ghost mine = mons[at as int].workspaces.map_values(
            |w: WorkspaceModel| (w.name, to as int),
        );
        let mut j: usize = 0;
        proof {
            assert(ps.take(i + 1).drop_last() =~= ps.take(i as int));
            assert(ps.take(i + 1).last() == (at as int, to as int));
            assert(target_entries(mons, ps.take(i + 1)) =~= before + mine);
            assert(before + mine.take(0) =~= before);
        }
        while j < monitors[at].workspaces.len()
            invariant
                at < monitors@.len(),
                mons == layout_snapshot::monitor_views(monitors@),
                mine == mons[at as int].workspaces.map_values(
                    |w: WorkspaceModel| (w.name, to as int),
                ),
                mine.len() == monitors@[at as int].workspaces@.len(),
                j <= mine.len(),
                target_views(out@) == first_entries(before + mine.take(j as int)),
                text::views(seen@) == entry_names(before + mine.take(j as int)),
            decreases mine.len() - j,
        {
            let name = &monitors[at].workspaces[j].name;
            let ghost list = before + mine.take(j as int);
            let ghost next = before + mine.take(j + 1);
            let ghost old_out = out@;
            let ghost old_seen = seen@;
            proof {
                assert(mine[j as int] == (name@, to as int));
                assert(next.drop_last() =~= list);
                assert(next.last() == (name@, to as int));
                assert(entry_names(next) =~= entry_names(list).push(name@));
            }
            if !text::list_contains(&seen, name.as_str()) {
                out.push(WorkspaceTarget { workspace_name: name.clone(), monitor: to });
                assert(target_views(out@) =~= target_views(old_out).push((name@, to as int)));
            }
            seen.push(name.clone());
            assert(text::views(seen@) =~= text::views(old_seen).push(name@));
            j = j + 1;
        }
        assert(mine.take(j as int) =~= mine);
        i = i + 1;
    }
    assert(ps.take(i as int) =~= ps);
    out
}

/// The bounds of the monitor that a workspace is brought to, if it is brought to
/// one.
pub open spec fn bounds_of_target(
    targets: Seq<(Seq<char>, int)>,
    monitors: Seq<LiveMonitor>,
    workspace: Seq<char>,
) -> Option<Rect> {
    match seqs::lookup(targets, workspace) {
        Some(at) => if 0 <= at < monitors.len() {
            Some(monitors[at].bounds)
        } else {
            None
        },
        None => None,
    }
}

/// The bounds of the monitor that the workspace `workspace_name` is brought to.
pub fn target_bounds(
    targets: &[WorkspaceTarget],
    monitors: &[LiveMonitor],
    workspace_name: &str,
) -> (r: Option<Rect>)
    ensures
        r == bounds_of_target(target_views(targets@), monitors@, workspace_name@),
{
    let ghost all = target_views(targets@);
    let mut i: usize = targets.len();
    assert(all.take(i as int) =~= all);
    while i > 0
        invariant
            i <= targets@.len(),
            all == target_views(targets@),
            seqs::lookup(all, workspace_name@) == seqs::lookup(all.take(i as int), workspace_name@),
        decreases i,
    {
        assert(all.take(i as int).drop_last() =~= all.take(i - 1));
        assert(all.take(i as int).last() == all[i - 1]);
        let target = &targets[i - 1];
        if text::same_text(target.workspace_name.as_str(), workspace_name) {
            return if target.monitor < monitors.len() {
                Some(monitors[target.monitor].bounds)
            } else {
                None
            };
        }
        i = i - 1;
    }
    None
}

/// What brings a workspace to its monitor.
#[derive(Clone, Copy, Debug, PartialEq, Eq, Structural)]
pub enum WorkspacePlacement {
    /// It does not exist yet: activate it on the monitor.
    Activate,
    /// It is on another monitor: move it.
    Move,
    /// It is where it belongs.
    Stay,
}

/// Decides how to bring a workspace to the monitor `target`. `current` is the
/// monitor of the workspace if the workspace exists; a workspace without a
/// monitor is an error.
pub fn place_workspace(
    current: Option<Option<ContainerId>>,
    target: ContainerId,
) -> (r: Result<WorkspacePlacement, String>)
    ensures
        match current {
            None => r == Ok::<WorkspacePlacement, String>(WorkspacePlacement::Activate),
            Some(None) => r is Err && r->Err_0@ == "Workspace has no monitor."@,
            Some(Some(monitor)) => r == Ok::<WorkspacePlacement, String>(
                if monitor != target {
                    WorkspacePlacement::Move
                } else {
                    WorkspacePlacement::Stay
                },
            ),
        },
{
    match current {
        None => Ok(WorkspacePlacement::Activate),
        Some(None) => Err("Workspace has no monitor.".to_owned()),
        Some(Some(monitor)) => {
            if monitor != target {
                Ok(WorkspacePlacement::Move)
            } else {
                Ok(WorkspacePlacement::Stay)
            }
        },
    }
}

/// A workspace to be focused, with the monitor that it was focused on.
pub open spec fn focus_entries(monitors: Seq<MonitorModel>, pairs: Seq<MonitorPair>) -> Seq<
    (Seq<char>, int),
>
    decreases pairs.len(),
{
    if pairs.len() == 0 {
        Seq::empty()
    } else {
        let before = focus_entries(monitors, pairs.drop_last());
        match monitors[pairs.last().0].focused_workspace_name {
            Some(name) => before.push((name, pairs.last().1)),
            None => before,
        }
    }
}

/// The workspaces that were focused on the matched monitors.
pub fn focused_workspaces(monitors: &[SnapshotMonitor], pairs: &[(usize, usize)]) -> (r: Vec<
    WorkspaceTarget,
>)
    requires
        forall|i: int| 0 <= i < pairs@.len() ==> (#[trigger] pairs@[i]).0 < monitors@.len(),
    ensures
        target_views(r@) == focus_entries(
            layout_snapshot::monitor_views(monitors@),
            monitor_match::index_views(pairs@),
        ),
{
    let ghost mons = layout_snapshot::monitor_views(monitors@);
    let ghost ps = monitor_match::index_views(pairs@);
    let mut out: Vec<WorkspaceTarget> = Vec::new();
    let mut i: usize = 0;
    assert(target_views(out@) =~= focus_entries(mons, ps.take(0)));
    while i < pairs.len()
        invariant
            i <= pairs@.len(),
            mons == layout_snapshot::monitor_views(monitors@),
            ps == monitor_match::index_views(pairs@),
            forall|k: int| 0 <= k < pairs@.len() ==> (#[trigger] pairs@[k]).0 < monitors@.len(),
            target_views(out@) == focus_entries(mons, ps.take(i as int)),
        decreases pairs@.len() - i,
    {
        let at: usize = pairs[i].0;
        let to: usize = pairs[i].1;
        proof {
            assert(ps.take(i + 1).drop_last() =~= ps.take(i as int));
            assert(ps.take(i + 1).last() == (at as int, to as int));
            assert(mons[at as int] == monitors@[at as int]@);
        }
        match &monitors[at].focused_workspace_name {
            Some(name) => {
                let ghost before = out@;
                out.push(WorkspaceTarget { workspace_name: name.clone(), monitor: to });
                assert(target_views(out@) =~= target_views(before).push((name@, to as int)));
            },
            None => {},
        }
        i = i + 1;
    }
    assert(ps.take(i as int) =~= ps);
    out
}

// ---------------------------------------------------------------------------
// The whole restore
// ---------------------------------------------------------------------------

impl LoadLayoutSummary {
    /// The summary after an action on a window has succeeded.
    pub fn count_action(self, action: RestoreAction) -> (r: LoadLayoutSummary)
        requires
            self.workspace_moves < usize::MAX,
            self.state_updates < usize::MAX,
        ensures
            r == match action {
                RestoreAction::MoveToWorkspace => LoadLayoutSummary {
                    workspace_moves: (self.workspace_moves + 1) as usize,
                    ..self
                },
                RestoreAction::UpdateState(_) => LoadLayoutSummary {
                    state_updates: (self.state_updates + 1) as usize,
                    ..self
                },
                _ => self,
            },
    {
        match action {
            RestoreAction::MoveToWorkspace => LoadLayoutSummary {
                workspace_moves: self.workspace_moves + 1,
                ..self
            },
            RestoreAction::UpdateState(_) => LoadLayoutSummary {
                state_updates: self.state_updates + 1,
                ..self
            },
            _ => self,
        }
    }

    /// The summary after a tiling tree with `placed` windows was rebuilt.
    pub fn count_tree(self, placed: usize) -> (r: LoadLayoutSummary)
        requires
            self.tiling_trees_restored < usize::MAX,
            self.tiling_windows_placed + placed <= usize::MAX,
        ensures
            r == (LoadLayoutSummary {
                tiling_trees_restored: (self.tiling_trees_restored + 1) as usize,
                tiling_windows_placed: (self.tiling_windows_placed + placed) as usize,
                ..self
            }),
    {
        LoadLayoutSummary {
            tiling_trees_restored: self.tiling_trees_restored + 1,
            tiling_windows_placed: self.tiling_windows_placed + placed,
            ..self
        }
    }
}

/// The counts of a summary, as messages list them.
pub open spec fn summary_text(s: LoadLayoutSummary) -> Seq<char> {
    "matched="@ + text::decimal(s.matched as nat) + ", unmatched_snapshot="@ + text::decimal(
        s.unmatched_snapshot as nat,
    ) + ", unmatched_live="@ + text::decimal(s.unmatched_live as nat) + ", workspace_moves="@
        + text::decimal(s.workspace_moves as nat) + ", state_updates="@ + text::decimal(
        s.state_updates as nat,
    ) + ", tiling_trees_restored="@ + text::decimal(s.tiling_trees_restored as nat)
        + ", tiling_windows_placed="@ + text::decimal(s.tiling_windows_placed as nat)
}

impl LoadLayoutSummary {
    /// The counts, as messages list them.
    pub fn counts(&self) -> (r: String)
        ensures
            r@ == summary_text(*self),
    {
        let mut out = "matched=".to_owned();
        text::push_decimal(&mut out, self.matched as u64);
        out.append(", unmatched_snapshot=");
        text::push_decimal(&mut out, self.unmatched_snapshot as u64);
        out.append(", unmatched_live=");
        text::push_decimal(&mut out, self.unmatched_live as u64);
        out.append(", workspace_moves=");
        text::push_decimal(&mut out, self.workspace_moves as u64);
        out.append(", state_updates=");
        text::push_decimal(&mut out, self.state_updates as u64);
        out.append(", tiling_trees_restored=");
        text::push_decimal(&mut out, self.tiling_trees_restored as u64);
        out.append(", tiling_windows_placed=");
        text::push_decimal(&mut out, self.tiling_windows_placed as u64);
        out
    }

    /// The debug message at the end of a restore.
    pub fn message(&self) -> (r: String)
        ensures
            r@ == "Layout snapshot load summary: "@ + summary_text(*self),
    {
        let mut out = "Layout snapshot load summary: ".to_owned();
        out.append(self.counts().as_str());
        out
    }
}

/// Everything that a restore is going to do.
#[derive(Debug, PartialEq, Eq)]
pub struct RestorePlan {
    /// How many monitors the snapshot holds.
    pub snapshot_monitors: usize,
    /// Matched monitors, as indices into the snapshot and the desktop.
    pub monitors: Vec<(usize, usize)>,
    /// The saved windows.
    pub leaves: Vec<SnapshotLeaf>,
    /// The windows to restore, by workspace and position.
    pub pairs: Vec<RestorePair>,
    /// Where workspaces belong.
    pub workspace_targets: Vec<WorkspaceTarget>,
    /// The tiling trees to rebuild.
    pub tiling: Vec<TilingRestore>,
    /// The tiling windows that are missing.
    pub missing: Vec<MissingWindow>,
    /// The workspaces to focus in the end.
    pub focus: Vec<WorkspaceTarget>,
    /// What was matched; nothing is done yet.
    pub summary: LoadLayoutSummary,
}

impl RestorePlan {
    /// The debug message at the beginning of a restore. Only snapshots of the
    /// current version are restored.
    pub fn begin_message(&self) -> (r: String)
        ensures
            r@ == "restore begin: snapshot monitors="@ + text::decimal(self.snapshot_monitors as nat)
                + ", version="@ + text::decimal(layout_snapshot::LAYOUT_SNAPSHOT_VERSION as nat),
    {
        let mut out = "restore begin: snapshot monitors=".to_owned();
        text::push_decimal(&mut out, self.snapshot_monitors as u64);
        out.append(", version=");
        text::push_decimal(&mut out, layout_snapshot::LAYOUT_SNAPSHOT_VERSION as u64);
        out
    }
}

/// What a restore of `snapshot` does on a desktop with these monitors and
/// windows.
pub open spec fn is_restore_plan(
    snapshot: SnapshotModel,
    monitors: Seq<LiveMonitor>,
    windows: Seq<LiveWindow>,
    plan: RestorePlan,
) -> bool {
    let pairs = monitor_match::monitor_pairs(snapshot.monitors, monitors);
    let leaves = restore_leaves(snapshot.monitors, pairs);
    let considered = snapshot_leaves::listed_workspaces(
        snapshot.monitors,
        restore_monitor_order(pairs, snapshot.monitors.len()),
    );
    &&& plan.snapshot_monitors == snapshot.monitors.len()
    &&& monitor_match::index_views(plan.monitors@) == pairs
    &&& snapshot_leaves::leaf_views(plan.leaves@) == leaves
    &&& plan.pairs@ == restore_pairs(leaves, windows)
    &&& target_views(plan.workspace_targets@) == first_entries(
        target_entries(snapshot.monitors, pairs),
    )
    &&& restore_tiling::tiling_views(plan.tiling@) == restore_tiling::tiling_restores(
        considered,
        leaves,
        restore_pairs(leaves, windows),
    )
    &&& restore_tiling::missing_views(plan.missing@) == restore_tiling::missing_windows(
        considered,
        leaves,
        restore_pairs(leaves, windows),
    )
    &&& target_views(plan.focus@) == focus_entries(snapshot.monitors, pairs)
    &&& plan.summary.matched == window_matches(leaves, windows).len()
    &&& plan.summary.unmatched_snapshot == unmatched_leaves(
        leaves,
        matched_leaf_keys(leaves, windows),
    ).len()
    &&& plan.summary.unmatched_live == unmatched_windows(
        windows,
        matched_live_keys(leaves, windows),
    ).len()
    &&& plan.summary.state_updates == 0
    &&& plan.summary.workspace_moves == 0
    &&& plan.summary.tiling_trees_restored == 0
    &&& plan.summary.tiling_windows_placed == 0
}

/// Decides what a restore of `snapshot` does on a desktop with these monitors
/// and managed windows. A snapshot of another version is refused, and then
/// there is nothing to do.
pub fn load_layout_snapshot(
    snapshot: &LayoutSnapshot,
    live_monitors: &[LiveMonitor],
    live_windows: &[LiveWindow],
) -> (r: Result<RestorePlan, String>)
    ensures
        match r {
            Ok(plan) => snapshot.version == layout_snapshot::LAYOUT_SNAPSHOT_VERSION
                && is_restore_plan(snapshot@, live_monitors@, live_windows@, plan),
            Err(message) => snapshot.version != layout_snapshot::LAYOUT_SNAPSHOT_VERSION && message@
                == layout_snapshot::unsupported_version_message(snapshot.version),
        },
{
    match layout_snapshot::validate_layout_snapshot_version(snapshot) {
        Ok(()) => {},
        Err(message) => {
            return Err(message);
        },
    }
    let monitors = monitor_match::match_monitors(&snapshot.monitors, live_monitors);
    let leaves = collect_snapshot_leaves(&snapshot.monitors, &monitors);
    let matched = match_leaves(&leaves, live_windows);
    let summary = LoadLayoutSummary {
        matched: matched.leaf_keys.len(),
        unmatched_snapshot: count_unmatched_leaves(&leaves, &matched.leaf_keys),
        unmatched_live: count_unmatched_windows(live_windows, &matched.live_keys),
        state_updates: 0,
        workspace_moves: 0,
        tiling_trees_restored: 0,
        tiling_windows_placed: 0,
    };
    let targets = workspace_targets(&snapshot.monitors, &monitors);
    let order = monitor_order(&monitors, snapshot.monitors.len());
    proof {
        assert forall|i: int| 0 <= i < order@.len() implies #[trigger] order@[i]
            < snapshot.monitors@.len() by {
            if i < monitors@.len() {
                assert(order@[i] == monitors@[i].0);
            } else {
                assert(order@[i] == i - monitors@.len());
            }
        }
    }
    let plans = restore_tiling::plan_tiling_restores(
        &snapshot.monitors,
        &order,
        &leaves,
        &matched.pairs,
    );
    let focus = focused_workspaces(&snapshot.monitors, &monitors);
    let plan = RestorePlan {
        snapshot_monitors: snapshot.monitors.len(),
        monitors,
        leaves,
        pairs: matched.pairs,
        workspace_targets: targets,
        tiling: plans.restores,
        missing: plans.missing,
        focus,
        summary,
    };
    proof {
        let saved = snapshot_leaves::leaf_views(leaves@);
        assert(matched_leaf_keys(saved, live_windows@).len() == text::views(
            matched.leaf_keys@,
        ).len());
        assert(layout_snapshot::monitor_views(snapshot.monitors@) == snapshot@.monitors);
    }
    Ok(plan)
}

// ---------------------------------------------------------------------------
// Laws
// ---------------------------------------------------------------------------

/// No running window is restored twice, and every match is carried out.
pub proof fn law_no_window_is_restored_twice(leaves: Seq<PlacedLeaf>, live: Seq<LiveWindow>)
    requires
        window_matches(leaves, live).len() <= usize::MAX,
        forall|i: int, j: int|
            0 <= i < j < live.len() ==> (#[trigger] live[i]).id != (#[trigger] live[j]).id,
    ensures
        restore_pairs(leaves, live).len() == window_matches(leaves, live).len(),
        forall|i: int, j: int|
            0 <= i < j < restore_pairs(leaves, live).len() ==> (#[trigger] restore_pairs(
                leaves,
                live,
            )[i]).live_id != (#[trigger] restore_pairs(leaves, live)[j]).live_id,
{
    let found = window_matches(leaves, live);
    let ranks = match_ranks(leaves, live);
    law_rank_order_exists(ranks);
    let order = rank_order(ranks);
    let pairs = restore_pairs(leaves, live);
    layout_snapshot_matcher::law_no_window_is_used_twice(
        leaf_matchables(leaves),
        running_matchables(live),
    );
    lemma_window_matches_in_range(leaves, live);
    assert forall|i: int, j: int| 0 <= i < j < pairs.len() implies (#[trigger] pairs[i]).live_id != (
    #[trigger] pairs[j]).live_id by {
        let a = order[i] as int;
        let b = order[j] as int;
        assert(goes_before(ranks, order[i] as int, order[j] as int));
        lemma_ranks_total(ranks[a], ranks[b]);
        assert(a != b);
        let (x, y) = if a < b {
            (a, b)
        } else {
            (b, a)
        };
        assert(found[x].1 != found[y].1);
        let (p, q) = if found[x].1 < found[y].1 {
            (found[x].1, found[y].1)
        } else {
            (found[y].1, found[x].1)
        };
        assert(live[p].id != live[q].id);
    }
}

/// How often a restore of the pairs moves a window to its workspace. `found` holds
/// each window as the restore finds it, and `bounds` those of its monitor.
pub open spec fn total_moves(
    leaves: Seq<PlacedLeaf>,
    pairs: Seq<RestorePair>,
    found: Seq<WindowOnDesktop>,
    bounds: Seq<Option<Rect>>,
) -> nat
    decreases pairs.len(),
{
    if pairs.len() == 0 {
        0
    } else {
        let n = pairs.len() - 1;
        total_moves(leaves, pairs.drop_last(), found, bounds) + restore_window::move_count(
            restore_window::restore_actions(
                RestorePhase::Workspace,
                found[n],
                leaves[pairs[n].leaf as int],
                bounds[n],
            ),
        )
    }
}

proof fn lemma_total_moves(
    leaves: Seq<PlacedLeaf>,
    pairs: Seq<RestorePair>,
    found: Seq<WindowOnDesktop>,
    bounds: Seq<Option<Rect>>,
)
    ensures
        total_moves(leaves, pairs, found, bounds) <= pairs.len(),
    decreases pairs.len(),
{
    if pairs.len() > 0 {
        let n = pairs.len() - 1;
        lemma_total_moves(leaves, pairs.drop_last(), found, bounds);
        restore_window::law_window_is_moved_at_most_once(
            found[n],
            leaves[pairs[n].leaf as int],
            bounds[n],
        );
    }
}

/// A whole restore makes at most as many workspace moves as it has matches,
/// wherever it finds the windows.
pub proof fn law_at_most_one_move_for_each_match(
    leaves: Seq<PlacedLeaf>,
    live: Seq<LiveWindow>,
    found: Seq<WindowOnDesktop>,
    bounds: Seq<Option<Rect>>,
)
    requires
        window_matches(leaves, live).len() <= usize::MAX,
        found.len() == window_matches(leaves, live).len(),
        bounds.len() == window_matches(leaves, live).len(),
    ensures
        total_moves(leaves, restore_pairs(leaves, live), found, bounds) <= window_matches(
            leaves,
            live,
        ).len(),
{
    law_rank_order_exists(match_ranks(leaves, live));
    lemma_total_moves(leaves, restore_pairs(leaves, live), found, bounds);
}

/// On either side, where the keys of saved windows and the ids of running ones
/// differ, matched and unmatched windows together are all windows.
pub proof fn law_summary_counts_add_up(leaves: Seq<PlacedLeaf>, live: Seq<LiveWindow>)
    requires
        forall|i: int, j: int|
            0 <= i < j < leaves.len() ==> (#[trigger] leaves[i]).key != (#[trigger] leaves[j]).key,
        forall|i: int, j: int|
            0 <= i < j < live.len() ==> (#[trigger] live[i]).id != (#[trigger] live[j]).id,
    ensures
        window_matches(leaves, live).len() + unmatched_leaves(
            leaves,
            matched_leaf_keys(leaves, live),
        ).len() == leaves.len(),
        window_matches(leaves, live).len() + unmatched_windows(
            live,
            matched_live_keys(leaves, live),
        ).len() == live.len(),
{
    let m = window_matches(leaves, live);
    let a = matched_leaf_keys(leaves, live);
    let b = matched_live_keys(leaves, live);
    layout_snapshot_matcher::law_no_window_is_used_twice(
        leaf_matchables(leaves),
        running_matchables(live),
    );
    lemma_window_matches_in_range(leaves, live);
    let leaf_key = |l: PlacedLeaf| l.key;
    let live_key = |w: LiveWindow| container_id::id_text(w.id);
    assert forall|i: int, j: int| 0 <= i < j < live.len() implies live_key(#[trigger] live[i])
        != live_key(#[trigger] live[j]) by {
        if live_key(live[i]) == live_key(live[j]) {
            container_id::law_id_texts_differ(live[i].id, live[j].id);
        }
    }
    assert forall|i: int, j: int| 0 <= i < a.len() && 0 <= j < a.len() && i != j implies a[i]
        != a[j] && b[i] != b[j] by {
        let (x, y) = if i < j {
            (i, j)
        } else {
            (j, i)
        };
        assert(m[x].0 != m[y].0 && m[x].1 != m[y].1);
        let (p, q) = if m[x].1 < m[y].1 {
            (m[x].1, m[y].1)
        } else {
            (m[y].1, m[x].1)
        };
        assert(live_key(live[p]) != live_key(live[q]));
        let (r, s) = if m[x].0 < m[y].0 {
            (m[x].0, m[y].0)
        } else {
            (m[y].0, m[x].0)
        };
        assert(leaves[r].key != leaves[s].key);
    }
    assert forall|k: int| 0 <= k < a.len() implies seqs::has_key(
        leaves,
        leaf_key,
        #[trigger] a[k],
    ) by {
        assert(leaf_key(leaves[m[k].0]) == a[k]);
    }
    assert forall|k: int| 0 <= k < b.len() implies seqs::has_key(
        live,
        live_key,
        #[trigger] b[k],
    ) by {
        assert(live_key(live[m[k].1]) == b[k]);
    }
    seqs::lemma_count_left_over(leaves, leaf_key, a, |l: PlacedLeaf| !a.contains(l.key));
    seqs::lemma_count_left_over(
        live,
        live_key,
        b,
        |w: LiveWindow| !b.contains(container_id::id_text(w.id)),
    );
}

proof fn lemma_first_entries(s: Seq<(Seq<char>, int)>)
    ensures
        forall|i: int|
            0 <= i < s.len() ==> entry_names(first_entries(s)).contains((#[trigger] s[i]).0),
        forall|i: int| 0 <= i < first_entries(s).len() ==> s.contains(#[trigger] first_entries(s)[i]),
        forall|i: int, j: int|
            0 <= i < j < first_entries(s).len() ==> (#[trigger] first_entries(s)[i]).0 != (
            #[trigger] first_entries(s)[j]).0,
    decreases s.len(),
{
    if s.len() > 0 {
        let rest = s.drop_last();
        lemma_first_entries(rest);
        let before = first_entries(rest);
        let after = first_entries(s);
        let known = entry_names(rest).contains(s.last().0);
        assert(!known ==> after == before.push(s.last()));
        assert forall|i: int| 0 <= i < s.len() implies entry_names(after).contains(
            (#[trigger] s[i]).0,
        ) by {
            if i < rest.len() || known {
                let k = if i < rest.len() {
                    i
                } else {
                    choose|k: int| 0 <= k < rest.len() && entry_names(rest)[k] == s.last().0
                };
                assert(entry_names(before).contains(rest[k].0));
                let n = choose|n: int| 0 <= n < before.len() && entry_names(before)[n] == rest[k].0;
                assert(entry_names(after)[n] == rest[k].0);
            } else {
                assert(entry_names(after)[before.len() as int] == s[i].0);
            }
        }
        assert forall|i: int| 0 <= i < after.len() implies s.contains(#[trigger] after[i]) by {
            if i < before.len() {
                assert(after[i] == before[i]);
                let k = choose|k: int| 0 <= k < rest.len() && rest[k] == before[i];
                assert(s[k] == after[i]);
            } else {
                assert(s[s.len() - 1] == after[i]);
            }
        }
        assert forall|i: int, j: int| 0 <= i < j < after.len() implies (#[trigger] after[i]).0 != (
        #[trigger] after[j]).0 by {
            assert(after[i] == before[i]);
            if j < before.len() {
                assert(after[j] == before[j]);
            } else {
                let k = choose|k: int| 0 <= k < rest.len() && rest[k] == before[i];
                assert(entry_names(rest)[k] == before[i].0);
            }
        }
    }
}

proof fn lemma_target_entries(
    monitors: Seq<MonitorModel>,
    pairs: Seq<MonitorPair>,
    i: int,
    name: Seq<char>,
)
    requires
        0 <= i < pairs.len(),
        layout_snapshot::has_workspace(monitors[pairs[i].0], name),
    ensures
        entry_names(target_entries(monitors, pairs)).contains(name),
    decreases pairs.len(),
{
    let rest = pairs.drop_last();
    let before = target_entries(monitors, rest);
    let mine = monitors[pairs.last().0].workspaces.map_values(
        |w: WorkspaceModel| (w.name, pairs.last().1),
    );
    let all = target_entries(monitors, pairs);
    if i < rest.len() {
        assert(rest[i] == pairs[i]);
        lemma_target_entries(monitors, rest, i, name);
        let k = choose|k: int| 0 <= k < before.len() && entry_names(before)[k] == name;
        assert(entry_names(all)[k] == name);
    } else {
        let j = choose|j: int|
            0 <= j < monitors[pairs[i].0].workspaces.len()
                && #[trigger] monitors[pairs[i].0].workspaces[j].name == name;
        assert(mine[j].0 == name);
        assert(entry_names(all)[before.len() + j] == name);
    }
}

/// Every workspace of a matched monitor is brought to a monitor, whether or not
/// it has windows, and no workspace is brought to two.
pub proof fn law_every_workspace_has_one_target(
    monitors: Seq<MonitorModel>,
    pairs: Seq<MonitorPair>,
    i: int,
    name: Seq<char>,
)
    requires
        0 <= i < pairs.len(),
        layout_snapshot::has_workspace(monitors[pairs[i].0], name),
    ensures
        ({
            let targets = first_entries(target_entries(monitors, pairs));
            &&& entry_names(targets).contains(name)
            &&& forall|a: int, b: int|
                0 <= a < b < targets.len() ==> (#[trigger] targets[a]).0 != (
                #[trigger] targets[b]).0
        }),
{
    let entries = target_entries(monitors, pairs);
    lemma_target_entries(monitors, pairs, i, name);
    lemma_first_entries(entries);
    let k = choose|k: int| 0 <= k < entries.len() && entry_names(entries)[k] == name;
    assert(entries[k].0 == name);
    assert(entry_names(first_entries(entries)).contains(entries[k].0));
}

/// Whether the snapshot monitor of the pair at `i` is the first of the matched ones
/// that has a workspace called `name`.
pub open spec fn is_first_home(
    monitors: Seq<MonitorModel>,
    pairs: Seq<MonitorPair>,
    name: Seq<char>,
    i: int,
) -> bool {
    &&& 0 <= i < pairs.len()
    &&& layout_snapshot::has_workspace(monitors[pairs[i].0], name)
    &&& forall|j: int|
        0 <= j < i ==> !layout_snapshot::has_workspace(monitors[(#[trigger] pairs[j]).0], name)
}

/// Whether the entry at `k` comes from the pair at `i`, and the name of every
/// earlier pair with such a workspace is entered before it.
spec fn comes_from(
    monitors: Seq<MonitorModel>,
    pairs: Seq<MonitorPair>,
    entries: Seq<(Seq<char>, int)>,
    k: int,
    i: int,
) -> bool {
    &&& 0 <= i < pairs.len()
    &&& entries[k].1 == pairs[i].1
    &&& layout_snapshot::has_workspace(monitors[pairs[i].0], entries[k].0)
    &&& forall|j: int|
        0 <= j < i && layout_snapshot::has_workspace(
            monitors[(#[trigger] pairs[j]).0],
            entries[k].0,
        ) ==> entry_names(entries.take(k)).contains(entries[k].0)
}

proof fn lemma_entries_have_origins(
    monitors: Seq<MonitorModel>,
    pairs: Seq<MonitorPair>,
    k: int,
) -> (i: int)
    requires
        0 <= k < target_entries(monitors, pairs).len(),
    ensures
        comes_from(monitors, pairs, target_entries(monitors, pairs), k, i),
    decreases pairs.len(),
{
    let rest = pairs.drop_last();
    let before = target_entries(monitors, rest);
    let all = target_entries(monitors, pairs);
    let last = pairs.len() - 1;
    if k < before.len() {
        let i = lemma_entries_have_origins(monitors, rest, k);
        assert(all.take(k) =~= before.take(k));
        assert(all[k] == before[k]);
        assert forall|j: int|
            0 <= j < i && layout_snapshot::has_workspace(
                monitors[(#[trigger] pairs[j]).0],
                all[k].0,
            ) implies entry_names(all.take(k)).contains(all[k].0) by {
            assert(rest[j] == pairs[j]);
        }
        i
    } else {
        let name = all[k].0;
        let at = k - before.len();
        assert(monitors[pairs[last].0].workspaces[at].name == name);
        assert forall|j: int|
            0 <= j < last && layout_snapshot::has_workspace(
                monitors[(#[trigger] pairs[j]).0],
                name,
            ) implies entry_names(all.take(k)).contains(name) by {
            assert(rest[j] == pairs[j]);
            lemma_target_entries(monitors, rest, j, name);
            let n = choose|n: int| 0 <= n < before.len() && entry_names(before)[n] == name;
            assert(entry_names(all.take(k))[n] == name);
        }
        last
    }
}

/// The first entry of a name is preceded by no other of that name.
proof fn lemma_first_entry_is_first(s: Seq<(Seq<char>, int)>, n: int) -> (k: int)
    requires
        0 <= n < first_entries(s).len(),
    ensures
        0 <= k < s.len(),
        s[k] == first_entries(s)[n],
        !entry_names(s.take(k)).contains(s[k].0),
    decreases s.len(),
{
    let rest = s.drop_last();
    let before = first_entries(rest);
    if n < before.len() {
        let k = lemma_first_entry_is_first(rest, n);
        assert(rest.take(k) =~= s.take(k));
        k
    } else {
        assert(s.take(s.len() - 1) =~= rest);
        s.len() - 1
    }
}

/// A workspace is brought to the desktop monitor that matched its saved monitor.
/// Where several matched monitors have a workspace of that name, the first of them
/// decides. Nothing else is brought anywhere.
pub proof fn law_workspaces_go_to_matched_monitors(
    monitors: Seq<MonitorModel>,
    pairs: Seq<MonitorPair>,
    name: Seq<char>,
    to: int,
)
    ensures
        first_entries(target_entries(monitors, pairs)).contains((name, to)) <==> exists|i: int|
            #[trigger] is_first_home(monitors, pairs, name, i) && pairs[i].1 == to,
{
    let entries = target_entries(monitors, pairs);
    let targets = first_entries(entries);
    if targets.contains((name, to)) {
        let n = choose|n: int| 0 <= n < targets.len() && targets[n] == (name, to);
        let i = lemma_target_has_home(monitors, pairs, n);
        assert(is_first_home(monitors, pairs, name, i) && pairs[i].1 == to);
    }
    if exists|i: int| #[trigger] is_first_home(monitors, pairs, name, i) && pairs[i].1 == to {
        let i = choose|i: int| #[trigger]
            is_first_home(monitors, pairs, name, i) && pairs[i].1 == to;
        law_every_workspace_has_one_target(monitors, pairs, i, name);
        let n = choose|n: int| 0 <= n < targets.len() && entry_names(targets)[n] == name;
        let j = lemma_target_has_home(monitors, pairs, n);
        assert(targets[n].0 == name);
        if i < j {
            assert(!layout_snapshot::has_workspace(monitors[pairs[i].0], name));
        }
        if j < i {
            assert(!layout_snapshot::has_workspace(monitors[pairs[j].0], name));
        }
        assert(targets[n] == (name, to));
    }
}

proof fn lemma_target_has_home(
    monitors: Seq<MonitorModel>,
    pairs: Seq<MonitorPair>,
    n: int,
) -> (i: int)
    requires
        0 <= n < first_entries(target_entries(monitors, pairs)).len(),
    ensures
        ({
            let target = first_entries(target_entries(monitors, pairs))[n];
            is_first_home(monitors, pairs, target.0, i) && pairs[i].1 == target.1
        }),
{
    let entries = target_entries(monitors, pairs);
    let k = lemma_first_entry_is_first(entries, n);
    lemma_entries_have_origins(monitors, pairs, k)
}

/// In a plan every workspace target is a monitor of the desktop, and it is the one
/// that matched a saved monitor with a workspace of that name.
pub proof fn law_planned_targets_are_matched(
    snapshot: SnapshotModel,
    monitors: Seq<LiveMonitor>,
    windows: Seq<LiveWindow>,
    plan: RestorePlan,
    n: int,
)
    requires
        is_restore_plan(snapshot, monitors, windows, plan),
        0 <= n < plan.workspace_targets@.len(),
    ensures
        plan.workspace_targets@[n].monitor < monitors.len(),
        exists|i: int|
            0 <= i < plan.monitors@.len() && (#[trigger] plan.monitors@[i]).1
                == plan.workspace_targets@[n].monitor && plan.monitors@[i].0 < snapshot.monitors.len()
                && layout_snapshot::has_workspace(
                snapshot.monitors[plan.monitors@[i].0 as int],
                plan.workspace_targets@[n].workspace_name@,
            ),
{
    let pairs = monitor_match::monitor_pairs(snapshot.monitors, monitors);
    let targets = first_entries(target_entries(snapshot.monitors, pairs));
    assert(target_views(plan.workspace_targets@)[n] == targets[n]);
    let i = lemma_target_has_home(snapshot.monitors, pairs, n);
    monitor_match::law_no_monitor_is_matched_twice(snapshot.monitors, monitors);
    assert(monitor_match::index_views(plan.monitors@)[i] == pairs[i]);
    assert(plan.monitors@[i].1 == plan.workspace_targets@[n].monitor);
}

/// What is focused in the end: for each matched monitor that had a focused
/// workspace, that workspace on the desktop monitor that matched.
pub proof fn law_focus_follows_matched_monitors(
    monitors: Seq<MonitorModel>,
    pairs: Seq<MonitorPair>,
    name: Seq<char>,
    to: int,
)
    ensures
        focus_entries(monitors, pairs).contains((name, to)) <==> exists|i: int|
            0 <= i < pairs.len() && monitors[(#[trigger] pairs[i]).0].focused_workspace_name == Some(
                name,
            ) && pairs[i].1 == to,
        focus_entries(monitors, pairs).len() <= pairs.len(),
    decreases pairs.len(),
{
    let all = focus_entries(monitors, pairs);
    if pairs.len() > 0 {
        let rest = pairs.drop_last();
        let last = pairs.len() - 1;
        let before = focus_entries(monitors, rest);
        law_focus_follows_matched_monitors(monitors, rest, name, to);
        if all.contains((name, to)) {
            let n = choose|n: int| 0 <= n < all.len() && all[n] == (name, to);
            if n < before.len() {
                assert(before[n] == all[n]);
                let i = choose|i: int|
                    0 <= i < rest.len() && monitors[(
                    #[trigger] rest[i]).0].focused_workspace_name == Some(name) && rest[i].1 == to;
                assert(pairs[i] == rest[i]);
            } else {
                assert(pairs[last].1 == to);
            }
        }
        if exists|i: int|
            0 <= i < pairs.len() && monitors[(#[trigger] pairs[i]).0].focused_workspace_name == Some(
                name,
            ) && pairs[i].1 == to {
            let i = choose|i: int|
                0 <= i < pairs.len() && monitors[(#[trigger] pairs[i]).0].focused_workspace_name
                    == Some(name) && pairs[i].1 == to;
            if i < last {
                assert(rest[i] == pairs[i]);
                let n = choose|n: int| 0 <= n < before.len() && before[n] == (name, to);
                assert(all[n] == (name, to));
            } else {
                assert(all[before.len() as int] == (name, to));
            }
        }
    }
}

/// The bounds for a workspace with one target are those of the monitor that the
/// target names.
pub proof fn law_bounds_are_those_of_the_target(
    targets: Seq<(Seq<char>, int)>,
    monitors: Seq<LiveMonitor>,
    n: int,
)
    requires
        0 <= n < targets.len(),
        0 <= targets[n].1 < monitors.len(),
        forall|i: int, j: int|
            0 <= i < j < targets.len() ==> (#[trigger] targets[i]).0 != (#[trigger] targets[j]).0,
    ensures
        bounds_of_target(targets, monitors, targets[n].0) == Some(monitors[targets[n].1].bounds),
    decreases targets.len(),
{
    let last = targets.len() - 1;
    if n < last {
        let rest = targets.drop_last();
        assert(targets[n].0 != targets[last].0);
        assert forall|i: int, j: int| 0 <= i < j < rest.len() implies (#[trigger] rest[i]).0 != (
        #[trigger] rest[j]).0 by {
            assert(targets[i].0 != targets[j].0);
        }
        law_bounds_are_those_of_the_target(rest, monitors, n);
    }
}

/// Whether a saved window was recorded with the properties that a running window
/// reports. A class name or title that is empty is not recorded.
pub open spec fn is_recorded_as(leaf: PlacedLeaf, w: LiveWindow) -> bool {
    let i = leaf.window.identity;
    &&& i.process_name == w.process_name@
    &&& i.process_path == match w.process_path {
        Some(path) => Some(path@),
        None => None,
    }
    &&& i.class_name == if w.class_name@.len() > 0 {
        Some(w.class_name@)
    } else {
        None
    }
    &&& i.title_hint == if w.title@.len() > 0 {
        Some(w.title@)
    } else {
        None
    }
}

/// Whether two running windows can be told apart by what is recorded of them: by
/// their titles as compared, their classes, their process names, or the paths of
/// their programs. What `a` does not have tells nothing.
pub open spec fn is_unlike(a: LiveWindow, b: LiveWindow) -> bool {
    ||| a.title@.len() > 0 && layout_snapshot_matcher::normalized_title(a.title@).len() > 0 && (
    b.title@.len() == 0 || layout_snapshot_matcher::normalized_title(a.title@)
        != layout_snapshot_matcher::normalized_title(b.title@))
    ||| a.class_name@.len() > 0 && a.class_name@ != b.class_name@
    ||| !text::same_ignoring_ascii_case(a.process_name@, b.process_name@)
    ||| a.process_path is Some && (b.process_path is None
        || !layout_snapshot_matcher::same_program_path(a.process_path->0@, b.process_path->0@))
}

/// A window that still runs as it was saved takes its own place: where the saved
/// windows are those that run, in whatever order, and one of them is unlike all
/// others, that one is paired with itself.
pub proof fn law_unchanged_window_is_restored(
    leaves: Seq<PlacedLeaf>,
    live: Seq<LiveWindow>,
    of: Seq<int>,
    s: int,
)
    requires
        leaves.len() == live.len() == of.len(),
        leaves.len() <= usize::MAX,
        window_matches(leaves, live).len() <= usize::MAX,
        forall|i: int|
            0 <= i < of.len() ==> 0 <= #[trigger] of[i] < live.len() && is_recorded_as(
                leaves[i],
                live[of[i]],
            ),
        forall|i: int, j: int|
            0 <= i < j < of.len() ==> #[trigger] of[i] != #[trigger] of[j],
        forall|i: int, j: int|
            0 <= i < j < leaves.len() ==> (#[trigger] leaves[i]).key != (#[trigger] leaves[j]).key,
        0 <= s < leaves.len(),
        forall|l: int|
            0 <= l < live.len() && l != of[s] ==> is_unlike(live[of[s]], #[trigger] live[l]),
    ensures
        restore_pairs(leaves, live).contains(
            RestorePair { leaf: s as usize, live_id: live[of[s]].id },
        ),
{
    let saved = leaf_matchables(leaves);
    let running = running_matchables(live);
    let l = of[s];
    let own = running[l].identity;
    assert(saved[s].identity == own);
    layout_snapshot_matcher::law_identical_windows_score_in_full(own);
    assert forall|k: int| 0 <= k < running.len() && k != l implies layout_snapshot_matcher::score(
        (#[trigger] running[k]).identity,
        saved[s].identity,
    ) < layout_snapshot_matcher::score(own, saved[s].identity) by {
        assert(is_unlike(live[l], live[k]));
        assert(layout_snapshot_matcher::differs(own, running[k].identity));
        layout_snapshot_matcher::law_difference_costs_points(running[k].identity, own);
    }
    assert forall|k: int| 0 <= k < saved.len() && k != s implies layout_snapshot_matcher::score(
        own,
        (#[trigger] saved[k]).identity,
    ) < layout_snapshot_matcher::score(own, saved[s].identity) by {
        let o = of[k];
        if k < s {
            assert(of[k] != of[s]);
        } else {
            assert(of[s] != of[k]);
        }
        assert(is_recorded_as(leaves[k], live[of[k]]));
        assert(saved[k].identity == running[o].identity);
        assert(is_unlike(live[l], live[o]));
        layout_snapshot_matcher::law_difference_costs_points(own, running[o].identity);
    }
    layout_snapshot_matcher::law_best_partners_are_matched(saved, running, s, l);
    lemma_match_is_restored(leaves, live, s, l);
}

/// A match is carried out, where the keys of saved windows differ.
proof fn lemma_match_is_restored(leaves: Seq<PlacedLeaf>, live: Seq<LiveWindow>, s: int, l: int)
    requires
        leaves.len() <= usize::MAX,
        window_matches(leaves, live).len() <= usize::MAX,
        0 <= s < leaves.len(),
        0 <= l < live.len(),
        forall|i: int, j: int|
            0 <= i < j < leaves.len() ==> (#[trigger] leaves[i]).key != (#[trigger] leaves[j]).key,
        window_matches(leaves, live).contains((s, l)),
    ensures
        restore_pairs(leaves, live).contains(
            RestorePair { leaf: s as usize, live_id: live[l].id },
        ),
{
    let found = window_matches(leaves, live);
    let ranks = match_ranks(leaves, live);
    law_rank_order_exists(ranks);
    let order = rank_order(ranks);
    let at = choose|at: int| 0 <= at < found.len() && found[at] == (s, l);
    let n = lemma_rank_order_lists_all(ranks, order, at);
    lemma_leaf_with_key(leaves, s);
    assert(restore_pairs(leaves, live)[n] == restore_pair(leaves, live, found[at]));
}

proof fn lemma_leaf_with_key(leaves: Seq<PlacedLeaf>, s: int)
    requires
        0 <= s < leaves.len(),
        forall|i: int, j: int|
            0 <= i < j < leaves.len() ==> (#[trigger] leaves[i]).key != (#[trigger] leaves[j]).key,
    ensures
        leaf_with_key(leaves, leaves[s].key) == s,
    decreases leaves.len(),
{
    let last = leaves.len() - 1;
    if s < last {
        let rest = leaves.drop_last();
        assert(leaves[s].key != leaves[last].key);
        assert forall|i: int, j: int| 0 <= i < j < rest.len() implies (#[trigger] rest[i]).key != (
        #[trigger] rest[j]).key by {
            assert(leaves[i].key != leaves[j].key);
        }
        lemma_leaf_with_key(rest, s);
    }
}

/// An order by rank lists every item.
proof fn lemma_rank_order_lists_all(ranks: Seq<RestoreRank>, order: Seq<usize>, at: int) -> (n: int)
    requires
        is_rank_order(ranks, order),
        0 <= at < ranks.len(),
    ensures
        0 <= n < order.len(),
        order[n] == at,
{
    let items = order.map_values(|i: usize| i as int);
    assert forall|i: int, j: int| 0 <= i < items.len() && 0 <= j < items.len() && i != j implies items[i]
        != items[j] by {
        let (x, y) = if i < j {
            (i, j)
        } else {
            (j, i)
        };
        assert(goes_before(ranks, order[x] as int, order[y] as int));
        lemma_ranks_total(ranks[order[x] as int], ranks[order[x] as int]);
    }
    seqs::lemma_distinct_below_lists_all(items, ranks.len(), at)
}

/// A dry run matches as a restore does: the same windows are paired, with the same
/// scores, and each is shown where it is.
pub proof fn law_dry_run_matches_as_a_restore(leaves: Seq<PlacedLeaf>, live: Seq<LiveWindow>)
    ensures
        ({
            let saved = leaves.map_values(|l: PlacedLeaf| layout_snapshot_matcher::match_leaf(l));
            let running = live.map_values(|w: LiveWindow| running_match_window(w));
            &&& layout_snapshot_matcher::report_matches(saved, running)
                == layout_snapshot_matcher::scored_matches(
                leaf_matchables(leaves),
                running_matchables(live),
            )
            &&& forall|i: int|
                0 <= i < live.len() ==> (#[trigger] running[i]).workspace == match live[i].workspace {
                    Some(name) => Some(name@),
                    None => None,
                }
            &&& forall|i: int|
                0 <= i < leaves.len() ==> (#[trigger] saved[i]).workspace == Some(
                    leaves[i].workspace_name,
                )
        }),
{
    let saved = leaves.map_values(|l: PlacedLeaf| layout_snapshot_matcher::match_leaf(l));
    let running = live.map_values(|w: LiveWindow| running_match_window(w));
    assert(saved.map_values(|w: MatchWindowModel| layout_snapshot_matcher::as_matchable(w))
        =~= leaf_matchables(leaves));
    assert(running.map_values(|w: MatchWindowModel| layout_snapshot_matcher::as_matchable(w))
        =~= running_matchables(live));
}

/// Windows are restored workspace by workspace, and within a workspace in the order of
/// the saved tree.
pub proof fn law_windows_are_restored_in_order(
    leaves: Seq<PlacedLeaf>,
    live: Seq<LiveWindow>,
    i: int,
    j: int,
)
    requires
        window_matches(leaves, live).len() <= usize::MAX,
        0 <= i < j < restore_pairs(leaves, live).len(),
    ensures
        ({
            let a = leaves[restore_pairs(leaves, live)[i].leaf as int];
            let b = leaves[restore_pairs(leaves, live)[j].leaf as int];
            &&& !text::sorts_before(b.workspace_name, a.workspace_name)
            &&& a.workspace_name == b.workspace_name ==> a.order_index <= b.order_index
        }),
{
    let ranks = match_ranks(leaves, live);
    law_rank_order_exists(ranks);
    let order = rank_order(ranks);
    assert(goes_before(ranks, order[i] as int, order[j] as int));
    lemma_ranks_total(ranks[order[i] as int], ranks[order[j] as int]);
    lemma_ranks_total(ranks[order[j] as int], ranks[order[i] as int]);
    text::law_text_order_is_total(
        ranks[order[i] as int].workspace_name,
        ranks[order[j] as int].workspace_name,
    );
    text::law_text_order_is_total(
        ranks[order[j] as int].workspace_name,
        ranks[order[i] as int].workspace_name,
    );
}

/// No saved window is left out of a restore because its monitor is gone: the windows of
/// every workspace of every saved monitor are looked at, where devices and names tell
/// the workspaces apart.
pub proof fn law_unmatched_monitors_keep_their_windows(
    monitors: Seq<MonitorModel>,
    pairs: Seq<MonitorPair>,
    m: int,
    j: int,
    k: int,
)
    requires
        monitors.len() <= usize::MAX,
        forall|i: int| 0 <= i < pairs.len() ==> 0 <= (#[trigger] pairs[i]).0 < monitors.len(),
        0 <= m < monitors.len(),
        0 <= j < monitors[m].workspaces.len(),
        0 <= k < layout_snapshot::leaves(monitors[m].workspaces[j].root).len(),
        forall|a: int, b: int|
            0 <= a < monitors.len() && 0 <= b < monitors[a].workspaces.len() && (a != m || b != j)
                ==> monitors[a].device_name + "::"@ + (#[trigger] monitors[a].workspaces[b]).name
                != monitors[m].device_name + "::"@ + monitors[m].workspaces[j].name,
    ensures
        exists|n: int|
            0 <= n < restore_leaves(monitors, pairs).len() && ({
                let leaf = #[trigger] restore_leaves(monitors, pairs)[n];
                let saved = layout_snapshot::leaves(monitors[m].workspaces[j].root)[k];
                &&& leaf.local_id == saved.local_id
                &&& leaf.window == saved.window
                &&& leaf.workspace_name == monitors[m].workspaces[j].name
                &&& leaf.order_index == k
            }),
{
    let order = restore_monitor_order(pairs, monitors.len());
    assert forall|i: int| 0 <= i < order.len() implies #[trigger] order[i] < monitors.len() by {
        if i < pairs.len() {
            assert(order[i] == pairs[i].0 as usize);
        } else {
            assert(order[i] == (i - pairs.len()) as usize);
        }
    }
    assert(order[pairs.len() + m] == m as usize);
    snapshot_leaves::law_every_workspace_is_listed(monitors, order, pairs.len() + m, j);
    let list = snapshot_leaves::listed_workspaces(monitors, order);
    let w = monitors[m].workspaces[j];
    let n = choose|n: int|
        0 <= n < list.len() && (#[trigger] list[n]).workspace == w && list[n].device_name
            == monitors[m].device_name;
    let key = monitors[m].device_name + "::"@ + w.name;
    let first = lemma_first_with_key(list, key, n);
    lemma_listed_from(monitors, order, first);
    let (a, b) = choose|a: int, b: int|
        0 <= a < monitors.len() && 0 <= b < monitors[a].workspaces.len() && list[first].device_name
            == monitors[a].device_name && list[first].workspace
            == #[trigger] monitors[a].workspaces[b];
    assert(a == m && b == j);
    snapshot_leaves::law_every_window_is_listed(list, first, k);
    let all = snapshot_leaves::collected_leaves(list);
    assert(all == restore_leaves(monitors, pairs));
    let at = choose|at: int|
        0 <= at < all.len() && ({
            let leaf = #[trigger] all[at];
            let saved = layout_snapshot::leaves(list[first].workspace.root)[k];
            &&& leaf.local_id == saved.local_id
            &&& leaf.window == saved.window
            &&& leaf.workspace_name == list[first].workspace.name
            &&& leaf.order_index == k
        });
    assert(restore_leaves(monitors, pairs)[at] == all[at]);
}

proof fn lemma_first_with_key(
    list: Seq<snapshot_leaves::ListedWorkspace>,
    key: Seq<char>,
    n: int,
) -> (first: int)
    requires
        0 <= n < list.len(),
        list[n].device_name + "::"@ + list[n].workspace.name == key,
    ensures
        0 <= first <= n,
        list[first].device_name + "::"@ + list[first].workspace.name == key,
        forall|j: int|
            0 <= j < first ==> (#[trigger] list[j]).device_name + "::"@ + list[j].workspace.name
                != key,
    decreases n,
{
    if exists|j: int|
        0 <= j < n && (#[trigger] list[j]).device_name + "::"@ + list[j].workspace.name == key {
        let j = choose|j: int|
            0 <= j < n && (#[trigger] list[j]).device_name + "::"@ + list[j].workspace.name == key;
        lemma_first_with_key(list, key, j)
    } else {
        n
    }
}

proof fn lemma_listed_from(monitors: Seq<MonitorModel>, order: Seq<usize>, n: int)
    requires
        forall|i: int| 0 <= i < order.len() ==> #[trigger] order[i] < monitors.len(),
        0 <= n < snapshot_leaves::listed_workspaces(monitors, order).len(),
    ensures
        exists|a: int, b: int|
            0 <= a < monitors.len() && 0 <= b < monitors[a].workspaces.len()
                && snapshot_leaves::listed_workspaces(monitors, order)[n].device_name
                == monitors[a].device_name && snapshot_leaves::listed_workspaces(
                monitors,
                order,
            )[n].workspace == #[trigger] monitors[a].workspaces[b],
    decreases order.len(),
{
    let rest = order.drop_last();
    let before = snapshot_leaves::listed_workspaces(monitors, rest);
    if n < before.len() {
        assert forall|i: int| 0 <= i < rest.len() implies #[trigger] rest[i] < monitors.len() by {
            assert(rest[i] == order[i]);
        }
        lemma_listed_from(monitors, rest, n);
    } else {
        let a = order[order.len() - 1] as int;
        let b = n - before.len();
        assert(order[order.len() - 1] < monitors.len());
        assert(snapshot_leaves::listed_workspaces(monitors, order)[n].workspace
            == monitors[a].workspaces[b]);
    }
}

} // verus!
