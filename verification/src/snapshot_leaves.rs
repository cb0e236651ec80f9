//! The windows of a snapshot with their place in it.
//!
//! Windows are listed workspace by workspace, in depth-first order. Where two
//! monitors of the same device name have a workspace of the same name, only the
//! first of them is listed.
use crate::layout_snapshot;
use crate::layout_snapshot::{LeafModel, MonitorModel, SnapshotMonitor, SnapshotNode};
use crate::layout_snapshot::{SnapshotNodeKind, SnapshotWindow, WindowModel, WorkspaceModel};
use crate::seqs;
use crate::text;
use vstd::hash_set::StringHashSet;
use vstd::prelude::*;
use vstd::string::StringExecFns;

verus! {

/// A window of a snapshot.
#[derive(Debug, PartialEq, Eq)]
pub struct SnapshotLeaf {
    /// `workspace::local id::position`.
    pub key: String,
    pub local_id: String,
    pub window: SnapshotWindow,
    pub workspace_name: String,
    /// Position among the windows of the workspace, in depth-first order.
    pub order_index: usize,
}

/// What a [`SnapshotLeaf`] says.
#[verifier::ext_equal]
pub struct PlacedLeaf {
    pub key: Seq<char>,
    pub local_id: Seq<char>,
    pub window: WindowModel,
    pub workspace_name: Seq<char>,
    pub order_index: nat,
}

impl View for SnapshotLeaf {
    type V = PlacedLeaf;

    open spec fn view(&self) -> PlacedLeaf {
        PlacedLeaf {
            key: self.key@,
            local_id: self.local_id@,
            window: self.window@,
            workspace_name: self.workspace_name@,
            order_index: self.order_index as nat,
        }
    }
}

/// The models of listed windows.
pub open spec fn leaf_views(s: Seq<SnapshotLeaf>) -> Seq<PlacedLeaf> {
    s.map_values(|l: SnapshotLeaf| l@)
}

/// The key of a window: where it is in the snapshot.
pub open spec fn leaf_key(workspace: Seq<char>, local_id: Seq<char>, order: nat) -> Seq<char> {
    workspace + "::"@ + local_id + "::"@ + text::decimal(order)
}

pub open spec fn placed_leaf(workspace: Seq<char>, leaf: LeafModel, order: nat) -> PlacedLeaf {
    PlacedLeaf {
        key: leaf_key(workspace, leaf.local_id, order),
        local_id: leaf.local_id,
        window: leaf.window,
        workspace_name: workspace,
        order_index: order,
    }
}

/// Windows of a workspace, counted from `start`.
pub open spec fn placed_leaves(workspace: Seq<char>, leaves: Seq<LeafModel>, start: nat) -> Seq<
    PlacedLeaf,
> {
    Seq::new(leaves.len(), |i: int| placed_leaf(workspace, leaves[i], (start + i) as nat))
}

/// The windows of a workspace.
pub open spec fn workspace_leaves(w: WorkspaceModel) -> Seq<PlacedLeaf> {
    placed_leaves(w.name, layout_snapshot::leaves(w.root), 0)
}

/// A workspace and the device name of its monitor.
#[verifier::ext_equal]
pub struct ListedWorkspace {
    pub device_name: Seq<char>,
    pub workspace: WorkspaceModel,
}

/// What two listed workspaces are told apart by.
pub open spec fn workspace_key(w: ListedWorkspace) -> Seq<char> {
    w.device_name + "::"@ + w.workspace.name
}

/// The workspaces of a monitor.
pub open spec fn monitor_workspaces(m: MonitorModel) -> Seq<ListedWorkspace> {
    m.workspaces.map_values(
        |w: WorkspaceModel| ListedWorkspace { device_name: m.device_name, workspace: w },
    )
}

/// The workspaces of the monitors with the given indices, in that order.
pub open spec fn listed_workspaces(monitors: Seq<MonitorModel>, order: Seq<usize>) -> Seq<
    ListedWorkspace,
>
    decreases order.len(),
{
    if order.len() == 0 {
        Seq::empty()
    } else {
        listed_workspaces(monitors, order.drop_last()) + monitor_workspaces(
            monitors[order.last() as int],
        )
    }
}

pub open spec fn workspace_keys(list: Seq<ListedWorkspace>) -> Seq<Seq<char>> {
    list.map_values(|w: ListedWorkspace| workspace_key(w))
}

/// The windows of the listed workspaces, each workspace counted once.
pub open spec fn collected_leaves(list: Seq<ListedWorkspace>) -> Seq<PlacedLeaf>
    decreases list.len(),
{
    if list.len() == 0 {
        Seq::empty()
    } else {
        let before = list.drop_last();
        collected_leaves(before) + if workspace_keys(before).contains(workspace_key(list.last())) {
            Seq::empty()
        } else {
            workspace_leaves(list.last().workspace)
        }
    }
}

fn leaf_key_string(workspace: &str, local_id: &str, order: usize) -> (r: String)
    ensures
        r@ == leaf_key(workspace@, local_id@, order as nat),
{
    let mut out = workspace.to_owned();
    out.append("::");
    out.append(local_id);
    out.append("::");
    text::push_decimal(&mut out, order as u64);
    out
}

fn workspace_key_string(device_name: &str, workspace: &str) -> (r: String)
    ensures
        r@ == device_name@ + "::"@ + workspace@,
{
    let mut out = device_name.to_owned();
    out.append("::");
    out.append(workspace);
    out
}

fn collect_node_windows(
    node: &SnapshotNode,
    workspace_name: &str,
    order: &mut usize,
    out: &mut Vec<SnapshotLeaf>,
)
    requires
        *old(order) <= old(out)@.len(),
    ensures
        leaf_views(final(out)@) == leaf_views(old(out)@) + placed_leaves(
            workspace_name@,
            layout_snapshot::leaves(node@),
            *old(order) as nat,
        ),
        *final(order) == *old(order) + layout_snapshot::leaves(node@).len(),
        *final(order) <= final(out)@.len(),
    decreases node,
{
    match node.kind {
        SnapshotNodeKind::Window => {
            match &node.window {
                Some(window) => {
                    let ghost start = *order as nat;
                    let ghost before = out@;
                    let leaf = SnapshotLeaf {
                        key: leaf_key_string(workspace_name, node.local_id.as_str(), *order),
                        local_id: node.local_id.clone(),
                        window: window.clone(),
                        workspace_name: workspace_name.to_owned(),
                        order_index: *order,
                    };
                    out.push(leaf);
                    assert(out@.len() == out.len());
                    *order = *order + 1;
                    assert(leaf_views(out@) =~= leaf_views(before).push(leaf@));
                    assert(leaf@ =~= placed_leaf(
                        workspace_name@,
                        layout_snapshot::leaves(node@)[0],
                        start,
                    ));
                    assert(leaf_views(out@) =~= leaf_views(before) + placed_leaves(
                        workspace_name@,
                        layout_snapshot::leaves(node@),
                        start,
                    ));
                },
                None => {
                    assert(leaf_views(out@) =~= leaf_views(out@) + placed_leaves(
                        workspace_name@,
                        layout_snapshot::leaves(node@),
                        *order as nat,
                    ));
                },
            }
        },
        SnapshotNodeKind::Split => {
            match &node.children {
                Some(children) => {
                    assert(decreases_to!(node => node.children));
                    assert(decreases_to!(node.children => node.children->0));
                    collect_nodes_windows(children, workspace_name, order, out);
                },
                None => {
                    assert(leaf_views(out@) =~= leaf_views(out@) + placed_leaves(
                        workspace_name@,
                        layout_snapshot::leaves(node@),
                        *order as nat,
                    ));
                },
            }
        },
    }
}

fn collect_nodes_windows(
    nodes: &Vec<SnapshotNode>,
    workspace_name: &str,
    order: &mut usize,
    out: &mut Vec<SnapshotLeaf>,
)
    requires
        *old(order) <= old(out)@.len(),
    ensures
        leaf_views(final(out)@) == leaf_views(old(out)@) + placed_leaves(
            workspace_name@,
            layout_snapshot::leaves_all(layout_snapshot::node_views(nodes@)),
            *old(order) as nat,
        ),
        *final(order) == *old(order) + layout_snapshot::leaves_all(
            layout_snapshot::node_views(nodes@),
        ).len(),
        *final(order) <= final(out)@.len(),
    decreases nodes,
{
    let ghost all = layout_snapshot::node_views(nodes@);
    let ghost start = *order as nat;
    let ghost first = leaf_views(out@);
    let mut i: usize = 0;
    proof {
        layout_snapshot::lemma_node_views(nodes@);
        assert(all.take(0).len() == 0);
        assert(first =~= first + placed_leaves(
            workspace_name@,
            layout_snapshot::leaves_all(all.take(0)),
            start,
        ));
    }
    while i < nodes.len()
        invariant
            i <= nodes@.len(),
            all == layout_snapshot::node_views(nodes@),
            all.len() == nodes@.len(),
            forall|k: int| 0 <= k < nodes@.len() ==> #[trigger] all[k] == nodes@[k]@,
            *order == start + layout_snapshot::leaves_all(all.take(i as int)).len(),
            *order <= out@.len(),
            leaf_views(out@) == first + placed_leaves(
                workspace_name@,
                layout_snapshot::leaves_all(all.take(i as int)),
                start,
            ),
        decreases nodes@.len() - i,
    {
        let ghost here = layout_snapshot::leaves_all(all.take(i as int));
        let ghost more = layout_snapshot::leaves(all[i as int]);
        proof {
            assert(all.take(i + 1).drop_last() =~= all.take(i as int));
            assert(all.take(i + 1).last() == all[i as int]);
            assert(layout_snapshot::leaves_all(all.take(i + 1)) == here + more);
            assert(decreases_to!(nodes => nodes@));
            assert(decreases_to!(nodes@ => nodes@[i as int]));
        }
        collect_node_windows(&nodes[i], workspace_name, order, out);
        proof {
            assert(placed_leaves(workspace_name@, here, start) + placed_leaves(
                workspace_name@,
                more,
                start + here.len(),
            ) =~= placed_leaves(workspace_name@, here + more, start));
            assert(leaf_views(out@) =~= first + placed_leaves(
                workspace_name@,
                here + more,
                start,
            ));
        }
        i = i + 1;
    }
    assert(all.take(i as int) =~= all);
}

/// The windows of the monitors with the given indices, in that order. A
/// workspace that was listed before is not listed again.
pub fn collect_leaves(monitors: &[SnapshotMonitor], order: &[usize]) -> (r: Vec<SnapshotLeaf>)
    requires
        forall|i: int| 0 <= i < order@.len() ==> #[trigger] order@[i] < monitors@.len(),
    ensures
        leaf_views(r@) == collected_leaves(
            listed_workspaces(layout_snapshot::monitor_views(monitors@), order@),
        ),
{
    let ghost mons = layout_snapshot::monitor_views(monitors@);
    let mut out: Vec<SnapshotLeaf> = Vec::new();
    let mut seen: StringHashSet = StringHashSet::new();
    let mut i: usize = 0;
    proof {
        assert(leaf_views(out@) =~= collected_leaves(listed_workspaces(mons, order@.take(0))));
        assert(seen@ =~= workspace_keys(listed_workspaces(mons, order@.take(0))).to_set());
    }
    while i < order.len()
        invariant
            i <= order@.len(),
            mons == layout_snapshot::monitor_views(monitors@),
            forall|k: int| 0 <= k < order@.len() ==> #[trigger] order@[k] < monitors@.len(),
            leaf_views(out@) == collected_leaves(listed_workspaces(mons, order@.take(i as int))),
            seen@ == workspace_keys(listed_workspaces(mons, order@.take(i as int))).to_set(),
        decreases order@.len() - i,
    {
        let at: usize = order[i];
        let ghost before = listed_workspaces(mons, order@.take(i as int));
        let ghost mine = monitor_workspaces(mons[at as int]);
        let mut j: usize = 0;
        proof {
            assert(order@.take(i + 1).drop_last() =~= order@.take(i as int));
            assert(listed_workspaces(mons, order@.take(i + 1)) == before + mine);
            assert(before + mine.take(0) =~= before);
            assert(mine.len() == monitors@[at as int].workspaces@.len());
        }
        while j < monitors[at].workspaces.len()
            invariant
                at < monitors@.len(),
                mons == layout_snapshot::monitor_views(monitors@),
                mine == monitor_workspaces(mons[at as int]),
                mine.len() == monitors@[at as int].workspaces@.len(),
                j <= mine.len(),
                leaf_views(out@) == collected_leaves(before + mine.take(j as int)),
                seen@ == workspace_keys(before + mine.take(j as int)).to_set(),
            decreases mine.len() - j,
        {
            let workspace = &monitors[at].workspaces[j];
            let ghost list = before + mine.take(j as int);
            let ghost next = before + mine.take(j + 1);
            let ghost entry = mine[j as int];
            proof {
                assert(entry == (ListedWorkspace {
                    device_name: monitors@[at as int].device_name@,
                    workspace: workspace@,
                }));
                assert(next.drop_last() =~= list);
                assert(next.last() == entry);
                assert(workspace_keys(next) =~= workspace_keys(list).push(workspace_key(entry)));
                seqs::lemma_to_set_push(workspace_keys(list), workspace_key(entry));
            }
            let key = workspace_key_string(
                monitors[at].device_name.as_str(),
                workspace.name.as_str(),
            );
            let ghost old_seen = seen@;
            let fresh = seen.insert(key);
            assert(old_seen.contains(workspace_key(entry)) <==> workspace_keys(list).contains(
                workspace_key(entry),
            ));
            if fresh {
                let mut position: usize = 0;
                collect_node_windows(
                    &workspace.root,
                    workspace.name.as_str(),
                    &mut position,
                    &mut out,
                );
            } else {
                assert(collected_leaves(list) + Seq::<PlacedLeaf>::empty() =~= collected_leaves(
                    list,
                ));
            }
            j = j + 1;
        }
        assert(mine.take(j as int) =~= mine);
        i = i + 1;
    }
    assert(order@.take(i as int) =~= order@);
    out
}

/// The indices of all monitors, in order.
pub open spec fn all_indices(count: nat) -> Seq<usize> {
    Seq::new(count, |i: int| i as usize)
}

/// The numbers below `count`, in order.
pub fn indices_below(count: usize) -> (r: Vec<usize>)
    ensures
        r@ == all_indices(count as nat),
{
    let mut out: Vec<usize> = Vec::new();
    let mut i: usize = 0;
    while i < count
        invariant
            i <= count,
            out@ == all_indices(i as nat),
        decreases count - i,
    {
        out.push(i);
        i = i + 1;
        assert(out@ =~= all_indices(i as nat));
    }
    out
}

/// Within a workspace the keys tell all windows apart: equal keys have the same
/// position and the same local id.
pub proof fn law_leaf_keys_differ_within_workspace(
    workspace: Seq<char>,
    id_a: Seq<char>,
    order_a: nat,
    id_b: Seq<char>,
    order_b: nat,
)
    requires
        leaf_key(workspace, id_a, order_a) == leaf_key(workspace, id_b, order_b),
    ensures
        order_a == order_b,
        id_a == id_b,
{
    reveal_strlit("::");
    let da = text::decimal(order_a);
    let db = text::decimal(order_b);
    let head_a = workspace + "::"@ + id_a + "::"@;
    let head_b = workspace + "::"@ + id_b + "::"@;
    let key = leaf_key(workspace, id_a, order_a);
    text::law_decimal_reads_back(order_a);
    text::law_decimal_reads_back(order_b);
    assert(key == head_a + da);
    assert(key == head_b + db);
    if da.len() < db.len() {
        let at = head_a.len() - 1;
        assert(key[at] == ':');
        assert(key[at] == db[at - head_b.len()]);
        assert(text::is_ascii_digit(db[at - head_b.len()]));
    }
    if db.len() < da.len() {
        let at = head_b.len() - 1;
        assert(key[at] == ':');
        assert(key[at] == da[at - head_a.len()]);
        assert(text::is_ascii_digit(da[at - head_a.len()]));
    }
    assert(da =~= key.subrange(head_a.len() as int, key.len() as int));
    assert(db =~= key.subrange(head_b.len() as int, key.len() as int));
    text::law_decimal_injective(order_a, order_b);
    let from = workspace.len() + 2;
    assert(id_a =~= key.subrange(from as int, head_a.len() - 2));
    assert(id_b =~= key.subrange(from as int, head_b.len() - 2));
}

/// A listing names every workspace once: listing the same monitors again adds
/// no window.
pub proof fn law_listing_again_adds_nothing(list: Seq<ListedWorkspace>, again: Seq<ListedWorkspace>)
    requires
        forall|i: int|
            0 <= i < again.len() ==> workspace_keys(list).contains(
                workspace_key(#[trigger] again[i]),
            ),
    ensures
        collected_leaves(list + again) == collected_leaves(list),
    decreases again.len(),
{
    if again.len() == 0 {
        assert(list + again =~= list);
    } else {
        let shorter = again.drop_last();
        assert forall|i: int| 0 <= i < shorter.len() implies workspace_keys(list).contains(
            workspace_key(#[trigger] shorter[i]),
        ) by {
            assert(shorter[i] == again[i]);
        }
        law_listing_again_adds_nothing(list, shorter);
        let whole = list + again;
        assert(whole.drop_last() =~= list + shorter);
        let key = workspace_key(whole.last());
        assert(workspace_keys(list).contains(workspace_key(again[again.len() - 1])));
        let i = choose|i: int| 0 <= i < list.len() && workspace_keys(list)[i] == key;
        assert(workspace_keys(list + shorter)[i] == key);
        assert(collected_leaves(whole) =~= collected_leaves(list));
    }
}

/// Every window of a listed workspace is listed, with its local id, its workspace and
/// its position among the windows of the workspace. Of workspaces that share a device
/// and a name the first counts.
pub proof fn law_every_window_is_listed(list: Seq<ListedWorkspace>, i: int, k: int)
    requires
        0 <= i < list.len(),
        forall|j: int|
            0 <= j < i ==> (#[trigger] list[j]).device_name + "::"@ + list[j].workspace.name
                != list[i].device_name + "::"@ + list[i].workspace.name,
        0 <= k < layout_snapshot::leaves(list[i].workspace.root).len(),
    ensures
        exists|n: int|
            0 <= n < collected_leaves(list).len() && ({
                let leaf = #[trigger] collected_leaves(list)[n];
                let saved = layout_snapshot::leaves(list[i].workspace.root)[k];
                &&& leaf.local_id == saved.local_id
                &&& leaf.window == saved.window
                &&& leaf.workspace_name == list[i].workspace.name
                &&& leaf.order_index == k
            }),
    decreases list.len(),
{
    let rest = list.drop_last();
    let before = collected_leaves(rest);
    let all = collected_leaves(list);
    if i < rest.len() {
        assert forall|j: int| 0 <= j < i implies (#[trigger] rest[j]).device_name + "::"@
            + rest[j].workspace.name != rest[i].device_name + "::"@ + rest[i].workspace.name by {
            assert(list[j].device_name + "::"@ + list[j].workspace.name != list[i].device_name
                + "::"@ + list[i].workspace.name);
        }
        law_every_window_is_listed(rest, i, k);
        let n = choose|n: int|
            0 <= n < before.len() && ({
                let leaf = #[trigger] before[n];
                let saved = layout_snapshot::leaves(rest[i].workspace.root)[k];
                &&& leaf.local_id == saved.local_id
                &&& leaf.window == saved.window
                &&& leaf.workspace_name == rest[i].workspace.name
                &&& leaf.order_index == k
            });
        assert(all[n] == before[n]);
    } else {
        assert(!workspace_keys(rest).contains(workspace_key(list.last()))) by {
            if workspace_keys(rest).contains(workspace_key(list.last())) {
                let j = choose|j: int|
                    0 <= j < rest.len() && workspace_keys(rest)[j] == workspace_key(list.last());
                assert(list[j].device_name + "::"@ + list[j].workspace.name != list[i].device_name
                    + "::"@ + list[i].workspace.name);
            }
        }
        let n = before.len() + k;
        assert(all[n] == workspace_leaves(list[i].workspace)[k]);
    }
}

/// Nothing else is listed: every listed window stands in one of the workspaces, under
/// that workspace's name.
pub proof fn law_only_saved_windows_are_listed(list: Seq<ListedWorkspace>, n: int)
    requires
        0 <= n < collected_leaves(list).len(),
    ensures
        exists|i: int|
            0 <= i < list.len() && is_window_of(
                collected_leaves(list)[n],
                #[trigger] list[i].workspace,
            ),
    decreases list.len(),
{
    let rest = list.drop_last();
    let before = collected_leaves(rest);
    if n < before.len() {
        law_only_saved_windows_are_listed(rest, n);
        let i = choose|i: int|
            0 <= i < rest.len() && is_window_of(before[n], #[trigger] rest[i].workspace);
        assert(list[i].workspace == rest[i].workspace);
    } else {
        let last = list.len() - 1;
        assert(is_window_of(collected_leaves(list)[n], list[last].workspace));
    }
}

/// Whether a listed window is that window of a workspace which its position says.
pub open spec fn is_window_of(leaf: PlacedLeaf, w: WorkspaceModel) -> bool {
    let all = layout_snapshot::leaves(w.root);
    &&& leaf.workspace_name == w.name
    &&& leaf.order_index < all.len()
    &&& leaf.local_id == all[leaf.order_index as int].local_id
    &&& leaf.window == all[leaf.order_index as int].window
}

/// The workspaces of every monitor in the order are listed, each with the device name of
/// its monitor.
pub proof fn law_every_workspace_is_listed(
    monitors: Seq<MonitorModel>,
    order: Seq<usize>,
    i: int,
    j: int,
)
    requires
        0 <= i < order.len(),
        0 <= j < monitors[order[i] as int].workspaces.len(),
    ensures
        exists|n: int|
            0 <= n < listed_workspaces(monitors, order).len() && (#[trigger] listed_workspaces(
                monitors,
                order,
            )[n]).workspace == monitors[order[i] as int].workspaces[j] && listed_workspaces(
                monitors,
                order,
            )[n].device_name == monitors[order[i] as int].device_name,
    decreases order.len(),
{
    let rest = order.drop_last();
    let before = listed_workspaces(monitors, rest);
    let all = listed_workspaces(monitors, order);
    if i < rest.len() {
        law_every_workspace_is_listed(monitors, rest, i, j);
        let n = choose|n: int|
            0 <= n < before.len() && (#[trigger] before[n]).workspace
                == monitors[rest[i] as int].workspaces[j] && before[n].device_name
                == monitors[rest[i] as int].device_name;
        assert(all[n] == before[n]);
    } else {
        assert(all[before.len() + j] == monitor_workspaces(monitors[order[i] as int])[j]);
    }
}

} // verus!
