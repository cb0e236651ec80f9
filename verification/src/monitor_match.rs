//! Matching the monitors of a snapshot to the monitors of the desktop.
use crate::dto::{ContainerId, Rect};
use crate::layout_snapshot;
use crate::layout_snapshot::{MonitorModel, SnapshotBounds, SnapshotMonitor};
use crate::text;
use vstd::prelude::*;

verus! {

/// A monitor of the desktop. Hardware id and device path are missing on
/// platforms that have none.
#[derive(Debug, PartialEq, Eq)]
pub struct LiveMonitor {
    pub id: ContainerId,
    pub device_name: String,
    pub hardware_id: Option<String>,
    pub device_path: Option<String>,
    pub bounds: Rect,
}

/// Whether two optional texts are both there and equal but for ASCII case.
pub open spec fn same_text_given(a: Option<Seq<char>>, b: Option<Seq<char>>) -> bool {
    a is Some && b is Some && text::same_ignoring_ascii_case(a->0, b->0)
}

pub open spec fn same_bounds(a: SnapshotBounds, b: Rect) -> bool {
    a.x == b.x && a.y == b.y && a.width == b.width && a.height == b.height
}

/// Whether two rectangles overlap in both directions.
pub open spec fn bounds_overlap(a: SnapshotBounds, b: Rect) -> bool {
    a.x < b.x + b.width && a.x + a.width > b.x && a.y < b.y + b.height && a.y + a.height > b.y
}

/// How well a monitor of the desktop matches a saved one: by hardware id, device
/// path, device name and bounds, in this order of importance.
pub open spec fn monitor_points(saved: MonitorModel, live: LiveMonitor) -> u32 {
    ((if same_text_given(saved.hardware_id, text::opt_view(live.hardware_id)) {
        100int
    } else {
        0
    }) + (if same_text_given(saved.device_path, text::opt_view(live.device_path)) {
        80int
    } else {
        0
    }) + (if text::same_ignoring_ascii_case(saved.device_name, live.device_name@) {
        40int
    } else {
        0
    }) + (if same_bounds(saved.bounds, live.bounds) {
        20int
    } else if bounds_overlap(saved.bounds, live.bounds) {
        5
    } else {
        0
    })) as u32
}

/// A saved monitor and a monitor of the desktop, by index.
pub type MonitorPair = (int, int);

/// Whether a pair uses this monitor of the desktop.
pub open spec fn is_taken(taken: Seq<MonitorPair>, live: int) -> bool {
    exists|i: int| 0 <= i < taken.len() && (#[trigger] taken[i]).1 == live
}

/// Whether `best` is the free monitor that matches `saved` best. Of several
/// that match equally well it is the last one. A monitor with no points does
/// not match.
pub open spec fn is_best_monitor(
    saved: MonitorModel,
    live: Seq<LiveMonitor>,
    taken: Seq<MonitorPair>,
    best: int,
) -> bool {
    &&& 0 <= best < live.len()
    &&& !is_taken(taken, best)
    &&& monitor_points(saved, live[best]) > 0
    &&& forall|j: int|
        0 <= j < live.len() && !is_taken(taken, j) ==> monitor_points(saved, #[trigger] live[j])
            < monitor_points(saved, live[best]) || (monitor_points(saved, live[j])
            == monitor_points(saved, live[best]) && j <= best)
}

/// The saved monitors with the monitors that they match. Each saved monitor, in
/// order, takes its best match among those that are left.
pub open spec fn scored_monitor_pairs(saved: Seq<MonitorModel>, live: Seq<LiveMonitor>) -> Seq<
    MonitorPair,
>
    decreases saved.len(),
{
    if saved.len() == 0 {
        Seq::empty()
    } else {
        let before = scored_monitor_pairs(saved.drop_last(), live);
        if exists|best: int| is_best_monitor(saved.last(), live, before, best) {
            before.push(
                (
                    saved.len() - 1,
                    choose|best: int| is_best_monitor(saved.last(), live, before, best),
                ),
            )
        } else {
            before
        }
    }
}

/// The monitors that match; by position if none matches by its properties but
/// there are as many of them.
pub open spec fn monitor_pairs(saved: Seq<MonitorModel>, live: Seq<LiveMonitor>) -> Seq<
    MonitorPair,
> {
    let scored = scored_monitor_pairs(saved, live);
    if scored.len() == 0 && saved.len() == live.len() {
        Seq::new(saved.len(), |i: int| (i, i))
    } else {
        scored
    }
}

/// The pairs as mathematical integers.
pub open spec fn index_views(s: Seq<(usize, usize)>) -> Seq<MonitorPair> {
    s.map_values(|p: (usize, usize)| (p.0 as int, p.1 as int))
}

fn both_same(a: &Option<String>, b: &Option<String>) -> (r: bool)
    ensures
        r == same_text_given(text::opt_view(*a), text::opt_view(*b)),
{
    match (a, b) {
        (Some(x), Some(y)) => text::eq_ignore_ascii_case(x.as_str(), y.as_str()),
        _ => false,
    }
}

fn bounds_equal(a: &SnapshotBounds, b: &Rect) -> (r: bool)
    ensures
        r == same_bounds(*a, *b),
{
    a.x == b.x && a.y == b.y && a.width == b.width && a.height == b.height
}

fn do_bounds_overlap(a: &SnapshotBounds, b: &Rect) -> (r: bool)
    ensures
        r == bounds_overlap(*a, *b),
{
    let ax2: i64 = a.x as i64 + a.width as i64;
    let ay2: i64 = a.y as i64 + a.height as i64;
    let bx2: i64 = b.x as i64 + b.width as i64;
    let by2: i64 = b.y as i64 + b.height as i64;
    (a.x as i64) < bx2 && ax2 > b.x as i64 && (a.y as i64) < by2 && ay2 > b.y as i64
}

/// How well a monitor of the desktop matches a saved one.
pub fn monitor_score(snap: &SnapshotMonitor, live: &LiveMonitor) -> (r: u32)
    ensures
        r == monitor_points(snap@, *live),
{
    let mut score: u32 = 0;
    if both_same(&snap.hardware_id, &live.hardware_id) {
        score = score + 100;
    }
    if both_same(&snap.device_path, &live.device_path) {
        score = score + 80;
    }
    if text::eq_ignore_ascii_case(snap.device_name.as_str(), live.device_name.as_str()) {
        score = score + 40;
    }
    if bounds_equal(&snap.bounds, &live.bounds) {
        score = score + 20;
    } else if do_bounds_overlap(&snap.bounds, &live.bounds) {
        score = score + 5;
    }
    score
}

/// The free monitor that matches best.
fn best_monitor(
    snap: &SnapshotMonitor,
    live: &[LiveMonitor],
    used: &Vec<bool>,
    taken: Ghost<Seq<MonitorPair>>,
) -> (r: Option<usize>)
    requires
        used@.len() == live@.len(),
        forall|j: int| 0 <= j < live@.len() ==> #[trigger] used@[j] == is_taken(taken@, j),
    ensures
        match r {
            Some(best) => is_best_monitor(snap@, live@, taken@, best as int),
            None => forall|best: int| !is_best_monitor(snap@, live@, taken@, best),
        },
{
    let mut best: Option<usize> = None;
    let mut points: u32 = 0;
    let mut i: usize = 0;
    while i < live.len()
        invariant
            i <= live@.len(),
            used@.len() == live@.len(),
            forall|j: int| 0 <= j < live@.len() ==> #[trigger] used@[j] == is_taken(taken@, j),
            match best {
                Some(b) => b < i && !is_taken(taken@, b as int) && points == monitor_points(
                    snap@,
                    live@[b as int],
                ),
                None => points == 0,
            },
            forall|j: int|
                0 <= j < i && !is_taken(taken@, j) ==> best is Some && (monitor_points(
                    snap@,
                    #[trigger] live@[j],
                ) < points || (monitor_points(snap@, live@[j]) == points && j <= best->0)),
        decreases live@.len() - i,
    {
        if !used[i] {
            let score: u32 = monitor_score(snap, &live[i]);
            let better = match best {
                Some(_) => score >= points,
                None => true,
            };
            if better {
                best = Some(i);
                points = score;
            }
        }
        i = i + 1;
    }
    match best {
        Some(b) => {
            if points > 0 {
                Some(b)
            } else {
                assert forall|k: int| !is_best_monitor(snap@, live@, taken@, k) by {
                    if 0 <= k < live@.len() && !is_taken(taken@, k) {
                        assert(monitor_points(snap@, live@[k]) <= points);
                    }
                }
                None
            }
        },
        None => {
            assert forall|k: int| !is_best_monitor(snap@, live@, taken@, k) by {
                if 0 <= k < live@.len() && !is_taken(taken@, k) {
                    assert(monitor_points(snap@, live@[k]) <= points);
                }
            }
            None
        },
    }
}

proof fn lemma_best_monitor_unique(
    saved: MonitorModel,
    live: Seq<LiveMonitor>,
    taken: Seq<MonitorPair>,
    a: int,
    b: int,
)
    requires
        is_best_monitor(saved, live, taken, a),
        is_best_monitor(saved, live, taken, b),
    ensures
        a == b,
{
}

/// The monitors that match, as pairs of a snapshot index and a desktop index.
pub fn match_monitors(snapshot: &[SnapshotMonitor], live: &[LiveMonitor]) -> (r: Vec<(usize, usize)>)
    ensures
        index_views(r@) == monitor_pairs(layout_snapshot::monitor_views(snapshot@), live@),
        forall|i: int|
            0 <= i < r@.len() ==> (#[trigger] r@[i]).0 < snapshot@.len() && r@[i].1 < live@.len(),
{
    let ghost saved = layout_snapshot::monitor_views(snapshot@);
    let mut used: Vec<bool> = vec![false; live.len()];
    let mut out: Vec<(usize, usize)> = Vec::new();
    let mut i: usize = 0;
    assert(index_views(out@) =~= scored_monitor_pairs(saved.take(0), live@));
    while i < snapshot.len()
        invariant
            i <= snapshot@.len(),
            saved == layout_snapshot::monitor_views(snapshot@),
            used@.len() == live@.len(),
            index_views(out@) == scored_monitor_pairs(saved.take(i as int), live@),
            forall|j: int|
                0 <= j < live@.len() ==> #[trigger] used@[j] == is_taken(index_views(out@), j),
            forall|k: int|
                0 <= k < out@.len() ==> (#[trigger] out@[k]).0 < snapshot@.len() && out@[k].1
                    < live@.len(),
        decreases snapshot@.len() - i,
    {
        let ghost before = index_views(out@);
        let ghost old_used = used@;
        proof {
            assert(saved.take(i + 1).drop_last() =~= saved.take(i as int));
            assert(saved.take(i + 1).last() == snapshot@[i as int]@);
        }
        match best_monitor(&snapshot[i], live, &used, Ghost(before)) {
            Some(best) => {
                proof {
                    lemma_best_monitor_unique(
                        snapshot@[i as int]@,
                        live@,
                        before,
                        best as int,
                        choose|b: int| is_best_monitor(snapshot@[i as int]@, live@, before, b),
                    );
                }
                used.set(best, true);
                out.push((i, best));
                proof {
                    assert(index_views(out@) =~= before.push((i as int, best as int)));
                    assert forall|j: int| 0 <= j < live@.len() implies #[trigger] used@[j]
                        == is_taken(index_views(out@), j) by {
                        let after = index_views(out@);
                        assert(old_used[j] == is_taken(before, j));
                        if is_taken(before, j) {
                            let k = choose|k: int|
                                0 <= k < before.len() && (#[trigger] before[k]).1 == j;
                            assert(after[k].1 == j);
                        }
                        if j == best as int {
                            assert(after[before.len() as int].1 == j);
                        }
                        if is_taken(after, j) && j != best as int {
                            let k = choose|k: int|
                                0 <= k < after.len() && (#[trigger] after[k]).1 == j;
                            assert(before[k].1 == j);
                        }
                    }
                }
            },
            None => {},
        }
        i = i + 1;
    }
    assert(saved.take(i as int) =~= saved);
    if out.len() == 0 && snapshot.len() == live.len() {
        let mut k: usize = 0;
        while k < snapshot.len()
            invariant
                k <= snapshot@.len(),
                snapshot@.len() == live@.len(),
                index_views(out@) == Seq::new(k as nat, |n: int| (n, n)),
                forall|n: int|
                    0 <= n < out@.len() ==> (#[trigger] out@[n]).0 < snapshot@.len() && out@[n].1
                        < live@.len(),
            decreases snapshot@.len() - k,
        {
            let ghost before = out@;
            out.push((k, k));
            assert(index_views(out@) =~= index_views(before).push((k as int, k as int)));
            k = k + 1;
            assert(index_views(out@) =~= Seq::new(k as nat, |n: int| (n, n)));
        }
        assert(index_views(out@) =~= monitor_pairs(saved, live@));
    }
    out
}

// ---------------------------------------------------------------------------
// Laws
// ---------------------------------------------------------------------------

proof fn lemma_scored_pairs(saved: Seq<MonitorModel>, live: Seq<LiveMonitor>)
    ensures
        ({
            let pairs = scored_monitor_pairs(saved, live);
            &&& forall|i: int|
                0 <= i < pairs.len() ==> 0 <= (#[trigger] pairs[i]).0 < saved.len() && 0
                    <= pairs[i].1 < live.len() && monitor_points(saved[pairs[i].0], live[pairs[i].1])
                    > 0
            &&& forall|i: int, j: int|
                0 <= i < j < pairs.len() ==> (#[trigger] pairs[i]).0 < (#[trigger] pairs[j]).0
                    && pairs[i].1 != pairs[j].1
        }),
    decreases saved.len(),
{
    if saved.len() > 0 {
        let rest = saved.drop_last();
        let before = scored_monitor_pairs(rest, live);
        lemma_scored_pairs(rest, live);
        let pairs = scored_monitor_pairs(saved, live);
        if exists|best: int| is_best_monitor(saved.last(), live, before, best) {
            let best = choose|best: int| is_best_monitor(saved.last(), live, before, best);
            assert forall|i: int, j: int| 0 <= i < j < pairs.len() implies (#[trigger] pairs[i]).0 < (
            #[trigger] pairs[j]).0 && pairs[i].1 != pairs[j].1 by {
                assert(before[i] == pairs[i]);
                if j == before.len() as int {
                    if before[i].1 == best {
                        assert(is_taken(before, best));
                    }
                } else {
                    assert(before[j] == pairs[j]);
                }
            }
            assert forall|i: int| 0 <= i < pairs.len() implies 0 <= (#[trigger] pairs[i]).0
                < saved.len() && 0 <= pairs[i].1 < live.len() && monitor_points(
                saved[pairs[i].0],
                live[pairs[i].1],
            ) > 0 by {
                if i < before.len() {
                    assert(before[i] == pairs[i]);
                    assert(rest[before[i].0] == saved[before[i].0]);
                }
            }
        } else {
            assert forall|i: int| 0 <= i < pairs.len() implies 0 <= (#[trigger] pairs[i]).0
                < saved.len() && 0 <= pairs[i].1 < live.len() && monitor_points(
                saved[pairs[i].0],
                live[pairs[i].1],
            ) > 0 by {
                assert(rest[before[i].0] == saved[before[i].0]);
            }
        }
    }
}

/// No monitor is matched twice, and pairs follow the order of the snapshot.
pub proof fn law_no_monitor_is_matched_twice(saved: Seq<MonitorModel>, live: Seq<LiveMonitor>)
    ensures
        ({
            let pairs = monitor_pairs(saved, live);
            &&& forall|i: int|
                0 <= i < pairs.len() ==> 0 <= (#[trigger] pairs[i]).0 < saved.len() && 0
                    <= pairs[i].1 < live.len()
            &&& forall|i: int, j: int|
                0 <= i < j < pairs.len() ==> (#[trigger] pairs[i]).0 < (#[trigger] pairs[j]).0
                    && pairs[i].1 != pairs[j].1
        }),
{
    lemma_scored_pairs(saved, live);
}

/// Whether two monitors lie apart: one ends where the other begins, or before.
pub open spec fn lie_apart(a: Rect, b: Rect) -> bool {
    a.x + a.width <= b.x || b.x + b.width <= a.x || a.y + a.height <= b.y || b.y + b.height <= a.y
}

/// Whether a saved monitor agrees with two monitors of the desktop in the same
/// properties other than the bounds.
pub open spec fn agrees_alike(saved: MonitorModel, a: LiveMonitor, b: LiveMonitor) -> bool {
    &&& same_text_given(saved.hardware_id, text::opt_view(a.hardware_id)) == same_text_given(
        saved.hardware_id,
        text::opt_view(b.hardware_id),
    )
    &&& same_text_given(saved.device_path, text::opt_view(a.device_path)) == same_text_given(
        saved.device_path,
        text::opt_view(b.device_path),
    )
    &&& text::same_ignoring_ascii_case(saved.device_name, a.device_name@)
        == text::same_ignoring_ascii_case(saved.device_name, b.device_name@)
}

/// Equal bounds earn twenty points and bounds that lie apart none, whatever the
/// sizes; bounds that overlap in part earn five.
pub proof fn law_bounds_earn_points(saved: MonitorModel, a: LiveMonitor, b: LiveMonitor)
    requires
        agrees_alike(saved, a, b),
        lie_apart(
            Rect {
                x: saved.bounds.x,
                y: saved.bounds.y,
                width: saved.bounds.width,
                height: saved.bounds.height,
            },
            b.bounds,
        ),
        saved.bounds.width > 0,
        saved.bounds.height > 0,
        b.bounds.width > 0,
        b.bounds.height > 0,
    ensures
        a.bounds.x == saved.bounds.x && a.bounds.y == saved.bounds.y && a.bounds.width
            == saved.bounds.width && a.bounds.height == saved.bounds.height ==> monitor_points(
            saved,
            a,
        ) == monitor_points(saved, b) + 20,
        !lie_apart(
            Rect {
                x: saved.bounds.x,
                y: saved.bounds.y,
                width: saved.bounds.width,
                height: saved.bounds.height,
            },
            a.bounds,
        ) && (a.bounds.x != saved.bounds.x || a.bounds.y != saved.bounds.y || a.bounds.width
            != saved.bounds.width || a.bounds.height != saved.bounds.height) ==> monitor_points(
            saved,
            a,
        ) == monitor_points(saved, b) + 5,
        lie_apart(
            Rect {
                x: saved.bounds.x,
                y: saved.bounds.y,
                width: saved.bounds.width,
                height: saved.bounds.height,
            },
            a.bounds,
        ) && a.bounds.width > 0 && a.bounds.height > 0 ==> monitor_points(saved, a)
            == monitor_points(saved, b),
{
}

/// What a monitor loses by a property that it no longer agrees in: a hundred points
/// with the hardware id, eighty with the device path, forty with the device name.
pub proof fn law_names_earn_points(saved: MonitorModel, a: LiveMonitor, b: LiveMonitor)
    requires
        a.bounds == b.bounds,
    ensures
        saved.hardware_id is Some && a.hardware_id is Some && a.hardware_id->0@
            == saved.hardware_id->0 && b.hardware_id is None && a.device_path == b.device_path
            && a.device_name@ == b.device_name@ ==> monitor_points(saved, a) == monitor_points(
            saved,
            b,
        ) + 100,
        saved.device_path is Some && a.device_path is Some && a.device_path->0@
            == saved.device_path->0 && b.device_path is None && a.hardware_id == b.hardware_id
            && a.device_name@ == b.device_name@ ==> monitor_points(saved, a) == monitor_points(
            saved,
            b,
        ) + 80,
        a.device_name@ == saved.device_name && b.device_name@.len() != saved.device_name.len()
            && a.hardware_id == b.hardware_id && a.device_path == b.device_path ==> monitor_points(
            saved,
            a,
        ) == monitor_points(saved, b) + 40,
{
}

/// Where only the bounds tell monitors apart and the monitors of the desktop lie
/// apart, each saved monitor is paired with the monitor of the desktop that has its
/// position and size. `of` holds the indices of these.
pub proof fn law_monitors_are_told_apart_by_bounds(
    saved: Seq<MonitorModel>,
    live: Seq<LiveMonitor>,
    of: Seq<int>,
)
    requires
        of.len() == saved.len(),
        forall|i: int| 0 <= i < of.len() ==> 0 <= #[trigger] of[i] < live.len(),
        forall|i: int, j: int| 0 <= i < j < of.len() ==> #[trigger] of[i] != #[trigger] of[j],
        forall|i: int|
            0 <= i < of.len() ==> {
                let b = live[#[trigger] of[i]].bounds;
                saved[i].bounds.x == b.x && saved[i].bounds.y == b.y && saved[i].bounds.width
                    == b.width && saved[i].bounds.height == b.height
            },
        forall|i: int|
            0 <= i < live.len() ==> (#[trigger] live[i]).bounds.width > 0 && live[i].bounds.height
                > 0,
        forall|i: int, j: int|
            0 <= i < live.len() && 0 <= j < live.len() && i != j ==> lie_apart(
                (#[trigger] live[i]).bounds,
                (#[trigger] live[j]).bounds,
            ),
        forall|i: int, j: int|
            0 <= i < saved.len() && 0 <= j < live.len() ==> agrees_alike(
                #[trigger] saved[i],
                live[of[i]],
                #[trigger] live[j],
            ),
    ensures
        monitor_pairs(saved, live) == Seq::new(saved.len(), |i: int| (i, of[i])),
{
    lemma_told_apart(saved, live, of);
    if saved.len() == 0 {
        assert(monitor_pairs(saved, live) =~= Seq::new(saved.len(), |i: int| (i, of[i])));
    }
}

proof fn lemma_told_apart(saved: Seq<MonitorModel>, live: Seq<LiveMonitor>, of: Seq<int>)
    requires
        of.len() >= saved.len(),
        forall|i: int| 0 <= i < of.len() ==> 0 <= #[trigger] of[i] < live.len(),
        forall|i: int, j: int| 0 <= i < j < of.len() ==> #[trigger] of[i] != #[trigger] of[j],
        forall|i: int|
            0 <= i < saved.len() ==> {
                let b = live[#[trigger] of[i]].bounds;
                saved[i].bounds.x == b.x && saved[i].bounds.y == b.y && saved[i].bounds.width
                    == b.width && saved[i].bounds.height == b.height
            },
        forall|i: int|
            0 <= i < live.len() ==> (#[trigger] live[i]).bounds.width > 0 && live[i].bounds.height
                > 0,
        forall|i: int, j: int|
            0 <= i < live.len() && 0 <= j < live.len() && i != j ==> lie_apart(
                (#[trigger] live[i]).bounds,
                (#[trigger] live[j]).bounds,
            ),
        forall|i: int, j: int|
            0 <= i < saved.len() && 0 <= j < live.len() ==> agrees_alike(
                #[trigger] saved[i],
                live[of[i]],
                #[trigger] live[j],
            ),
    ensures
        scored_monitor_pairs(saved, live) == Seq::new(saved.len(), |i: int| (i, of[i])),
    decreases saved.len(),
{
    if saved.len() > 0 {
        let rest = saved.drop_last();
        let last = saved.len() - 1;
        assert forall|i: int, j: int| 0 <= i < rest.len() && 0 <= j < live.len() implies agrees_alike(
            #[trigger] rest[i],
            live[of[i]],
            #[trigger] live[j],
        ) by {
            assert(rest[i] == saved[i]);
        }
        lemma_told_apart(rest, live, of);
        let before = scored_monitor_pairs(rest, live);
        let best = of[last];
        let own = saved[last];
        assert forall|j: int| 0 <= j < live.len() && j != best implies monitor_points(
            own,
            #[trigger] live[j],
        ) + 20 == monitor_points(own, live[best]) by {
            assert(lie_apart(live[best].bounds, live[j].bounds));
            assert(agrees_alike(saved[last], live[of[last]], live[j]));
            law_bounds_earn_points(own, live[best], live[j]);
        }
        assert(!is_taken(before, best)) by {
            if is_taken(before, best) {
                let i = choose|i: int| 0 <= i < before.len() && (#[trigger] before[i]).1 == best;
                assert(of[i] != of[last]);
            }
        }
        assert(is_best_monitor(own, live, before, best));
        let chosen = choose|b: int| is_best_monitor(own, live, before, b);
        lemma_best_monitor_unique(own, live, before, best, chosen);
        assert(scored_monitor_pairs(saved, live) =~= Seq::new(saved.len(), |i: int| (i, of[i])));
    } else {
        assert(scored_monitor_pairs(saved, live) =~= Seq::new(saved.len(), |i: int| (i, of[i])));
    }
}

/// Where no two monitors agree in anything and there are as many on either side,
/// they are paired by position; where the numbers differ, none is.
pub proof fn law_strangers_are_paired_by_position(saved: Seq<MonitorModel>, live: Seq<LiveMonitor>)
    requires
        forall|i: int, j: int|
            0 <= i < saved.len() && 0 <= j < live.len() ==> monitor_points(
                #[trigger] saved[i],
                #[trigger] live[j],
            ) == 0,
    ensures
        monitor_pairs(saved, live).len() == if saved.len() == live.len() {
            saved.len()
        } else {
            0
        },
        forall|i: int|
            0 <= i < monitor_pairs(saved, live).len() ==> #[trigger] monitor_pairs(saved, live)[i]
                == (i, i),
{
    lemma_scored_pairs(saved, live);
    let scored = scored_monitor_pairs(saved, live);
    if scored.len() > 0 {
        assert(monitor_points(saved[scored[0].0], live[scored[0].1]) > 0);
    }
}

/// Each saved monitor in turn takes its best match: a monitor that no earlier one
/// took scores less, or as much and is listed before it. Pairs by score have points.
pub proof fn law_each_monitor_takes_its_best(
    saved: Seq<MonitorModel>,
    live: Seq<LiveMonitor>,
    i: int,
    j: int,
)
    requires
        0 <= i < scored_monitor_pairs(saved, live).len(),
        0 <= j < live.len(),
        forall|k: int| 0 <= k < i ==> (#[trigger] scored_monitor_pairs(saved, live)[k]).1 != j,
    ensures
        ({
            let p = scored_monitor_pairs(saved, live)[i];
            let own = monitor_points(saved[p.0], live[p.1]);
            let other = monitor_points(saved[p.0], live[j]);
            own > 0 && (other < own || (other == own && j <= p.1))
        }),
    decreases saved.len(),
{
    if saved.len() > 0 {
        let rest = saved.drop_last();
        let before = scored_monitor_pairs(rest, live);
        let pairs = scored_monitor_pairs(saved, live);
        lemma_scored_pairs(rest, live);
        lemma_scored_pairs(saved, live);
        if i < before.len() {
            assert forall|k: int| 0 <= k < i implies (#[trigger] before[k]).1 != j by {
                assert(pairs[k] == before[k]);
            }
            law_each_monitor_takes_its_best(rest, live, i, j);
            assert(rest[before[i].0] == saved[before[i].0]);
        } else {
            if is_taken(before, j) {
                let k = choose|k: int| 0 <= k < before.len() && (#[trigger] before[k]).1 == j;
                assert(pairs[k] == before[k]);
            }
        }
    }
}

/// A saved monitor that is left over agrees in nothing with any monitor of the
/// desktop that no earlier one took.
pub proof fn law_left_over_monitor_has_no_match(
    saved: Seq<MonitorModel>,
    live: Seq<LiveMonitor>,
    s: int,
    j: int,
)
    requires
        0 <= s < saved.len(),
        0 <= j < live.len(),
        forall|k: int|
            0 <= k < scored_monitor_pairs(saved, live).len() ==> (#[trigger] scored_monitor_pairs(
                saved,
                live,
            )[k]).0 != s && (scored_monitor_pairs(saved, live)[k].0 < s ==> scored_monitor_pairs(
                saved,
                live,
            )[k].1 != j),
    ensures
        monitor_points(saved[s], live[j]) == 0,
    decreases saved.len(),
{
    let rest = saved.drop_last();
    let before = scored_monitor_pairs(rest, live);
    let pairs = scored_monitor_pairs(saved, live);
    lemma_scored_pairs(rest, live);
    if s < rest.len() {
        assert forall|k: int| 0 <= k < before.len() implies (#[trigger] before[k]).0 != s && (
        before[k].0 < s ==> before[k].1 != j) by {
            assert(pairs[k] == before[k]);
        }
        law_left_over_monitor_has_no_match(rest, live, s, j);
    } else {
        let own = saved[s];
        if is_taken(before, j) {
            let k = choose|k: int| 0 <= k < before.len() && (#[trigger] before[k]).1 == j;
            assert(pairs[k] == before[k]);
        }
        if exists|best: int| is_best_monitor(own, live, before, best) {
            assert(pairs[before.len() as int].0 == s);
        }
        if monitor_points(own, live[j]) > 0 {
            let best = lemma_best_exists(own, live, before, live.len() as int, j);
            assert(is_best_monitor(own, live, before, best));
        }
    }
}

/// Among free monitors of which one has points there is a best one.
proof fn lemma_best_exists(
    saved: MonitorModel,
    live: Seq<LiveMonitor>,
    taken: Seq<MonitorPair>,
    n: int,
    j: int,
) -> (best: int)
    requires
        0 <= j < n <= live.len(),
        !is_taken(taken, j),
        monitor_points(saved, live[j]) > 0,
    ensures
        0 <= best < n,
        !is_taken(taken, best),
        monitor_points(saved, live[best]) > 0,
        forall|k: int|
            0 <= k < n && !is_taken(taken, k) ==> monitor_points(saved, #[trigger] live[k])
                < monitor_points(saved, live[best]) || (monitor_points(saved, live[k])
                == monitor_points(saved, live[best]) && k <= best),
    decreases n,
{
    let last = n - 1;
    if exists|k: int|
        0 <= k < last && !is_taken(taken, k) && monitor_points(saved, #[trigger] live[k]) > 0 {
        let k = choose|k: int|
            0 <= k < last && !is_taken(taken, k) && monitor_points(saved, #[trigger] live[k]) > 0;
        let best = lemma_best_exists(saved, live, taken, last, k);
        if !is_taken(taken, last) && monitor_points(saved, live[last]) >= monitor_points(
            saved,
            live[best],
        ) {
            last
        } else {
            best
        }
    } else {
        last
    }
}

} // verus!
