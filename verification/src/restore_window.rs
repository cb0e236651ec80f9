//! Restoring a single window, step by step.
//!
//! A window is moved to its workspace, put into its state and, if it floats,
//! placed. Each step is decided from the window as it is at that moment, so the
//! caller carries out an action, looks at the window again and asks for the
//! next one.
use crate::dto::Rect;
use crate::layout_snapshot::WindowModel;
use crate::placement;
use crate::snapshot_leaves::{PlacedLeaf, SnapshotLeaf};
use crate::text;
use crate::window_state::WindowState;
use vstd::prelude::*;

verus! {

/// What has been dealt with so far.
#[derive(Clone, Copy, Debug, PartialEq, Eq, Structural)]
pub enum RestorePhase {
    /// Nothing yet; the workspace comes first.
    Workspace,
    /// The workspace. Before a window is minimized it gets the state that it is
    /// to have afterwards.
    StateBeforeMinimize,
    /// Everything up to the state itself.
    State,
    /// The state. Next comes the state that the window returns to.
    PreviousState,
    /// The states. Next comes the placement.
    Placement,
    /// Everything.
    Finished,
}

/// The next thing to do with a window.
#[derive(Clone, Copy, Debug, PartialEq, Eq, Structural)]
pub enum RestoreAction {
    /// Move the window to the saved workspace. Counts as a workspace move.
    MoveToWorkspace,
    /// Change the state of the window. Counts as a state update.
    UpdateState(WindowState),
    /// Record the state that the window returns to.
    SetPreviousState(WindowState),
    /// Give a floating window its saved place and size.
    PlaceFloating(Rect),
    /// Nothing is left to do.
    Done,
}

/// Where a saved window goes on a monitor with the given bounds; `None` stands
/// for a monitor that is not known.
pub open spec fn saved_placement(w: WindowModel, bounds: Option<Rect>) -> Option<Rect> {
    placement::chosen_placement(w.floating_placement, w.floating_placement_relative, bounds)
}

/// The next action, and the phase after it. A phase with nothing to do is
/// passed over.
pub open spec fn next_step(
    phase: RestorePhase,
    leaf: PlacedLeaf,
    workspace: Seq<char>,
    state: WindowState,
    bounds: Option<Rect>,
) -> (RestorePhase, RestoreAction)
    decreases phases_left(phase),
{
    match phase {
        RestorePhase::Workspace => if workspace != leaf.workspace_name {
            (RestorePhase::StateBeforeMinimize, RestoreAction::MoveToWorkspace)
        } else {
            next_step(RestorePhase::StateBeforeMinimize, leaf, workspace, state, bounds)
        },
        RestorePhase::StateBeforeMinimize => match leaf.window.prev_state {
            Some(prev) => if leaf.window.state is Minimized && !state.same_variant(prev)
                && state !is Minimized {
                (RestorePhase::State, RestoreAction::UpdateState(prev))
            } else {
                next_step(RestorePhase::State, leaf, workspace, state, bounds)
            },
            None => next_step(RestorePhase::State, leaf, workspace, state, bounds),
        },
        RestorePhase::State => if state != leaf.window.state {
            (RestorePhase::PreviousState, RestoreAction::UpdateState(leaf.window.state))
        } else {
            next_step(RestorePhase::PreviousState, leaf, workspace, state, bounds)
        },
        RestorePhase::PreviousState => match leaf.window.prev_state {
            Some(prev) => (RestorePhase::Placement, RestoreAction::SetPreviousState(prev)),
            None => next_step(RestorePhase::Placement, leaf, workspace, state, bounds),
        },
        RestorePhase::Placement => match saved_placement(leaf.window, bounds) {
            Some(rect) => if leaf.window.state is Floating {
                (RestorePhase::Finished, RestoreAction::PlaceFloating(rect))
            } else {
                (RestorePhase::Finished, RestoreAction::Done)
            },
            None => (RestorePhase::Finished, RestoreAction::Done),
        },
        RestorePhase::Finished => (RestorePhase::Finished, RestoreAction::Done),
    }
}

/// The number of phases that may still have something to do.
pub open spec fn phases_left(phase: RestorePhase) -> nat {
    match phase {
        RestorePhase::Workspace => 5,
        RestorePhase::StateBeforeMinimize => 4,
        RestorePhase::State => 3,
        RestorePhase::PreviousState => 2,
        RestorePhase::Placement => 1,
        RestorePhase::Finished => 0,
    }
}

/// Decides the next action for a window, which is on the workspace
/// `current_workspace` (empty if on none) and in the state `current_state`.
/// `bounds` are those of the monitor that matched the one of the saved window.
///
/// States are compared with their options, so that a window which floats with
/// other options is updated too. Only before minimizing is the variant enough.
pub fn next_restore_action(
    phase: RestorePhase,
    leaf: &SnapshotLeaf,
    current_workspace: &str,
    current_state: WindowState,
    bounds: Option<Rect>,
) -> (r: (RestorePhase, RestoreAction))
    ensures
        r == next_step(phase, leaf@, current_workspace@, current_state, bounds),
{
    proof {
        reveal_with_fuel(next_step, 6);
    }
    let mut phase = phase;
    if phase == RestorePhase::Workspace {
        if !text::same_text(current_workspace, leaf.workspace_name.as_str()) {
            return (RestorePhase::StateBeforeMinimize, RestoreAction::MoveToWorkspace);
        }
        phase = RestorePhase::StateBeforeMinimize;
    }
    if phase == RestorePhase::StateBeforeMinimize {
        if let Some(prev) = leaf.window.prev_state {
            if leaf.window.state == WindowState::Minimized && !current_state.is_same_state(&prev)
                && current_state != WindowState::Minimized {
                return (RestorePhase::State, RestoreAction::UpdateState(prev));
            }
        }
        phase = RestorePhase::State;
    }
    if phase == RestorePhase::State {
        if current_state != leaf.window.state {
            return (RestorePhase::PreviousState, RestoreAction::UpdateState(leaf.window.state));
        }
        phase = RestorePhase::PreviousState;
    }
    if phase == RestorePhase::PreviousState {
        if let Some(prev) = leaf.window.prev_state {
            return (RestorePhase::Placement, RestoreAction::SetPreviousState(prev));
        }
        phase = RestorePhase::Placement;
    }
    if phase == RestorePhase::Placement {
        if let WindowState::Floating(_) = leaf.window.state {
            let chosen = placement::choose_placement(
                leaf.window.floating_placement,
                leaf.window.floating_placement_relative,
                bounds,
            );
            if let Some(rect) = chosen {
                return (RestorePhase::Finished, RestoreAction::PlaceFloating(rect));
            }
        }
    }
    (RestorePhase::Finished, RestoreAction::Done)
}

// ---------------------------------------------------------------------------
// Laws
// ---------------------------------------------------------------------------

/// A window on a desktop where every action takes effect.
#[verifier::ext_equal]
pub struct WindowOnDesktop {
    pub workspace: Seq<char>,
    pub state: WindowState,
    pub prev_state: Option<WindowState>,
    pub floating_placement: Option<Rect>,
}

/// The window after an action. A change of state records the state before it.
pub open spec fn after_action(
    w: WindowOnDesktop,
    leaf: PlacedLeaf,
    action: RestoreAction,
) -> WindowOnDesktop {
    match action {
        RestoreAction::MoveToWorkspace => WindowOnDesktop { workspace: leaf.workspace_name, ..w },
        RestoreAction::UpdateState(state) => WindowOnDesktop {
            state,
            prev_state: Some(w.state),
            ..w
        },
        RestoreAction::SetPreviousState(prev) => WindowOnDesktop { prev_state: Some(prev), ..w },
        RestoreAction::PlaceFloating(rect) => WindowOnDesktop {
            floating_placement: Some(rect),
            ..w
        },
        RestoreAction::Done => w,
    }
}

/// The window after all actions from `phase` on.
pub open spec fn after_restore(
    phase: RestorePhase,
    w: WindowOnDesktop,
    leaf: PlacedLeaf,
    bounds: Option<Rect>,
) -> WindowOnDesktop
    decreases phases_left(phase),
{
    let (next, action) = next_step(phase, leaf, w.workspace, w.state, bounds);
    if phases_left(next) < phases_left(phase) {
        after_restore(next, after_action(w, leaf, action), leaf, bounds)
    } else {
        w
    }
}

/// The actions from `phase` on.
pub open spec fn restore_actions(
    phase: RestorePhase,
    w: WindowOnDesktop,
    leaf: PlacedLeaf,
    bounds: Option<Rect>,
) -> Seq<RestoreAction>
    decreases phases_left(phase),
{
    let (next, action) = next_step(phase, leaf, w.workspace, w.state, bounds);
    if phases_left(next) < phases_left(phase) {
        seq![action] + restore_actions(next, after_action(w, leaf, action), leaf, bounds)
    } else {
        Seq::empty()
    }
}

/// Where every action takes effect, a window ends on its saved workspace and in
/// its saved state, returns to the saved previous state if there is one, and
/// has its saved place if it floats.
pub proof fn law_window_is_restored(w: WindowOnDesktop, leaf: PlacedLeaf, bounds: Option<Rect>)
    ensures
        ({
            let end = after_restore(RestorePhase::Workspace, w, leaf, bounds);
            &&& end.workspace == leaf.workspace_name
            &&& end.state == leaf.window.state
            &&& leaf.window.prev_state is Some ==> end.prev_state == leaf.window.prev_state
            &&& leaf.window.state is Floating && saved_placement(leaf.window, bounds) is Some
                ==> end.floating_placement == saved_placement(leaf.window, bounds)
        }),
{
    reveal_with_fuel(after_restore, 7);
    reveal_with_fuel(next_step, 6);
}

/// Whether an action moves the window or changes its state.
pub open spec fn is_counted(action: RestoreAction) -> bool {
    action is MoveToWorkspace || action is UpdateState
}

/// Restoring a window that is on its workspace and in its state moves nothing
/// and changes no state: a second restore in a row counts nothing.
pub proof fn law_second_restore_changes_nothing(
    w: WindowOnDesktop,
    leaf: PlacedLeaf,
    bounds: Option<Rect>,
)
    requires
        w.workspace == leaf.workspace_name,
        w.state == leaf.window.state,
    ensures
        forall|i: int|
            0 <= i < restore_actions(RestorePhase::Workspace, w, leaf, bounds).len()
                ==> !is_counted(
                #[trigger] restore_actions(RestorePhase::Workspace, w, leaf, bounds)[i],
            ),
{
    reveal_with_fuel(restore_actions, 7);
    reveal_with_fuel(next_step, 6);
}

/// A restore of one window takes at most five actions before it is done: each
/// action leads to a later phase.
pub proof fn law_restore_ends(
    phase: RestorePhase,
    leaf: PlacedLeaf,
    workspace: Seq<char>,
    state: WindowState,
    bounds: Option<Rect>,
)
    ensures
        phase != RestorePhase::Finished ==> phases_left(
            next_step(phase, leaf, workspace, state, bounds).0,
        ) < phases_left(phase),
        next_step(phase, leaf, workspace, state, bounds).1 is Done ==> next_step(
            phase,
            leaf,
            workspace,
            state,
            bounds,
        ).0 == RestorePhase::Finished,
{
    reveal_with_fuel(next_step, 6);
}

/// A window is moved in the first phase or not at all, and no action leads back to
/// that phase: this holds whether or not actions take effect.
pub proof fn law_only_the_first_phase_moves(
    phase: RestorePhase,
    leaf: PlacedLeaf,
    workspace: Seq<char>,
    state: WindowState,
    bounds: Option<Rect>,
)
    ensures
        next_step(phase, leaf, workspace, state, bounds).1 is MoveToWorkspace ==> phase
            == RestorePhase::Workspace && workspace != leaf.workspace_name,
        next_step(phase, leaf, workspace, state, bounds).0 != RestorePhase::Workspace,
{
    reveal_with_fuel(next_step, 6);
}

/// How many of the actions move a window to its workspace.
pub open spec fn move_count(actions: Seq<RestoreAction>) -> nat
    decreases actions.len(),
{
    if actions.len() == 0 {
        0
    } else {
        move_count(actions.drop_first()) + if actions[0] is MoveToWorkspace {
            1nat
        } else {
            0
        }
    }
}

proof fn lemma_moves_come_first(
    phase: RestorePhase,
    w: WindowOnDesktop,
    leaf: PlacedLeaf,
    bounds: Option<Rect>,
)
    ensures
        move_count(restore_actions(phase, w, leaf, bounds)) <= 1,
        phase != RestorePhase::Workspace || w.workspace == leaf.workspace_name ==> move_count(
            restore_actions(phase, w, leaf, bounds),
        ) == 0,
    decreases phases_left(phase),
{
    let (next, action) = next_step(phase, leaf, w.workspace, w.state, bounds);
    law_only_the_first_phase_moves(phase, leaf, w.workspace, w.state, bounds);
    if phases_left(next) < phases_left(phase) {
        let after = after_action(w, leaf, action);
        lemma_moves_come_first(next, after, leaf, bounds);
        let rest = restore_actions(next, after, leaf, bounds);
        assert((seq![action] + rest).drop_first() =~= rest);
    }
}

/// A restore moves a window at most once, and not at all if it is on its
/// workspace.
pub proof fn law_window_is_moved_at_most_once(
    w: WindowOnDesktop,
    leaf: PlacedLeaf,
    bounds: Option<Rect>,
)
    ensures
        move_count(restore_actions(RestorePhase::Workspace, w, leaf, bounds)) == if w.workspace
            == leaf.workspace_name {
            0nat
        } else {
            1
        },
{
    lemma_moves_come_first(RestorePhase::Workspace, w, leaf, bounds);
    let (next, action) = next_step(RestorePhase::Workspace, leaf, w.workspace, w.state, bounds);
    law_only_the_first_phase_moves(RestorePhase::Workspace, leaf, w.workspace, w.state, bounds);
    if w.workspace != leaf.workspace_name {
        let after = after_action(w, leaf, action);
        lemma_moves_come_first(next, after, leaf, bounds);
        let rest = restore_actions(next, after, leaf, bounds);
        assert((seq![action] + rest).drop_first() =~= rest);
    }
}

/// A window that is to be minimized first gets the state that it is to return to, unless
/// it is in a state of that variant or minimized already.
pub proof fn law_minimized_window_is_prepared(
    w: WindowOnDesktop,
    leaf: PlacedLeaf,
    prev: WindowState,
    bounds: Option<Rect>,
)
    requires
        w.workspace == leaf.workspace_name,
        leaf.window.state == WindowState::Minimized,
        leaf.window.prev_state == Some(prev),
        w.state != WindowState::Minimized,
    ensures
        ({
            let actions = restore_actions(RestorePhase::Workspace, w, leaf, bounds);
            &&& !w.state.same_variant(prev) && prev != WindowState::Minimized ==> actions.len() >= 2
                && actions[0] == RestoreAction::UpdateState(prev) && actions[1]
                == RestoreAction::UpdateState(WindowState::Minimized)
            &&& w.state.same_variant(prev) ==> actions.len() >= 1 && actions[0]
                == RestoreAction::UpdateState(WindowState::Minimized)
        }),
{
    reveal_with_fuel(restore_actions, 7);
    reveal_with_fuel(next_step, 6);
}

/// A window in another state than the saved one is put into it, also where only the
/// options differ; one that does not float is never placed.
pub proof fn law_state_is_updated_where_it_differs(
    w: WindowOnDesktop,
    leaf: PlacedLeaf,
    bounds: Option<Rect>,
    i: int,
)
    requires
        w.workspace == leaf.workspace_name,
        leaf.window.state != WindowState::Minimized,
        0 <= i < restore_actions(RestorePhase::Workspace, w, leaf, bounds).len(),
    ensures
        ({
            let actions = restore_actions(RestorePhase::Workspace, w, leaf, bounds);
            &&& w.state != leaf.window.state ==> actions[0] == RestoreAction::UpdateState(
                leaf.window.state,
            )
            &&& w.state == leaf.window.state ==> actions[i] !is UpdateState
            &&& actions[i] is PlaceFloating ==> leaf.window.state is Floating
            &&& actions[i] matches RestoreAction::SetPreviousState(prev) ==> leaf.window.prev_state
                == Some(prev)
        }),
{
    reveal_with_fuel(restore_actions, 7);
    reveal_with_fuel(next_step, 6);
}

} // verus!
