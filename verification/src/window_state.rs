//! Window states and the configuration they come from.
use vstd::prelude::*;

verus! {

/// Options of a floating window.
#[derive(Clone, Copy, Debug, PartialEq, Eq, Structural)]
pub struct FloatingStateConfig {
    pub centered: bool,
    pub shown_on_top: bool,
}

/// Options of a fullscreen window.
#[derive(Clone, Copy, Debug, PartialEq, Eq, Structural)]
pub struct FullscreenStateConfig {
    pub maximized: bool,
    pub shown_on_top: bool,
}

/// The state that a newly managed window gets.
#[derive(Clone, Copy, Debug, PartialEq, Eq, Structural)]
pub enum InitialWindowState {
    Tiling,
    Floating,
}

/// Options used where a command does not set its own.
#[derive(Clone, Copy, Debug, PartialEq, Eq, Structural)]
pub struct WindowStateDefaultsConfig {
    pub floating: FloatingStateConfig,
    pub fullscreen: FullscreenStateConfig,
}

#[derive(Clone, Copy, Debug, PartialEq, Eq, Structural)]
pub struct WindowBehaviorConfig {
    pub initial_state: InitialWindowState,
    pub state_defaults: WindowStateDefaultsConfig,
}

/// The part of the user configuration that window states depend on.
#[derive(Clone, Copy, Debug, PartialEq, Eq, Structural)]
pub struct ParsedConfig {
    pub window_behavior: WindowBehaviorConfig,
}

/// The possible states of a window.
#[derive(Clone, Copy, Debug, PartialEq, Eq, Structural)]
pub enum WindowState {
    Floating(FloatingStateConfig),
    Fullscreen(FullscreenStateConfig),
    Minimized,
    Tiling,
}

impl WindowState {
    /// Whether both states are of the same variant, whatever their options.
    pub open spec fn same_variant(self, other: WindowState) -> bool {
        ||| self is Floating && other is Floating
        ||| self is Fullscreen && other is Fullscreen
        ||| self is Minimized && other is Minimized
        ||| self is Tiling && other is Tiling
    }

    /// The state of a newly managed window under `config`.
    pub fn default_from_config(config: &ParsedConfig) -> (r: WindowState)
        ensures
            r == match config.window_behavior.initial_state {
                InitialWindowState::Tiling => WindowState::Tiling,
                InitialWindowState::Floating => WindowState::Floating(
                    config.window_behavior.state_defaults.floating,
                ),
            },
    {
        match config.window_behavior.initial_state {
            InitialWindowState::Tiling => WindowState::Tiling,
            InitialWindowState::Floating => WindowState::Floating(
                config.window_behavior.state_defaults.floating,
            ),
        }
    }

    /// Whether both states are of the same variant. Options are not compared:
    /// use `==` where a change of options matters.
    pub fn is_same_state(&self, other: &WindowState) -> (r: bool)
        ensures
            r == self.same_variant(*other),
    {
        match (self, other) {
            (WindowState::Floating(_), WindowState::Floating(_)) => true,
            (WindowState::Fullscreen(_), WindowState::Fullscreen(_)) => true,
            (WindowState::Minimized, WindowState::Minimized) => true,
            (WindowState::Tiling, WindowState::Tiling) => true,
            _ => false,
        }
    }
}

/// Equal states are of the same variant, and being of the same variant is an
/// equivalence. The converse fails: two floating states may differ in options.
pub proof fn law_same_variant_is_equivalence(a: WindowState, b: WindowState, c: WindowState)
    ensures
        a.same_variant(a),
        a == b ==> a.same_variant(b),
        a.same_variant(b) ==> b.same_variant(a),
        a.same_variant(b) && b.same_variant(c) ==> a.same_variant(c),
{
}

/// Options make no difference to the variant, and states of different variants are
/// never the same.
pub proof fn law_options_do_not_matter(
    a: FloatingStateConfig,
    b: FloatingStateConfig,
    c: FullscreenStateConfig,
    d: FullscreenStateConfig,
    s: WindowState,
)
    ensures
        WindowState::Floating(a).same_variant(WindowState::Floating(b)),
        WindowState::Fullscreen(c).same_variant(WindowState::Fullscreen(d)),
        WindowState::Minimized.same_variant(s) <==> s == WindowState::Minimized,
        WindowState::Tiling.same_variant(s) <==> s == WindowState::Tiling,
        WindowState::Floating(a).same_variant(s) ==> s is Floating,
        WindowState::Fullscreen(c).same_variant(s) ==> s is Fullscreen,
{
}

} // verus!
