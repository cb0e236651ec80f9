use glaze_layout::window_state::{
    FloatingStateConfig, FullscreenStateConfig, InitialWindowState, ParsedConfig,
    WindowBehaviorConfig, WindowState, WindowStateDefaultsConfig,
};


#[test]
fn same_variant_config_differs_by_full_equality() {
    let a = WindowState::Floating(FloatingStateConfig {
        centered: true,
        shown_on_top: false,
    });
    let b = WindowState::Floating(FloatingStateConfig {
        centered: false,
        shown_on_top: true,
    });
    assert!(a.is_same_state(&b), "discriminant-only helper still true");
    assert_ne!(a, b, "PartialEq must see centered/shown_on_top");

    let c = WindowState::Fullscreen(FullscreenStateConfig {
        maximized: true,
        shown_on_top: false,
    });
    let d = WindowState::Fullscreen(FullscreenStateConfig {
        maximized: false,
        shown_on_top: true,
    });
    assert!(c.is_same_state(&d));
    assert_ne!(c, d);
}

#[test]
fn load_guard_should_use_full_equality_not_is_same_state() {
    // A change of options alone is a change of state.
    let live = WindowState::Floating(FloatingStateConfig {
        centered: true,
        shown_on_top: false,
    });
    let target = WindowState::Floating(FloatingStateConfig {
        centered: false,
        shown_on_top: true,
    });
    let same_variant = live.is_same_state(&target);
    let should_update = live != target;
    assert!(same_variant);
    assert!(should_update);
}

#[test]
fn default_state_follows_configuration() {
    let floating = FloatingStateConfig { centered: true, shown_on_top: true };
    let mut config = ParsedConfig {
        window_behavior: WindowBehaviorConfig {
            initial_state: InitialWindowState::Tiling,
            state_defaults: WindowStateDefaultsConfig {
                floating,
                fullscreen: FullscreenStateConfig { maximized: true, shown_on_top: false },
            },
        },
    };
    assert_eq!(WindowState::default_from_config(&config), WindowState::Tiling);
    config.window_behavior.initial_state = InitialWindowState::Floating;
    assert_eq!(WindowState::default_from_config(&config), WindowState::Floating(floating));
    assert!(!WindowState::Tiling.is_same_state(&WindowState::Minimized));
}
