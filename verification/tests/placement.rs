use glaze_layout::dto::Rect;
use glaze_layout::placement::{
    absolute_placement, choose_placement, relative_placement, Fraction, SnapshotRelativeRect,
};

fn fraction(value: f32) -> Fraction {
    Fraction { bits: value.to_bits() }
}

fn relative(x: f32, y: f32, width: f32, height: f32) -> SnapshotRelativeRect {
    SnapshotRelativeRect {
        x: fraction(x),
        y: fraction(y),
        width: fraction(width),
        height: fraction(height),
    }
}

#[test]
fn placements_are_fractions_of_the_monitor() {
    let bounds = Rect::from_xy(100, 200, 1000, 500);
    let rect = Rect::from_xy(350, 100, 300, 250);
    assert_eq!(relative_placement(rect, bounds), Some(relative(0.25, -0.2, 0.3, 0.5)));
}

#[test]
fn placements_scale_with_the_monitor() {
    let bounds = Rect::from_xy(1920, 0, 1280, 720);
    assert_eq!(
        absolute_placement(relative(0.25, 0.5, 0.5, 0.25), bounds),
        Some(Rect::from_xy(2240, 360, 640, 180))
    );
    assert_eq!(
        absolute_placement(relative(-0.25, -0.0, 1.5, 0.001), bounds),
        Some(Rect::from_xy(1600, 0, 1920, 1))
    );
}

#[test]
fn placements_return_on_the_same_monitor() {
    let bounds = Rect::from_xy(-1920, 37, 1920, 1043);
    for (x, y, width, height) in [(0, 0, 1, 1), (-1907, 41, 333, 777), (5000, -3000, 1919, 1042)] {
        let rect = Rect::from_xy(x, y, width, height);
        let saved = relative_placement(rect, bounds).unwrap();
        assert_eq!(absolute_placement(saved, bounds), Some(rect));
    }
}

#[test]
fn bounds_without_extent_have_no_fractions() {
    let rect = Rect::from_xy(1, 2, 3, 4);
    for bounds in [Rect::from_xy(0, 0, 0, 100), Rect::from_xy(0, 0, 100, -1)] {
        assert_eq!(relative_placement(rect, bounds), None);
        assert_eq!(absolute_placement(relative(0.5, 0.5, 0.5, 0.5), bounds), None);
    }
}

#[test]
fn absolute_placement_is_used_without_fractions() {
    let rect = Some(Rect::from_xy(1, 2, 3, 4));
    let bounds = Some(Rect::from_xy(0, 0, 1000, 1000));
    let half = Some(relative(0.5, 0.5, 0.5, 0.5));
    assert_eq!(choose_placement(rect, None, bounds), rect);
    assert_eq!(choose_placement(rect, half, None), rect);
    assert_eq!(choose_placement(rect, half, Some(Rect::from_xy(0, 0, 0, 0))), rect);
    assert_eq!(choose_placement(rect, half, bounds), Some(Rect::from_xy(500, 500, 500, 500)));
    assert_eq!(choose_placement(None, half, bounds), Some(Rect::from_xy(500, 500, 500, 500)));
    let wild = Some(relative(f32::INFINITY, 0.0, 0.5, 0.5));
    assert_eq!(choose_placement(rect, wild, bounds), rect);
}
