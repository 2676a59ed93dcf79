use muviz::scene::{
    cateye_row, guard_rail_band, has_pillar, rail_material_index, streetlight_side, CateyeRow,
    MainScene, Side,
};
use muviz::track::{backtrack_window, beat_intervals, flip_due, overlap_search_end};

#[test]
fn streetlights_alternate() {
    assert_eq!(streetlight_side(0), Some(Side::Right));
    assert_eq!(streetlight_side(4), Some(Side::Left));
    assert_eq!(streetlight_side(8), Some(Side::Right));
    assert_eq!(streetlight_side(3), None);
    assert_eq!(streetlight_side(6), None);
}

#[test]
fn pillars_under_every_other_light() {
    assert!(has_pillar(0, false));
    assert!(has_pillar(16, false));
    assert!(!has_pillar(4, false));
    assert!(!has_pillar(8, true));
    assert!(!has_pillar(9, false));
}

#[test]
fn cateyes() {
    assert_eq!(cateye_row(0), None);
    assert_eq!(cateye_row(10), None);
    assert_eq!(cateye_row(30), Some(CateyeRow::Inner));
    assert_eq!(cateye_row(50), Some(CateyeRow::Outer));
    assert_eq!(cateye_row(70), Some(CateyeRow::Inner));
    assert_eq!(cateye_row(31), None);
}

#[test]
fn guard_rail_bands() {
    assert_eq!(guard_rail_band(0), Some(0));
    assert_eq!(guard_rail_band(1), None);
    assert_eq!(guard_rail_band(4), Some(2));
    assert_eq!(rail_material_index(0), 0);
    assert_eq!(rail_material_index(4), 1);
    assert_eq!(rail_material_index(5), 2);
    let _marker = MainScene;
}

#[test]
fn flips() {
    assert!(flip_due(true, 4, 2));
    assert!(!flip_due(false, 4, 2));
    assert!(!flip_due(true, 0, 2));
    assert!(!flip_due(true, 5, 2));
    assert!(!flip_due(true, -4, 2));
    assert!(flip_due(true, 6, 3));
    assert_eq!(beat_intervals(), vec![1, 2, 2, 3, 3, 4, 4]);
}

#[test]
fn backtracking() {
    assert_eq!(backtrack_window(100, 10, 720), (90, 10));
    assert_eq!(backtrack_window(100, 0, 720), (99, 1));
    assert_eq!(backtrack_window(1000, 5000, 720), (280, 720));
    assert_eq!(backtrack_window(3, 10, 720), (0, 3));
    assert_eq!(backtrack_window(0, 10, 720), (0, 0));
}

#[test]
fn overlap_window() {
    assert_eq!(overlap_search_end(24, 24), None);
    assert_eq!(overlap_search_end(10, 24), None);
    assert_eq!(overlap_search_end(30, 24), Some(6));
}
