use biscvi::camera::GBrowserCamera;

fn cam(from: i64, to: i64) -> GBrowserCamera {
    GBrowserCamera::new(b"1".to_vec(), from, to)
}

#[test]
fn zoom_in_twofold_keeps_the_anchor_centered() {
    let mut c = cam(1000, 2000);
    c.zoom_around(2, 1, 1500);
    assert_eq!(c.from, 1250);
    assert_eq!(c.to, 1750);
}

#[test]
fn zoom_out_doubles_the_span_around_the_anchor() {
    let mut c = cam(1000, 2000);
    c.zoom_around(1, 2, 1500);
    assert_eq!(c.from, 500);
    assert_eq!(c.to, 2500);
}

#[test]
fn zoom_without_anchor_uses_the_window_middle() {
    let mut c = cam(1000, 2000);
    c.zoom(2, 1);
    assert_eq!(c.from, 1250);
    assert_eq!(c.to, 1750);
}

#[test]
fn zoom_never_collapses_the_window() {
    let mut c = cam(0, 4);
    c.zoom_around(1000, 1, 2);
    assert_eq!(c.from, 1);
    assert_eq!(c.to, 3);
}

#[test]
fn zoom_out_at_the_origin_shifts_right() {
    let mut c = cam(0, 1000);
    c.zoom_around(1, 4, 500);
    assert_eq!(c.from, 0);
    assert_eq!(c.to, 4000);
}

#[test]
fn world_and_screen_coordinates_match_the_formulas() {
    let c = cam(0, 1000);
    assert_eq!(c.world2cam(500, 100), 50);
    assert_eq!(c.world2cam(0, 100), 0);
    assert_eq!(c.world2cam(1000, 100), 100);
    assert_eq!(c.cam2world(50, 100), 500);
    assert_eq!(c.cam2world(0, 100), 0);
    assert_eq!(c.cam2world(100, 100), 1000);
    let c2 = cam(1000, 2000);
    assert_eq!(c2.world2cam(1500, 640), 320);
    assert_eq!(c2.cam2world(320, 640), 1500);
}

#[test]
fn panning_translates_and_clamps_at_the_origin() {
    let mut c = cam(1000, 2000);
    c.pan(500);
    assert_eq!((c.from, c.to), (1500, 2500));
    c.pan(-5000);
    assert_eq!((c.from, c.to), (0, 1000));
}

#[test]
fn range_edits_keep_the_window_ordered() {
    let mut c = cam(1000, 2000);
    assert!(c.set_range_from(1500));
    assert_eq!(c.from, 1500);
    assert!(!c.set_range_from(2000));
    assert!(!c.set_range_from(-5));
    assert_eq!(c.from, 1500);
    assert!(c.set_range_to(1800));
    assert_eq!(c.to, 1800);
    assert!(!c.set_range_to(1500));
    assert_eq!(c.to, 1800);
}
