use mcl::bounds::rect_intersects_bounds;
use mcl::bounds::within_bounds;

#[test]
fn no_bounds_contains_everything() {
    assert!(within_bounds(&(0, 0, 0), None, None));
    assert!(within_bounds(&(i32::MIN, i32::MAX, -7), None, None));
}

#[test]
fn lower_bound_only() {
    let from = (0, -5, 10);
    assert!(within_bounds(&(0, -5, 10), Some(&from), None));
    assert!(within_bounds(&(100, 0, 11), Some(&from), None));
    assert!(!within_bounds(&(-1, 0, 11), Some(&from), None));
    assert!(!within_bounds(&(0, -6, 11), Some(&from), None));
    assert!(!within_bounds(&(0, 0, 9), Some(&from), None));
}

#[test]
fn upper_bound_only() {
    let to = (0, -5, 10);
    assert!(within_bounds(&(0, -5, 10), None, Some(&to)));
    assert!(within_bounds(&(-30, -7, 9), None, Some(&to)));
    assert!(!within_bounds(&(1, -7, 9), None, Some(&to)));
    assert!(!within_bounds(&(0, -4, 9), None, Some(&to)));
    assert!(!within_bounds(&(0, -7, 11), None, Some(&to)));
}

#[test]
fn both_bounds_normalize_corner_order() {
    let a = (10, 0, -10);
    let b = (-10, 5, 10);
    for p in [(0, 2, 0), (10, 0, -10), (-10, 5, 10)] {
        assert!(within_bounds(&p, Some(&a), Some(&b)));
        assert!(within_bounds(&p, Some(&b), Some(&a)));
    }
    for p in [(11, 2, 0), (0, -1, 0), (0, 2, 11)] {
        assert!(!within_bounds(&p, Some(&a), Some(&b)));
        assert!(!within_bounds(&p, Some(&b), Some(&a)));
    }
}

#[test]
fn rect_intersects_two_sided() {
    // Rectangle x in [0, 511], z in [0, 511]; bounds use x and z components.
    let rf = (0, 0);
    let rt = (511, 511);
    let from = (600, 0, 100);
    let to = (400, 0, -100);
    // Normalized x range [400, 600] overlaps, z range [-100, 100] overlaps.
    assert!(rect_intersects_bounds(rf, rt, Some(&from), Some(&to)));
    // x range [600, 700] does not reach the rectangle.
    let far_from = (600, 0, 100);
    let far_to = (700, 0, -100);
    assert!(!rect_intersects_bounds(rf, rt, Some(&far_from), Some(&far_to)));
}

#[test]
fn rect_intersects_one_sided() {
    let rf = (0, 0);
    let rt = (511, 511);
    let from = (200, 0, 200);
    assert!(rect_intersects_bounds(rf, rt, Some(&from), None));
    let from_past = (512, 0, 0);
    assert!(!rect_intersects_bounds(rf, rt, Some(&from_past), None));
    let to = (-1, 0, 0);
    assert!(!rect_intersects_bounds(rf, rt, None, Some(&to)));
    let to_in = (0, 0, 0);
    assert!(rect_intersects_bounds(rf, rt, None, Some(&to_in)));
}

#[test]
fn rect_intersects_swap_invariance() {
    let rf = (0, 0);
    let rt = (511, 511);
    let cases = [
        ((600, 0, 100), (400, 0, -100)),
        ((512, 3, 512), (1000, -3, 1000)),
        ((-5, 0, -5), (5, 0, 5)),
    ];
    for (a, b) in cases {
        assert_eq!(
            rect_intersects_bounds(rf, rt, Some(&a), Some(&b)),
            rect_intersects_bounds(rf, rt, Some(&b), Some(&a)),
        );
    }
    assert_eq!(
        rect_intersects_bounds(rf, rt, None, None),
        rect_intersects_bounds(rf, rt, None, None),
    );
}

#[test]
fn no_bounds_rect_always_intersects() {
    assert!(rect_intersects_bounds((5000, 5000), (5511, 5511), None, None));
}
