use touchhle::geometry::{fixed_mul, frame_of, pixel_dim, position_for_frame, rect_contains, Point, Rect, Size, ONE};

#[test]
fn fixed_mul_exact_values() {
    assert_eq!(fixed_mul(100 * ONE, ONE / 2), Some(50 * ONE));
    assert_eq!(fixed_mul(3 * ONE, -2 * ONE), Some(-6 * ONE));
    assert_eq!(fixed_mul(-1, 1), Some(-1));
    assert_eq!(fixed_mul(i64::MAX, 2 * ONE), None);
}

#[test]
fn pixel_dim_rounds_half_away_and_saturates() {
    assert_eq!(pixel_dim(10 * ONE + ONE / 2), 11);
    assert_eq!(pixel_dim(10 * ONE + ONE / 2 - 1), 10);
    assert_eq!(pixel_dim(0), 0);
    assert_eq!(pixel_dim(-5 * ONE), 0);
    assert_eq!(pixel_dim(i64::MAX), u32::MAX);
}

#[test]
fn frame_and_position_are_inverse() {
    let anchor = Point { x: ONE / 4, y: 3 * ONE / 4 };
    let f = Rect { origin: Point { x: 7 * ONE, y: -2 * ONE }, size: Size { width: 8 * ONE, height: 4 * ONE } };
    let pos = position_for_frame(f, anchor).unwrap();
    assert_eq!(pos, Point { x: 9 * ONE, y: ONE });
    let bounds = Rect { origin: Point { x: 0, y: 0 }, size: f.size };
    assert_eq!(frame_of(bounds, pos, anchor), Some(f));
}

#[test]
fn rect_contains_edges() {
    let b = Rect { origin: Point { x: -ONE, y: -ONE }, size: Size { width: 2 * ONE, height: 2 * ONE } };
    assert!(rect_contains(b, Point { x: -ONE, y: -ONE }));
    assert!(!rect_contains(b, Point { x: ONE, y: 0 }));
    assert!(rect_contains(b, Point { x: ONE - 1, y: ONE - 1 }));
    let empty = Rect { origin: Point { x: 0, y: 0 }, size: Size { width: 0, height: 0 } };
    assert!(!rect_contains(empty, Point { x: 0, y: 0 }));
}
