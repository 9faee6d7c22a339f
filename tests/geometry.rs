use agent_sim::geometry::{Rect, Vec2D};

#[test]
fn rect_new_orders_corners() {
    let r = Rect::new(Vec2D::new(5, 1), Vec2D::new(2, 7));
    assert_eq!(r.bl, Vec2D::new(2, 1));
    assert_eq!(r.tr, Vec2D::new(5, 7));
    assert_eq!(r.get_width(), 3);
    assert_eq!(r.get_height(), 6);
}

#[test]
fn rect_contains_edges() {
    let r = Rect::new(Vec2D::new(0, 0), Vec2D::new(4, 4));
    assert!(r.contains(Vec2D::new(0, 0)));
    assert!(r.contains(Vec2D::new(4, 4)));
    assert!(r.contains(Vec2D::new(4, 0)));
    assert!(!r.contains(Vec2D::new(5, 0)));
    assert!(!r.contains(Vec2D::new(2, -1)));
}

#[test]
fn rect_intersects_touching() {
    let a = Rect::new(Vec2D::new(0, 0), Vec2D::new(4, 4));
    assert!(a.intersects(Rect::new(Vec2D::new(4, 4), Vec2D::new(6, 6))));
    assert!(a.intersects(Rect::new(Vec2D::new(1, 1), Vec2D::new(2, 2))));
    assert!(!a.intersects(Rect::new(Vec2D::new(5, 0), Vec2D::new(6, 4))));
    assert!(!a.intersects(Rect::new(Vec2D::new(0, 5), Vec2D::new(4, 6))));
}

#[test]
fn rect_quadrant_numbering() {
    let r = Rect::new(Vec2D::new(0, 0), Vec2D::new(8, 8));
    assert_eq!(r.get_quadrant(Vec2D::new(1, 1)), 2);
    assert_eq!(r.get_quadrant(Vec2D::new(1, 7)), 0);
    assert_eq!(r.get_quadrant(Vec2D::new(7, 1)), 3);
    assert_eq!(r.get_quadrant(Vec2D::new(7, 7)), 1);
    // The horizontal center line belongs to the lower half, the vertical
    // one to the right half.
    assert_eq!(r.get_quadrant(Vec2D::new(4, 4)), 3);
    assert_eq!(r.get_quadrant(Vec2D::new(1, 4)), 2);
    assert_eq!(r.get_quadrant(Vec2D::new(4, 1)), 3);
    assert_eq!(r.get_quadrant(Vec2D::new(1, 5)), 0);
    // Points outside still get a quadrant.
    assert_eq!(r.get_quadrant(Vec2D::new(-5, 20)), 0);
}

#[test]
fn rect_quarter_matches_quadrants() {
    let r = Rect::new(Vec2D::new(0, 0), Vec2D::new(8, 6));
    let q = r.quarter();
    assert_eq!(q[0], Rect::new(Vec2D::new(0, 3), Vec2D::new(4, 6)));
    assert_eq!(q[1], Rect::new(Vec2D::new(4, 3), Vec2D::new(8, 6)));
    assert_eq!(q[2], Rect::new(Vec2D::new(0, 0), Vec2D::new(4, 3)));
    assert_eq!(q[3], Rect::new(Vec2D::new(4, 0), Vec2D::new(8, 3)));
    for p in [Vec2D::new(1, 1), Vec2D::new(7, 5), Vec2D::new(4, 3), Vec2D::new(0, 6)] {
        assert!(q[r.get_quadrant(p)].contains(p));
    }
}

#[test]
fn rect_center_rounds_down() {
    let r = Rect::new(Vec2D::new(-3, 0), Vec2D::new(2, 5));
    assert_eq!(r.center(), Vec2D::new(-1, 2));
    let q = r.quarter();
    assert_eq!(q[2], Rect::new(Vec2D::new(-3, 0), Vec2D::new(-1, 2)));
}

#[test]
fn rect_new_centered() {
    let r = Rect::new_centered(Vec2D::new(5, 5), Vec2D::new(2, 2));
    assert_eq!(r, Rect::new(Vec2D::new(4, 4), Vec2D::new(6, 6)));
    // The sign of a side length does not matter.
    let s = Rect::new_centered(Vec2D::new(5, 5), Vec2D::new(-4, 3));
    assert_eq!(s, Rect::new(Vec2D::new(3, 4), Vec2D::new(7, 6)));
}

#[test]
fn vec2d_constructors() {
    assert_eq!(Vec2D::new_zero(), Vec2D::new(0, 0));
    assert_eq!(Vec2D::new_one(), Vec2D::new(1, 1));
}

#[test]
fn vec2d_box_helpers() {
    let p = Vec2D::new(3, 1);
    assert!(p.is_in_bounds(Vec2D::new(0, 0), Vec2D::new(3, 3)));
    assert!(!p.is_in_bounds(Vec2D::new(0, 2), Vec2D::new(3, 3)));
    assert_eq!(p.get_bounds_quadrant(Vec2D::new(0, 0), Vec2D::new(4, 4)), 3);
    assert_eq!(Vec2D::new(1, 3).get_bounds_quadrant(Vec2D::new(0, 0), Vec2D::new(4, 4)), 0);
    // The midpoint line belongs to the lower half; an odd size splits exactly.
    assert_eq!(Vec2D::new(1, 2).get_bounds_quadrant(Vec2D::new(0, 0), Vec2D::new(4, 4)), 2);
    assert_eq!(Vec2D::new(1, 1).get_bounds_quadrant(Vec2D::new(0, 0), Vec2D::new(3, 3)), 2);
    assert_eq!(Vec2D::new(2, 2).get_bounds_quadrant(Vec2D::new(0, 0), Vec2D::new(3, 3)), 1);
    // A negative size is accepted.
    assert_eq!(Vec2D::new(-1, -3).get_bounds_quadrant(Vec2D::new(0, 0), Vec2D::new(-4, -4)), 3);
    assert!(Vec2D::intersects(Vec2D::new(0, 0), Vec2D::new(2, 2), Vec2D::new(1, 1), Vec2D::new(2, 2)));
    // Boxes that only touch do not overlap here.
    assert!(!Vec2D::intersects(Vec2D::new(0, 0), Vec2D::new(2, 2), Vec2D::new(2, 0), Vec2D::new(2, 2)));
}
