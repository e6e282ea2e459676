use rogue_core::position::Position;
use rogue_core::rectangle::Rectangle;

#[test]
fn position_add_sub() {
    let a = Position { x: 3, y: -4 };
    let b = Position { x: -1, y: 10 };
    let s = a.add(b);
    assert_eq!(s.x, 2);
    assert_eq!(s.y, 6);
    let d = a.sub(b);
    assert_eq!(d.x, 4);
    assert_eq!(d.y, -14);
}

#[test]
fn position_div_truncates_toward_zero() {
    let a = Position { x: 7, y: -7 };
    let b = Position { x: 2, y: 2 };
    let q = a.div(b);
    assert_eq!(q.x, 3);
    assert_eq!(q.y, -3);
    let c = Position { x: -9, y: 9 };
    let e = Position { x: -2, y: -2 };
    let q2 = c.div(e);
    assert_eq!(q2.x, 4);
    assert_eq!(q2.y, -4);
}

#[test]
fn rectangle_center_truncates() {
    let r = Rectangle::new(Position { x: 10, y: 10 }, Position { x: 20, y: 18 });
    let c = r.center();
    assert_eq!(c.x, 15);
    assert_eq!(c.y, 14);
    let odd = Rectangle::new(Position { x: 0, y: 0 }, Position { x: 5, y: 7 });
    let co = odd.center();
    assert_eq!(co.x, 2);
    assert_eq!(co.y, 3);
}

#[test]
fn rectangle_intersect_overlapping() {
    let a = Rectangle::new(Position { x: 0, y: 0 }, Position { x: 10, y: 10 });
    let b = Rectangle::new(Position { x: 5, y: 5 }, Position { x: 15, y: 15 });
    assert!(a.intersect(&b));
    assert!(b.intersect(&a));
}

#[test]
fn rectangle_intersect_disjoint() {
    let a = Rectangle::new(Position { x: 0, y: 0 }, Position { x: 4, y: 4 });
    let b = Rectangle::new(Position { x: 6, y: 0 }, Position { x: 10, y: 4 });
    assert!(!a.intersect(&b));
    assert!(!b.intersect(&a));
}

#[test]
fn rectangle_intersect_touching_corner_counts() {
    let a = Rectangle::new(Position { x: 0, y: 0 }, Position { x: 5, y: 5 });
    let b = Rectangle::new(Position { x: 5, y: 5 }, Position { x: 10, y: 10 });
    assert!(a.intersect(&b));
    assert!(b.intersect(&a));
}

#[test]
fn rectangle_intersect_touching_edge_counts() {
    let a = Rectangle::new(Position { x: 0, y: 0 }, Position { x: 5, y: 5 });
    let b = Rectangle::new(Position { x: 5, y: 0 }, Position { x: 9, y: 5 });
    assert!(a.intersect(&b));
}
