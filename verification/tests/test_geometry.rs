use quasar_chess_engine::quasar::geometry::Point;

#[test]
fn test_point_creation() {
    let p = Point::new(3, 4);
    assert_eq!(p.x, 3);
    assert_eq!(p.y, 4);
}

#[test]
fn test_point_addition() {
    let p1 = Point::new(1, 2);
    let p2 = Point::new(3, 4);
    let result = p1.add(p2);
    assert_eq!(result.x, 4);
    assert_eq!(result.y, 6);
}

#[test]
fn test_point_subtraction() {
    let p1 = Point::new(5, 7);
    let p2 = Point::new(2, 3);
    let result = p1.sub(p2);
    assert_eq!(result.x, 3);
    assert_eq!(result.y, 4);
}

#[test]
fn test_point_multiplication() {
    let p = Point::new(2, 3);
    let result = p.mul(3);
    assert_eq!(result.x, 6);
    assert_eq!(result.y, 9);
}

#[test]
fn test_point_division() {
    let p = Point::new(6, 9);
    let result = p.div(3);
    assert_eq!(result.x, 2);
    assert_eq!(result.y, 3);
}

#[test]
fn test_point_operations_chaining() {
    let p1 = Point::new(1, 2);
    let p2 = Point::new(3, 4);
    let p3 = Point::new(1, 1);
    let result = p1.add(p2).mul(2).sub(p3);
    assert_eq!(result.x, 7);
    assert_eq!(result.y, 11);
}

#[test]
fn test_checked_add_at_edge() {
    let p = Point::new(i128::MAX, 0);
    assert_eq!(p.checked_add(Point::new(1, 0)), None);
    assert_eq!(p.checked_add(Point::new(0, -1)), Some(Point::new(i128::MAX, -1)));
    let q = Point::new(i128::MIN, i128::MIN);
    assert_eq!(q.checked_add(Point::new(-1, 0)), None);
    assert_eq!(q.checked_add(Point::new(1, 1)), Some(Point::new(i128::MIN + 1, i128::MIN + 1)));
}

#[test]
fn test_division_truncates_toward_zero() {
    let p = Point::new(-7, 7);
    let r = p.div(2);
    assert_eq!(r.x, -3);
    assert_eq!(r.y, 3);
    let s = Point::new(-9, 9).div(-2);
    assert_eq!(s.x, 4);
    assert_eq!(s.y, -4);
}
