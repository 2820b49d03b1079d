use kmeans2d::point::Point;

#[test]
fn test_distance_sq() {
    // unit vectors along the axes, in tenth-units: squared length 100
    assert_eq!(Point::new(0, 0).distance_sq(&Point::new(0, 10)), 100);
    assert_eq!(Point::new(0, 0).distance_sq(&Point::new(10, 0)), 100);
    assert_eq!(Point::new(0, 0).distance_sq(&Point::new(-10, 0)), 100);
    assert_eq!(Point::new(0, 0).distance_sq(&Point::new(0, -10)), 100);
    // (4.0, 3.0) to (3.0, -2.0): squared distance 1 + 25 = 26, so 2600
    assert_eq!(Point::new(40, 30).distance_sq(&Point::new(30, -20)), 2600);
}

#[test]
fn test_distance_sq_self_is_zero() {
    let p = Point::new(-123, 456);
    assert_eq!(p.distance_sq(&p), 0);
}

#[test]
fn test_distance_sq_symmetric() {
    let a = Point::new(70, 90);
    let b = Point::new(-20, -63);
    assert_eq!(a.distance_sq(&b), b.distance_sq(&a));
    assert!(a.distance_sq(&b) >= 0);
}

#[test]
fn test_origin() {
    let o = Point::origin();
    assert_eq!(o, Point::new(0, 0));
}
