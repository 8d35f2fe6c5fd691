use rurp::point::{squared_distance, Point};

#[test]
fn test_new_point() {
    let point = Point::new(0, 0, vec![1, 2, 3]);
    assert_eq!(point.x, 0);
    assert_eq!(point.y, 0);
    assert_eq!(point.values, vec![1, 2, 3]);

    let point = Point::new(90, -54, vec![i64::MAX; 9999]);
    assert_eq!(point.x, 90);
    assert_eq!(point.y, -54);
    assert_eq!(point.values, vec![i64::MAX; 9999]);
}

#[test]
fn test_into_tuple() {
    let point = Point::new(100, -20, vec![1]);
    let tup: (i32, i32) = point.to_tuple();
    assert_eq!(tup.0, point.x);
    assert_eq!(tup.1, point.y);
}

#[test]
fn test_into_array() {
    let point = Point::new(100, -20, vec![1]);
    let arr: [i32; 2] = point.to_array();
    assert_eq!(arr[0], point.x);
    assert_eq!(arr[1], point.y);
}

#[test]
fn test_squared_distance() {
    assert_eq!(squared_distance(0, 0, 3, 4), 25);
    assert_eq!(squared_distance(-1, -1, -1, -1), 0);
    let far = squared_distance(i32::MIN, i32::MIN, i32::MAX, i32::MAX);
    let side = (u32::MAX as u128) * (u32::MAX as u128);
    assert_eq!(far, 2 * side);
}
