use rurp::bounds::{Bounds, BoundsError};

fn check_new(left: i32, bottom: i32, right: i32, top: i32) {
    let bounds = Bounds::new(left, bottom, right, top).unwrap();
    assert_eq!(bounds.left(), left);
    assert_eq!(bounds.bottom(), bottom);
    assert_eq!(bounds.right(), right);
    assert_eq!(bounds.top(), top);
}

#[test]
fn test_new() {
    check_new(0, 1, 2, 3);
    check_new(-20_000, -30_000, 2_500, 600_000);
}

#[test]
fn test_error_if_left_gte_right() {
    for (left, right) in [(1, 0), (0, 0)] {
        let result = Bounds::new(left, 1, right, 3);
        assert!(result.is_err());
        let err = result.unwrap_err();
        assert_eq!(err, BoundsError::LeftNotLessThanRight);
        assert!(err.message().contains("left must be less than right"));
    }
}

#[test]
fn test_error_if_bottom_gte_top() {
    for (bottom, top) in [(1, 0), (0, 0)] {
        let result = Bounds::new(0, bottom, 1, top);
        assert!(result.is_err());
        let err = result.unwrap_err();
        assert_eq!(err, BoundsError::BottomNotLessThanTop);
        assert!(err.message().contains("bottom must be less than top"));
    }
}

#[test]
fn test_left_error_comes_first() {
    assert_eq!(Bounds::new(5, 5, 5, 5), Err(BoundsError::LeftNotLessThanRight));
}

#[test]
fn test_from_tuple() {
    let bounds_tup = (-2_221_060, 523_589, 3_181_702, 3_363_319);
    let bounds = Bounds::try_from_tuple(bounds_tup).unwrap();
    assert_eq!(bounds.left(), bounds_tup.0);
    assert_eq!(bounds.bottom(), bounds_tup.1);
    assert_eq!(bounds.right(), bounds_tup.2);
    assert_eq!(bounds.top(), bounds_tup.3);
    assert_eq!(bounds.to_tuple(), bounds_tup);
}

#[test]
fn test_from_array() {
    let bounds_arr = [-2, -2, 0, 0];
    let bounds = Bounds::try_from_array(bounds_arr).unwrap();
    assert_eq!(bounds.left(), bounds_arr[0]);
    assert_eq!(bounds.bottom(), bounds_arr[1]);
    assert_eq!(bounds.right(), bounds_arr[2]);
    assert_eq!(bounds.top(), bounds_arr[3]);
    assert_eq!(bounds.to_array(), bounds_arr);
}

#[test]
fn test_from_array_rejects_empty() {
    assert_eq!(Bounds::try_from_array([0, 3, 1, 3]), Err(BoundsError::BottomNotLessThanTop));
}

#[test]
fn test_tuple_round_trip() {
    let bounds = Bounds::new(-7, 3, 12, 40).unwrap();
    assert_eq!(Bounds::try_from_tuple(bounds.to_tuple()), Ok(bounds));
    assert_eq!(Bounds::try_from_array(bounds.to_array()), Ok(bounds));
}
