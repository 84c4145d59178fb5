use photon_map::Vector4;

#[test]
fn accessors_work() {
    let v4 = Vector4::new(1, 2, 3, 4);
    assert_eq!(v4.x(), 1);
    assert_eq!(v4.y(), 2);
    assert_eq!(v4.z(), 3);
    assert_eq!(v4.t(), 4);
}

#[test]
fn magnitude_squared_test() {
    let v4 = Vector4::new(2, 2, 2, 2);

    assert_eq!(v4.magnitude_squared(), 16);
}

#[test]
fn distance_squared_test() {
    let src = Vector4::new(1, 1, 4, 1);
    let dst = Vector4::new(1, 1, 9, 1);

    assert_eq!(src.distance_squared(dst), 25);
}

#[test]
fn distance_squared_to_bounding_box_test() {
    let mins = Vector4::new(0, 0, 0, 0);
    let maxs = Vector4::new(8, 8, 8, 8);
    let point = Vector4::new(4, 4, 4, 11);

    assert_eq!(point.distance_squared_to_bounding_box(mins, maxs), 9);
}

#[test]
fn min_max_are_elementwise() {
    let a = Vector4::new(1, 7, -3, 9);
    let b = Vector4::new(4, 2, -5, 9);
    let mn = a.min(b);
    let mx = a.max(b);
    assert_eq!(mn, Vector4::new(1, 2, -5, 9));
    assert_eq!(mx, Vector4::new(4, 7, -3, 9));
}

#[test]
fn dot_product() {
    let a = Vector4::new(1, 2, 3, 4);
    let b = Vector4::new(5, 6, 7, 8);
    assert_eq!(a.dot(b), 5 + 12 + 21 + 32);
}

#[test]
fn equality_is_lane_wise() {
    assert_eq!(Vector4::new(1, 2, 3, 4), Vector4::new(1, 2, 3, 4));
    assert_ne!(Vector4::new(1, 2, 3, 4), Vector4::new(1, 2, 3, 5));
}

#[test]
fn box_distance_zero_inside() {
    let mins = Vector4::new(-2, -2, -2, -2);
    let maxs = Vector4::new(2, 2, 2, 2);
    assert_eq!(Vector4::new(0, 1, -2, 2).distance_squared_to_bounding_box(mins, maxs), 0);
}

#[test]
fn box_distance_outside_is_clamp_distance() {
    let mins = Vector4::new(0, 0, 0, 0);
    let maxs = Vector4::new(2, 2, 2, 2);
    // Clamp of (-3, 1, 5, 2) is (0, 1, 2, 2): squared distance 9 + 9.
    assert_eq!(Vector4::new(-3, 1, 5, 2).distance_squared_to_bounding_box(mins, maxs), 18);
}

#[test]
fn distance_squared_with_negative_lanes() {
    let a = Vector4::new(-5, 0, 0, 0);
    let b = Vector4::new(5, 0, 0, 0);
    assert_eq!(a.distance_squared(b), 100);
}
