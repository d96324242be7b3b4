use graphics_lib::animation::RotationType;

#[test]
fn rotation_planes_leave_out_the_axis() {
    assert_eq!(RotationType::X.plane(), (1, 2));
    assert_eq!(RotationType::Y.plane(), (0, 2));
    assert_eq!(RotationType::Z.plane(), (0, 1));
}
