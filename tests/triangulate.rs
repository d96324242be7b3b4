use graphics_lib::triangulate::triangulate_convex;

#[test]
fn pentagon_becomes_a_fan_of_three_triangles() {
    let v = [10, 11, 12, 13, 14];
    assert_eq!(triangulate_convex(&v), vec![10, 11, 12, 10, 12, 13, 10, 13, 14]);
}

#[test]
fn triangle_stays_itself() {
    assert_eq!(triangulate_convex(&['a', 'b', 'c']), vec!['a', 'b', 'c']);
}

#[test]
fn degenerate_polygons_give_no_triangle() {
    assert!(triangulate_convex::<u8>(&[]).is_empty());
    assert!(triangulate_convex(&[1]).is_empty());
    assert!(triangulate_convex(&[1, 2]).is_empty());
}

#[test]
fn fan_keeps_vertex_payloads() {
    let v = [(0.0f32, 1.0f32), (1.0, 0.0), (2.0, 2.0), (0.5, 3.0)];
    let t = triangulate_convex(&v);
    assert_eq!(t.len(), 6);
    assert_eq!(t[3], v[0]);
    assert_eq!(t[5], v[3]);
}
