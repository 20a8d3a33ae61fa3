use raytracer::polygon::fan_triangles;

#[test]
fn fan_of_a_pentagon() {
    assert_eq!(fan_triangles(5), vec![(0, 1, 2), (0, 2, 3), (0, 3, 4)]);
}

#[test]
fn fan_of_a_triangle_is_itself() {
    assert_eq!(fan_triangles(3), vec![(0, 1, 2)]);
}

#[test]
fn no_fan_below_three_vertices() {
    assert!(fan_triangles(0).is_empty());
    assert!(fan_triangles(1).is_empty());
    assert!(fan_triangles(2).is_empty());
}
