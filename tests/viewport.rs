use raytracer::viewport::centre_offset;

#[test]
fn offset_from_centre() {
    assert_eq!(centre_offset(0, 10), 5);
    assert_eq!(centre_offset(5, 10), 0);
    assert_eq!(centre_offset(9, 10), -4);
    assert_eq!(centre_offset(10, 10), -5);
    assert_eq!(centre_offset(0, 7), 3);
    assert_eq!(centre_offset(6, 7), -3);
}

#[test]
fn offset_past_the_end_counts_back() {
    assert_eq!(centre_offset(12, 10), 3);
    assert_eq!(centre_offset(11, 10), 4);
}
