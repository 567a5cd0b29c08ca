use rtc::texture::texel_index;

#[test]
fn texel_inside_the_image() {
    assert_eq!(texel_index(4, 3, 2, 1), 6);
    assert_eq!(texel_index(4, 3, 0, 0), 0);
    assert_eq!(texel_index(4, 3, 3, 2), 11);
}

#[test]
fn texel_past_the_edge_is_clamped() {
    assert_eq!(texel_index(4, 3, 10, 1), 7);
    assert_eq!(texel_index(4, 3, 2, 5), 10);
    assert_eq!(texel_index(4, 3, 4, 3), 11);
    assert_eq!(texel_index(1, 1, 9, 9), 0);
}
