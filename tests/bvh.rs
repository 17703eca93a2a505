use pathtracer::morton::morton_code;

#[test]
fn bvh_test_morton_code() {
    let mc = morton_code(4, 0b0000_1001, 0b0000_1100, 0b0000_0011);
    assert_eq!(mc, 0b1100_1000_1101_0000__0000_0000_0000_0000__0000_0000_0000_0000__0000_0000_0000_0000);
}
