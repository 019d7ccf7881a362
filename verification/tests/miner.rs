use bedrockrs_level::utility::miner::{bounds_left_optimized, idx_3_to_1, in_range};
use bedrockrs_level::utility::vector::Vec3;

#[test]
fn bounds_left() {
    assert_eq!(
        bounds_left_optimized(Vec3::new(-3, -3, -3), Vec3::new(5, 5, 5)),
        (Vec3::new(-3, -3, -3), Vec3::new(5, 5, 5))
    );

    assert_eq!(
        bounds_left_optimized(Vec3::new(10, -3, -3), Vec3::new(5, 5, 5)),
        (Vec3::new(5, -3, -3), Vec3::new(10, 5, 5))
    );
}

#[test]
fn bounds_left_mixed() {
    assert_eq!(
        bounds_left_optimized(Vec3::new(1, 9, -2), Vec3::new(4, -7, -8)),
        (Vec3::new(1, -7, -8), Vec3::new(4, 9, -2))
    );
}

#[test]
fn flat_index() {
    assert_eq!(idx_3_to_1(Vec3::new(0, 0, 0), 16, 16), 0);
    assert_eq!(idx_3_to_1(Vec3::new(1, 2, 3), 16, 16), 256 + 3 * 16 + 2);
    assert_eq!(idx_3_to_1(Vec3::new(15, 15, 15), 16, 16), 4095);
    assert_eq!(idx_3_to_1(Vec3::new(255, 255, 255), 255, 255), 255 * 255 * 255 + 255 * 255 + 255);
}

#[test]
fn exclusive_range() {
    assert!(in_range(1, 3, 2));
    assert!(!in_range(1, 3, 1));
    assert!(!in_range(1, 3, 3));
    assert!(!in_range(3, 1, 2));
}
