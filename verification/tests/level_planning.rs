use bedrockrs_level::level::dimension::Dimension;
use bedrockrs_level::level::level::{
    chunk_deletion_keys, fill_action, fill_bounds, ChunkExistence, ChunkKey, FillAction, LevelConfiguration,
};
use bedrockrs_level::utility::vector::{Vec2, Vec3};

#[test]
fn default_configuration() {
    let c = LevelConfiguration::default();
    assert_eq!(c.sub_chunk_range, Vec2::new(-4, 20));
    assert!(!c.rw_cache);
    assert!(!c.create_db_if_missing);
}

#[test]
fn deletion_keys_cover_range_then_marker() {
    let keys = chunk_deletion_keys(Vec2::new(3, -4), Dimension::End, Vec2::new(-1, 1));
    assert_eq!(
        keys,
        vec![
            ChunkKey::new_sub_chunk(Vec3::new(3, -1, -4), Dimension::End),
            ChunkKey::new_sub_chunk(Vec3::new(3, 0, -4), Dimension::End),
            ChunkKey::new_sub_chunk(Vec3::new(3, 1, -4), Dimension::End),
            ChunkKey::chunk_marker(Vec2::new(3, -4), Dimension::End),
        ]
    );
    let empty = chunk_deletion_keys(Vec2::new(0, 0), Dimension::Overworld, Vec2::new(2, 1));
    assert_eq!(empty, vec![ChunkKey::chunk_marker(Vec2::new(0, 0), Dimension::Overworld)]);
    let full = chunk_deletion_keys(Vec2::new(0, 0), Dimension::Overworld, Vec2::new(i8::MIN, i8::MAX));
    assert_eq!(full.len(), 257);
}

#[test]
fn existence_insert_remove() {
    let mut e = ChunkExistence::new();
    assert!(!e.contains(Dimension::Overworld, Vec2::new(0, 0)));
    e.insert(Dimension::Overworld, Vec2::new(0, 0));
    e.insert(Dimension::Overworld, Vec2::new(0, 0));
    e.insert(Dimension::Nether, Vec2::new(0, 0));
    assert!(e.contains(Dimension::Overworld, Vec2::new(0, 0)));
    assert_eq!(e.entries().len(), 2);
    e.remove(Dimension::Overworld, Vec2::new(0, 0));
    assert!(!e.contains(Dimension::Overworld, Vec2::new(0, 0)));
    assert!(e.contains(Dimension::Nether, Vec2::new(0, 0)));
    e.remove(Dimension::End, Vec2::new(9, 9));
    assert_eq!(e.entries(), vec![(Dimension::Nether, Vec2::new(0, 0))]);
}

#[test]
fn existence_by_dimension_and_markers() {
    let e = ChunkExistence::from_chunks(vec![
        (Dimension::Overworld, Vec2::new(1, 2)),
        (Dimension::End, Vec2::new(3, 4)),
        (Dimension::Overworld, Vec2::new(1, 2)),
        (Dimension::Overworld, Vec2::new(5, 6)),
    ]);
    let mut over = e.chunks_in_dimension(Dimension::Overworld);
    over.sort_by_key(|v| (v.x, v.y));
    assert_eq!(over, vec![Vec2::new(1, 2), Vec2::new(5, 6)]);
    assert!(e.chunks_in_dimension(Dimension::Nether).is_empty());
    let markers = e.marker_keys();
    assert_eq!(markers.len(), 3);
    assert!(markers.contains(&ChunkKey::chunk_marker(Vec2::new(3, 4), Dimension::End)));
}

#[test]
fn fill_bounds_orders_corners() {
    let b = fill_bounds(Vec3::new(40, -3, 17), Vec3::new(-20, 5, 17));
    assert_eq!(b.min, Vec3::new(-2, -1, 1));
    assert_eq!(b.local_min, Vec3::new(12, 13, 1));
    assert_eq!(b.max, Vec3::new(2, 0, 1));
    assert_eq!(b.local_max, Vec3::new(8, 5, 1));
}

#[test]
fn fill_actions() {
    let b = fill_bounds(Vec3::new(0, 0, 0), Vec3::new(47, 47, 47));
    assert!(matches!(fill_action(&b, 1, 1, 1), FillAction::Replace));
    match fill_action(&b, 2, 1, 1) {
        FillAction::Patch { x, y, z } => {
            assert_eq!(x, (0, 15));
            assert_eq!(y, (0, 15));
            assert_eq!(z, (0, 15));
        }
        FillAction::Replace => panic!("expected a patch"),
    }
    let b = fill_bounds(Vec3::new(5, 0, 0), Vec3::new(40, 40, 40));
    // a sub chunk between the corners along x, on the lower corner along y, is set over
    // its whole width along x
    match fill_action(&b, 1, 0, 0) {
        FillAction::Patch { x, y, z } => {
            assert_eq!(x, (0, 15));
            assert_eq!(y, (0, 15));
            assert_eq!(z, (0, 15));
        }
        FillAction::Replace => panic!("expected a patch"),
    }
    match fill_action(&b, 0, 2, 2) {
        FillAction::Patch { x, y, z } => {
            assert_eq!(x, (5, 15));
            assert_eq!(y, (0, 8));
            assert_eq!(z, (0, 8));
        }
        FillAction::Replace => panic!("expected a patch"),
    }
}

#[test]
fn fill_inside_one_sub_chunk() {
    let b = fill_bounds(Vec3::new(2, 0, 0), Vec3::new(3, 0, 0));
    match fill_action(&b, 0, 0, 0) {
        FillAction::Patch { x, y, z } => {
            assert_eq!(x, (2, 3));
            assert_eq!(y, (0, 0));
            assert_eq!(z, (0, 0));
        }
        FillAction::Replace => panic!("expected a patch"),
    }
}
