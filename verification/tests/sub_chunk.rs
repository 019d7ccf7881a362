use bedrockrs_level::level::dimension::Dimension;
use bedrockrs_level::level::error::SubChunkError;
use bedrockrs_level::level::level::sub_chunk_to_edit;
use bedrockrs_level::level::sub_chunk::{SubChunk, SubChunkTransition, SUB_CHUNK_VOLUME, TRANSITION_DATA_VERSION};
use bedrockrs_level::level::world_block::{BlockStateValue, LevelBlock};
use bedrockrs_level::utility::miner::idx_3_to_1;
use bedrockrs_level::utility::vector::Vec3;

fn stone() -> LevelBlock {
    LevelBlock::id(String::from("minecraft:stone"))
}

fn dirt() -> LevelBlock {
    LevelBlock::id(String::from("minecraft:dirt"))
}

fn pos() -> Vec3<i32> {
    Vec3::new(1, -2, 3)
}

#[test]
fn empty_sub_chunk_is_air() {
    let s = SubChunk::empty(pos(), Dimension::Nether);
    assert!(s.is_empty());
    assert_eq!(s.get_sub_layer_count(), 1);
    assert_eq!(s.get_active_layer(), 0);
    assert_eq!(s.position(), pos());
    assert_eq!(s.dimension(), Dimension::Nether);
    assert!(*s.get_block(Vec3::new(15, 15, 15)).unwrap() == LevelBlock::air());
    assert!(s.get_block(Vec3::new(16, 15, 15)).is_none());
    let s = s.to_init();
    assert!(!s.is_empty());
}

#[test]
fn full_sub_chunk() {
    let s = SubChunk::full(pos(), Dimension::Overworld, stone());
    assert!(!s.is_empty());
    assert!(*s.get_block(Vec3::new(3, 4, 5)).unwrap() == stone());
}

#[test]
fn set_then_get() {
    let mut s = SubChunk::empty(pos(), Dimension::Overworld);
    assert_eq!(s.set_block(Vec3::new(2, 3, 4), stone()), Ok(()));
    assert!(!s.is_empty());
    assert!(*s.get_block(Vec3::new(2, 3, 4)).unwrap() == stone());
    assert!(*s.get_block(Vec3::new(2, 4, 3)).unwrap() == LevelBlock::air());
}

#[test]
fn set_block_on_missing_layer_fails() {
    let t: SubChunkTransition = SubChunkTransition::new(pos(), 0, 9);
    let mut s = SubChunk::decode_from_transition(t, Dimension::End, &mut ()).unwrap();
    assert_eq!(s.get_sub_layer_count(), 0);
    assert!(s.get_block(Vec3::new(0, 0, 0)).is_none());
    assert_eq!(s.set_block(Vec3::new(0, 0, 0), stone()), Err(SubChunkError::LayerError(0)));
}

#[test]
fn layers() {
    let mut s = SubChunk::empty(pos(), Dimension::Overworld);
    s.add_sub_layer();
    assert_eq!(s.get_sub_layer_count(), 2);
    s.set_active_layer(1);
    assert_eq!(s.get_active_layer(), 1);
    s.set_block(Vec3::new(0, 0, 0), dirt()).unwrap();
    assert!(*s.get_block(Vec3::new(0, 0, 0)).unwrap() == dirt());
    s.set_active_layer(0);
    assert!(*s.get_block(Vec3::new(0, 0, 0)).unwrap() == LevelBlock::air());
}

#[test]
fn empty_at_layer_activates_layer() {
    let s = SubChunk::empty_at_layer(pos(), Dimension::Overworld, 2);
    assert_eq!(s.get_sub_layer_count(), 3);
    assert_eq!(s.get_active_layer(), 2);
    assert!(s.is_empty());
    let s0 = SubChunk::empty_at_layer(pos(), Dimension::Overworld, 0);
    assert_eq!(s0.get_sub_layer_count(), 1);
}

#[test]
fn force_flags() {
    let mut s = SubChunk::empty(pos(), Dimension::Overworld);
    s.force_non_empty();
    assert!(!s.is_empty());
    s.force_empty();
    assert!(s.is_empty());
}

#[test]
fn palette_in_walk_order() {
    let mut s = SubChunk::empty(pos(), Dimension::Overworld);
    // The walk visits z, then y, then x (fastest): (1, 0, 0) comes before (0, 1, 0).
    s.set_block(Vec3::new(0, 1, 0), dirt()).unwrap();
    s.set_block(Vec3::new(1, 0, 0), stone()).unwrap();
    let (indices, palette) = s.encode_single_layer(0);
    assert_eq!(indices.len(), SUB_CHUNK_VOLUME);
    assert_eq!(palette.len(), 3);
    assert!(palette[0] == LevelBlock::air());
    assert!(palette[1] == stone());
    assert!(palette[2] == dirt());
    assert_eq!(indices[idx_3_to_1(Vec3::new(1, 0, 0), 16, 16)], 1);
    assert_eq!(indices[idx_3_to_1(Vec3::new(0, 1, 0), 16, 16)], 2);
    assert_eq!(indices[idx_3_to_1(Vec3::new(5, 5, 5), 16, 16)], 0);
}

#[test]
fn palette_has_no_duplicates_for_equal_states() {
    let mut s = SubChunk::empty(pos(), Dimension::Overworld);
    let a = LevelBlock {
        name: "minecraft:log".into(),
        states: vec![("a".into(), BlockStateValue::Int(1)), ("b".into(), BlockStateValue::Bool(true))],
    };
    let b = LevelBlock {
        name: "minecraft:log".into(),
        states: vec![("b".into(), BlockStateValue::Bool(true)), ("a".into(), BlockStateValue::Int(1))],
    };
    s.set_block(Vec3::new(0, 0, 0), a).unwrap();
    s.set_block(Vec3::new(0, 0, 1), b).unwrap();
    let (_, palette) = s.encode_single_layer(0);
    assert_eq!(palette.len(), 2);
}

#[test]
fn transition_round_trip() {
    let mut s = SubChunk::full(pos(), Dimension::Overworld, stone());
    s.set_block(Vec3::new(7, 8, 9), dirt()).unwrap();
    s.add_sub_layer();
    let t = s.to_transition(&mut ()).unwrap();
    assert_eq!(t.data_version(), TRANSITION_DATA_VERSION);
    assert_eq!(t.position(), pos());
    assert_eq!(t.layers().len(), 2);
    assert!(t.indices_in_palette());
    let back = SubChunk::decode_from_transition(t, Dimension::Overworld, &mut ()).unwrap();
    assert!(back == s.clone().to_init());
    assert!(*back.get_block(Vec3::new(7, 8, 9)).unwrap() == dirt());
    assert!(*back.get_block(Vec3::new(7, 8, 8)).unwrap() == stone());
}

#[test]
fn decode_rebuilds_from_palette() {
    let mut t: SubChunkTransition = SubChunkTransition::new(pos(), 1, 8);
    let mut indices = vec![1u16; SUB_CHUNK_VOLUME];
    indices[0] = 0;
    t.new_layer((indices, vec![dirt(), stone()]));
    let s = SubChunk::decode_from_transition(t, Dimension::Overworld, &mut ()).unwrap();
    assert!(*s.get_block(Vec3::new(0, 0, 0)).unwrap() == dirt());
    assert!(*s.get_block(Vec3::new(0, 1, 0)).unwrap() == stone());
    assert!(!s.is_empty());
    assert_eq!(s.get_active_layer(), 0);
}

#[test]
fn transition_full_and_air() {
    let t = SubChunkTransition::full(pos(), 9, stone());
    assert_eq!(t.layers().len(), 1);
    assert!(t.layers()[0].0.iter().all(|i| *i == 0));
    assert!(t.layers()[0].1.len() == 1 && t.layers()[0].1[0] == stone());
    let a = SubChunkTransition::air(pos(), 8);
    assert_eq!(a.data_version(), 8);
    assert!(a.layers()[0].1[0] == LevelBlock::air());
}

#[test]
fn indices_outside_palette_are_reported() {
    let mut t: SubChunkTransition = SubChunkTransition::new(pos(), 1, 8);
    t.new_layer((vec![1u16; SUB_CHUNK_VOLUME], vec![dirt()]));
    assert!(!t.indices_in_palette());
}

#[test]
fn fill_region_sets_box() {
    let mut s = SubChunk::empty(pos(), Dimension::Overworld);
    assert_eq!(s.fill_region((1, 2), (0, 15), (3, 3), &stone()), Ok(()));
    assert!(!s.is_empty());
    assert!(*s.get_block(Vec3::new(1, 0, 3)).unwrap() == stone());
    assert!(*s.get_block(Vec3::new(2, 15, 3)).unwrap() == stone());
    assert!(*s.get_block(Vec3::new(3, 0, 3)).unwrap() == LevelBlock::air());
    assert!(*s.get_block(Vec3::new(1, 0, 4)).unwrap() == LevelBlock::air());
    let mut e = SubChunk::empty(pos(), Dimension::Overworld);
    assert_eq!(e.fill_region((2, 1), (0, 15), (0, 15), &stone()), Ok(()));
    assert!(e.is_empty());
}

#[test]
fn fill_region_on_missing_layer_fails() {
    let t: SubChunkTransition = SubChunkTransition::new(pos(), 0, 9);
    let mut s = SubChunk::decode_from_transition(t, Dimension::End, &mut ()).unwrap();
    assert_eq!(s.fill_region((0, 0), (0, 0), (0, 0), &stone()), Err(SubChunkError::LayerError(0)));
}

#[test]
fn clone_and_equality() {
    let mut s = SubChunk::empty(pos(), Dimension::Overworld);
    let c = s.clone();
    assert!(c == s);
    s.set_block(Vec3::new(0, 0, 0), stone()).unwrap();
    assert!(c != s);
}

#[test]
fn marked_empty_only_while_all_air() {
    let mut s = SubChunk::empty_at_layer(pos(), Dimension::Overworld, 1);
    assert!(s.is_empty());
    for x in 0..16u8 {
        for y in 0..16u8 {
            for z in 0..16u8 {
                assert!(*s.get_block(Vec3::new(x, y, z)).unwrap() == LevelBlock::air());
            }
        }
    }
    s.add_sub_layer();
    assert!(s.is_empty());
    s.set_block(Vec3::new(3, 3, 3), stone()).unwrap();
    assert!(!s.is_empty());
}

#[test]
fn sub_chunk_to_edit_keeps_stored_or_makes_air() {
    let mut stored = SubChunk::full(pos(), Dimension::Overworld, stone());
    stored.add_sub_layer();
    stored.set_active_layer(1);
    stored.set_block(Vec3::new(1, 2, 3), dirt()).unwrap();
    stored.set_active_layer(0);
    // the stored sub chunk, with the asked layer active
    let kept = sub_chunk_to_edit(Some(stored.clone()), Vec3::new(9, 9, 9), Dimension::End, 1);
    assert_eq!(kept.get_active_layer(), 1);
    assert_eq!(kept.get_sub_layer_count(), 2);
    assert_eq!(kept.position(), pos());
    assert!(*kept.get_block(Vec3::new(1, 2, 3)).unwrap() == dirt());
    // a layer that the stored sub chunk lacks is added as air
    let grown = sub_chunk_to_edit(Some(stored.clone()), Vec3::new(9, 9, 9), Dimension::End, 3);
    assert_eq!(grown.get_sub_layer_count(), 4);
    assert_eq!(grown.get_active_layer(), 3);
    assert!(*grown.get_block(Vec3::new(1, 2, 3)).unwrap() == LevelBlock::air());
    // nothing stored: layers of air
    let made = sub_chunk_to_edit(None, Vec3::new(9, 9, 9), Dimension::End, 1);
    assert_eq!(made.get_sub_layer_count(), 2);
    assert_eq!(made.get_active_layer(), 1);
    assert!(made.is_empty());
    assert_eq!(made.position(), Vec3::new(9, 9, 9));
    assert_eq!(made.dimension(), Dimension::End);
}
