use bedrockrs_level::level::world_block::{BlockStateValue, BlockTransition, LevelBlock};
use bedrockrs_level::utility::vector::Vec3;

#[test]
fn position_translation_tests() {
    // Test values from minecraft java's debug menu
    assert_eq!(
        LevelBlock::block_pos_to_sub_chunk(Vec3::new(117, 73, -163)),
        (Vec3::new(7, 4, -11), Vec3::new(5, 9, 13))
    );
    assert_eq!(
        LevelBlock::block_pos_to_sub_chunk(Vec3::new(117, -53, -163)),
        (Vec3::new(7, -4, -11), Vec3::new(5, 11, 13))
    );
    assert_eq!(
        LevelBlock::block_pos_to_sub_chunk(Vec3::new(164, -39, -219)),
        (Vec3::new(10, -3, -14), Vec3::new(4, 9, 5))
    );
    assert_eq!(
        LevelBlock::block_pos_to_sub_chunk(Vec3::new(0, -3, 0)),
        (Vec3::new(0, -1, 0), Vec3::new(0, 13, 0))
    );
    assert_eq!(
        LevelBlock::block_pos_to_sub_chunk(Vec3::new(16, -16, 16)),
        (Vec3::new(1, -1, 1), Vec3::new(0, 0, 0))
    );
}

#[test]
fn position_translation_extremes() {
    assert_eq!(
        LevelBlock::block_pos_to_sub_chunk(Vec3::new(i32::MIN, i32::MAX, -1)),
        (Vec3::new(i32::MIN / 16, i32::MAX / 16, -1), Vec3::new(0, 15, 15))
    );
}

#[test]
fn air_and_id() {
    let air = LevelBlock::air();
    assert_eq!(air.name, "minecraft:air");
    assert!(air.states.is_empty());
    let stone = LevelBlock::id(String::from("minecraft:stone"));
    assert_eq!(stone.name, "minecraft:stone");
    assert!(stone.states.is_empty());
    assert_eq!(stone.get_id(), "minecraft:stone");
}

fn block(name: &str, states: Vec<(&str, BlockStateValue)>) -> LevelBlock {
    LevelBlock {
        name: name.to_string(),
        states: states.into_iter().map(|(k, v)| (k.to_string(), v)).collect(),
    }
}

#[test]
fn block_equality_ignores_state_order() {
    let a = block(
        "minecraft:log",
        vec![("axis", BlockStateValue::String("y".into())), ("age", BlockStateValue::Int(3))],
    );
    let b = block(
        "minecraft:log",
        vec![("age", BlockStateValue::Int(3)), ("axis", BlockStateValue::String("y".into()))],
    );
    assert!(a == b);
    let c = block(
        "minecraft:log",
        vec![("age", BlockStateValue::Int(4)), ("axis", BlockStateValue::String("y".into()))],
    );
    assert!(a != c);
    let d = block("minecraft:log", vec![("age", BlockStateValue::Int(3))]);
    assert!(a != d);
    assert!(d != a);
    let e = block(
        "minecraft:wood",
        vec![("axis", BlockStateValue::String("y".into())), ("age", BlockStateValue::Int(3))],
    );
    assert!(a != e);
    assert!(BlockStateValue::Bool(true) != BlockStateValue::Int(1));
    assert!(BlockStateValue::Bool(true) == BlockStateValue::Bool(true));
}

#[test]
fn later_state_entry_wins() {
    let a = block(
        "minecraft:log",
        vec![("age", BlockStateValue::Int(1)), ("age", BlockStateValue::Int(3))],
    );
    let b = block("minecraft:log", vec![("age", BlockStateValue::Int(3))]);
    assert!(a == b);
}

#[test]
fn block_clone_is_equal() {
    let a = block("minecraft:wool", vec![("color", BlockStateValue::String("red".into()))]);
    let b = a.clone();
    assert!(a == b);
    assert_eq!(b.name, "minecraft:wool");
    let c = LevelBlock::from_other(&a);
    assert!(c == a);
    let d = LevelBlock::from_transition(a.clone()).into_transition();
    assert!(d == a);
}
