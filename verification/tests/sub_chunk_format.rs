use bedrockrs_level::level::nbt_net_scan::net_varints_fit_in;
use bedrockrs_level::level::sub_chunk::{SubChunkTransition, SUB_CHUNK_VOLUME};
use bedrockrs_level::level::sub_chunk_format::{NbtBlock, SubChunkDecoderError, SubChunkSerDe};
use bedrockrs_level::utility::vector::{Vec2, Vec3};
use std::collections::HashMap;

fn block_value(name: &str) -> nbtx::Value {
    let mut fields = HashMap::new();
    fields.insert("name".to_string(), nbtx::Value::String(name.to_string()));
    fields.insert("states".to_string(), nbtx::Value::Compound(HashMap::new()));
    nbtx::Value::Compound(fields)
}

fn disk_entry(name: &str) -> NbtBlock {
    NbtBlock { network: false, bytes: nbtx::to_le_bytes(&block_value(name)).unwrap() }
}

fn net_entry(name: &str) -> NbtBlock {
    NbtBlock { network: true, bytes: nbtx::to_net_bytes(&block_value(name)).unwrap() }
}

fn two_block_transition(y: i32) -> SubChunkTransition<NbtBlock> {
    let mut t = SubChunkTransition::new(Vec3::new(4, y, -5), 1, 9);
    let indices: Vec<u16> = (0..SUB_CHUNK_VOLUME).map(|i| (i % 3 == 0) as u16).collect();
    t.new_layer((indices, vec![disk_entry("minecraft:air"), disk_entry("minecraft:stone")]));
    t
}

fn decode(bytes: &[u8], xz: Vec2<i32>) -> Result<SubChunkTransition<NbtBlock>, SubChunkDecoderError> {
    decode_at(bytes, 0, xz).0
}

fn decode_at(bytes: &[u8], start: usize, xz: Vec2<i32>) -> (Result<SubChunkTransition<NbtBlock>, SubChunkDecoderError>, usize) {
    let mut position = start;
    let r = SubChunkSerDe.decode_bytes_as_sub_chunk(bytes, &mut position, xz);
    (r, position)
}

#[test]
fn encode_then_decode_gives_the_sub_chunk_back() {
    let t = two_block_transition(-3);
    let expected_indices = t.layers()[0].0.clone();
    let expected_entries: Vec<Vec<u8>> = t.layers()[0].1.iter().map(|e| e.bytes.clone()).collect();
    let bytes = SubChunkSerDe.write_as_bytes(t, false).unwrap();
    let back = decode(&bytes, Vec2::new(4, -5)).unwrap();
    assert_eq!(back.position(), Vec3::new(4, -3, -5));
    assert_eq!(back.data_version(), 9);
    assert_eq!(back.layers().len(), 1);
    assert_eq!(back.layers()[0].0, expected_indices);
    let entries: Vec<Vec<u8>> = back.layers()[0].1.iter().map(|e| e.bytes.clone()).collect();
    assert_eq!(entries, expected_entries);
    assert!(back.layers()[0].1.iter().all(|e| !e.network));
}

#[test]
fn encoded_layout() {
    let t = two_block_transition(2);
    let entry_len: usize = t.layers()[0].1.iter().map(|e| e.bytes.len()).sum();
    let bytes = SubChunkSerDe.write_as_bytes(t, false).unwrap();
    // version, layer count, y
    assert_eq!(&bytes[0..3], &[9, 1, 2]);
    // two palette entries need 2 bits per block: the palette type is 2 << 1
    assert_eq!(bytes[3], 4);
    // 16 indices per word, 256 words
    let words_end = 4 + 256 * 4;
    // the first word holds indices 0..16: 1 for every third block
    let mut first = 0u32;
    for i in 0..16u32 {
        if i % 3 == 0 {
            first |= 1 << (2 * i);
        }
    }
    assert_eq!(&bytes[4..8], &first.to_le_bytes());
    assert_eq!(&bytes[words_end..words_end + 4], &[2, 0, 0, 0]);
    assert_eq!(bytes.len(), words_end + 4 + entry_len);
}

#[test]
fn network_palette_type_is_shifted_by_two() {
    let mut t = SubChunkTransition::new(Vec3::new(0, 0, 0), 1, 9);
    t.new_layer((vec![0u16; SUB_CHUNK_VOLUME], vec![net_entry("minecraft:air")]));
    let bytes = SubChunkSerDe.write_as_bytes(t, true).unwrap();
    // one palette entry needs 1 bit per block
    assert_eq!(bytes[3], 1 << 2);
}

#[test]
fn negative_y_is_written_as_a_byte() {
    let bytes = SubChunkSerDe.write_as_bytes(two_block_transition(-1), false).unwrap();
    assert_eq!(bytes[2], 0xff);
}

#[test]
fn decode_network_entries() {
    let entry = net_entry("minecraft:stone");
    let mut bytes = vec![8u8, 1, 0, (1 << 1) | 1];
    bytes.extend(std::iter::repeat(0u8).take(128 * 4));
    bytes.extend_from_slice(&1u32.to_le_bytes());
    bytes.extend_from_slice(&entry.bytes);
    bytes.extend_from_slice(&[7, 7, 7]);
    let back = decode(&bytes, Vec2::new(0, 0)).unwrap();
    assert_eq!(back.data_version(), 8);
    assert_eq!(back.layers()[0].1.len(), 1);
    assert!(back.layers()[0].1[0].network);
    assert_eq!(back.layers()[0].1[0].bytes, entry.bytes);
    assert!(back.layers()[0].0.iter().all(|i| *i == 0));
}

#[test]
fn decode_without_layers() {
    let back = decode(&[9, 0, 5, 1, 2, 3], Vec2::new(-7, 8)).unwrap();
    assert_eq!(back.position(), Vec3::new(-7, 5, 8));
    assert_eq!(back.layers().len(), 0);
}

#[test]
fn decode_empty_input() {
    let r = decode(&[], Vec2::new(0, 0));
    assert!(matches!(r, Err(SubChunkDecoderError::BinaryError(_))));
}

#[test]
fn decode_unknown_version() {
    let r = decode(&[7, 0, 0], Vec2::new(0, 0));
    assert!(matches!(r, Err(SubChunkDecoderError::UnknownVersion(7))));
}

#[test]
fn decode_truncated_header() {
    let r = decode(&[8, 1], Vec2::new(0, 0));
    assert!(matches!(r, Err(SubChunkDecoderError::BinaryError(_))));
    let r = decode(&[8, 1, 0], Vec2::new(0, 0));
    assert!(matches!(r, Err(SubChunkDecoderError::BinaryError(_))));
}

#[test]
fn decode_bad_bits_per_block() {
    let r = decode(&[8, 1, 0, 0], Vec2::new(0, 0));
    assert!(matches!(r, Err(SubChunkDecoderError::PaletteError)));
    let r = decode(&[8, 1, 0, 64], Vec2::new(0, 0));
    assert!(matches!(r, Err(SubChunkDecoderError::PaletteError)));
}

#[test]
fn decode_truncated_words() {
    let mut bytes = vec![8u8, 1, 0, 2];
    bytes.extend(std::iter::repeat(0u8).take(100));
    let r = decode(&bytes, Vec2::new(0, 0));
    assert!(matches!(r, Err(SubChunkDecoderError::BinaryError(_))));
}

#[test]
fn decode_bad_nbt() {
    let mut bytes = vec![8u8, 1, 0, 2];
    bytes.extend(std::iter::repeat(0u8).take(128 * 4));
    bytes.extend_from_slice(&1u32.to_le_bytes());
    bytes.extend_from_slice(&[0xff, 0x00]);
    let r = decode(&bytes, Vec2::new(0, 0));
    assert!(matches!(r, Err(SubChunkDecoderError::NBTError(_))));
}

#[test]
fn decode_reads_words_little_endian() {
    // 8 bits per block: 4 indices per word
    let mut bytes = vec![8u8, 1, 0, 8 << 1];
    let mut words = vec![0u8; 1024 * 4];
    words[0..4].copy_from_slice(&0x04030201u32.to_le_bytes());
    bytes.extend_from_slice(&words);
    bytes.extend_from_slice(&0u32.to_le_bytes());
    let back = decode(&bytes, Vec2::new(0, 0)).unwrap();
    assert_eq!(&back.layers()[0].0[0..5], &[1, 2, 3, 4, 0]);
}

#[test]
fn decode_reports_the_bytes_read() {
    let mut bytes = vec![8u8, 1, 0xFF, 2, 5, 0, 0, 0];
    bytes.extend(std::iter::repeat(0u8).take(512));
    let (r, position) = decode_at(&bytes, 0, Vec2::new(3, -7));
    let t = r.unwrap();
    assert_eq!(t.data_version(), 8);
    assert_eq!(t.position(), Vec3::new(3, -1, -7));
    assert_eq!(t.layers().len(), 1);
    assert_eq!(t.layers()[0].0[0], 1);
    assert_eq!(t.layers()[0].0[2], 1);
    assert!(t.layers()[0].0.iter().enumerate().all(|(i, v)| i == 0 || i == 2 || *v == 0));
    assert!(t.layers()[0].1.is_empty());
    assert_eq!(position, 520);
}

#[test]
fn decode_from_a_later_position() {
    let mut bytes = vec![1u8, 2, 3];
    bytes.extend_from_slice(&[9, 0, 5]);
    bytes.extend_from_slice(&[4, 4]);
    let (r, position) = decode_at(&bytes, 3, Vec2::new(1, 2));
    assert_eq!(r.unwrap().position(), Vec3::new(1, 5, 2));
    assert_eq!(position, 6);
}

#[test]
fn decode_unknown_version_reads_one_byte() {
    let (r, position) = decode_at(&[7u8, 1, 0], 0, Vec2::new(0, 0));
    assert!(matches!(r, Err(SubChunkDecoderError::UnknownVersion(7))));
    assert_eq!(position, 1);
}

#[test]
fn decode_short_read_leaves_position_at_end() {
    let (r, position) = decode_at(&[8u8, 1, 0], 0, Vec2::new(0, 0));
    assert!(matches!(r, Err(SubChunkDecoderError::BinaryError(_))));
    assert_eq!(position, 3);
    let (r, position) = decode_at(&[8u8, 1, 0], 10, Vec2::new(0, 0));
    assert!(matches!(r, Err(SubChunkDecoderError::BinaryError(_))));
    assert_eq!(position, 3);
}

#[test]
fn encode_then_decode_reads_the_whole_buffer() {
    let t = two_block_transition(-3);
    let bytes = SubChunkSerDe.write_as_bytes(t, false).unwrap();
    let (r, position) = decode_at(&bytes, 0, Vec2::new(4, -5));
    assert!(r.is_ok());
    assert_eq!(position, bytes.len());
}

#[test]
fn long_varint_in_a_network_entry_is_refused() {
    let mut bytes = vec![8u8, 1, 0, (1 << 1) | 1];
    bytes.extend(std::iter::repeat(0u8).take(128 * 4));
    bytes.extend_from_slice(&1u32.to_le_bytes());
    bytes.extend_from_slice(&[0x0A, 0x80, 0x80, 0x80, 0x80, 0x80, 0x01]);
    let (r, position) = decode_at(&bytes, 0, Vec2::new(0, 0));
    assert!(matches!(r, Err(SubChunkDecoderError::SliceError)));
    assert_eq!(position, bytes.len());
}

#[test]
fn network_varint_scan() {
    // a root compound with no name and one Int field "a"
    let int_field = |value: &[u8]| {
        let mut v = vec![0x0Au8, 0x00, 0x03, 0x01, b'a'];
        v.extend_from_slice(value);
        v.push(0x00);
        v
    };
    assert!(net_varints_fit_in(&int_field(&[0x96, 0x01])));
    assert!(net_varints_fit_in(&int_field(&[0xFF, 0xFF, 0xFF, 0xFF, 0x0F])));
    assert!(!net_varints_fit_in(&int_field(&[0x80, 0x80, 0x80, 0x80, 0x80, 0x01])));
    // five bytes with the high bit set and then the end: the reader fails, it does not overflow
    assert!(net_varints_fit_in(&[0x0A, 0x80, 0x80, 0x80, 0x80, 0x80]));
    // a Long may take ten bytes
    let mut long_field = vec![0x0Au8, 0x00, 0x04, 0x01, b'b'];
    long_field.extend_from_slice(&[0xFF, 0xFF, 0xFF, 0xFF, 0xFF, 0xFF, 0xFF, 0xFF, 0xFF, 0x01, 0x00]);
    assert!(net_varints_fit_in(&long_field));
    // a list of strings whose second length runs long
    let mut list = vec![0x0Au8, 0x00, 0x09, 0x01, b'l', 0x08, 0x04, 0x01, b'x'];
    list.extend_from_slice(&[0x80, 0x80, 0x80, 0x80, 0x80, 0x80]);
    assert!(!net_varints_fit_in(&list));
    // what nbtx writes for a block fits
    assert!(net_varints_fit_in(&net_entry("minecraft:stone").bytes));
}
