use bedrockrs_level::level::error::{SubChunkError, SubChunkSerDeError, WholeLevelError, WorldPipelineError};
use bedrockrs_level::level::file_interface::DatabaseBatchHolder;
use bedrockrs_level::level::serde_store::{SerDeStore, SerDeStoreRef, SerDeTrait};

#[test]
fn batch_holder_slices() {
    let h = DatabaseBatchHolder::new(vec![1, 2, 3, 4, 5, 6], 0..2, 2..6);
    assert_eq!(h.key(), &[1, 2]);
    assert_eq!(h.data(), &[3, 4, 5, 6]);
}

type Whole = WholeLevelError<u8, u16, u32>;
type Pipeline = WorldPipelineError<u8, u16, u16, u32>;

#[test]
fn pipeline_errors_from_both_sides() {
    assert!(matches!(Pipeline::from_decode(Whole::SerDeError(7)), WorldPipelineError::DecodeError(7)));
    assert!(matches!(Pipeline::from_encode(Whole::SerDeError(7)), WorldPipelineError::EncoderError(7)));
    assert!(matches!(Pipeline::from_decode(Whole::WorldError(1)), WorldPipelineError::WorldError(1)));
    assert!(matches!(Pipeline::from_encode(Whole::TranslationError(2)), WorldPipelineError::TranslationError(2)));
    assert!(matches!(
        Pipeline::from_decode(Whole::SubChunkError(SubChunkError::LayerError(3))),
        WorldPipelineError::SubChunkError(SubChunkError::LayerError(3))
    ));
}

#[test]
fn whole_level_error_from_parts() {
    let w: Whole = SubChunkSerDeError::<u8, u16>::WorldError(4).into();
    assert!(matches!(w, WholeLevelError::WorldError(4)));
    let s: Whole = SubChunkSerDeError::<u8, u16>::SerDeError(5).into();
    assert!(matches!(s, WholeLevelError::SerDeError(5)));
    let c: Whole = SubChunkError::LayerError(1).into();
    assert!(matches!(c, WholeLevelError::SubChunkError(SubChunkError::LayerError(1))));
    let p: Pipeline = SubChunkError::LayerError(2).into();
    assert!(matches!(p, WorldPipelineError::SubChunkError(SubChunkError::LayerError(2))));
}

#[test]
fn serde_stores() {
    let mut store: SerDeStore<u8, u16> = SerDeStore::default();
    *store.serde() = 3;
    *store.info() = 4;
    assert_eq!(store.serde, 3);
    assert_eq!(store.information, 4);
    let mut a = 1u8;
    let mut b = 2u16;
    let mut r = SerDeStoreRef::new(&mut a, &mut b);
    *r.serde() += 10;
    *r.info() += 20;
    assert_eq!(a, 11);
    assert_eq!(b, 22);
}
