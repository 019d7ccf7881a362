use std::fmt::Debug;
use vstd::prelude::*;

verus! {

/// Errors of the block operations of a sub chunk.
#[derive(Debug, PartialEq, Eq, Structural)]
pub enum SubChunkError {
    /// The active layer of the sub chunk does not exist.
    LayerError(u8),
}

/// An error of the storage layer or of the sub chunk encoding.
#[derive(Debug)]
pub enum SubChunkSerDeError<WorldError: Debug, SerDeError: Debug> {
    WorldError(WorldError),
    SerDeError(SerDeError),
}

/// Every error that reading or writing one sub chunk of a level can give.
#[derive(Debug)]
pub enum WholeLevelError<WorldError: Debug, SerDeError: Debug, TranslationError: Debug> {
    TranslationError(TranslationError),
    WorldError(WorldError),
    SerDeError(SerDeError),
    SubChunkError(SubChunkError),
}

/// Every error of an operation that both reads (decodes) and writes (encodes) sub chunks.
#[derive(Debug)]
pub enum WorldPipelineError<WorldError: Debug, Decode: Debug, Encode: Debug, TranslationError: Debug> {
    TranslationError(TranslationError),
    WorldError(WorldError),
    DecodeError(Decode),
    EncoderError(Encode),
    SubChunkError(SubChunkError),
}

impl<WorldError: Debug, Decode: Debug, Encode: Debug, TranslationError: Debug> WorldPipelineError<WorldError, Decode, Encode, TranslationError> {
    /// Lifts an error of the reading side; its encoding error becomes a decoding error.
    pub fn from_decode(other: WholeLevelError<WorldError, Decode, TranslationError>) -> (r: Self)
        ensures
            match other {
                WholeLevelError::TranslationError(e) => r == Self::TranslationError(e),
                WholeLevelError::WorldError(e) => r == Self::WorldError(e),
                WholeLevelError::SerDeError(e) => r == Self::DecodeError(e),
                WholeLevelError::SubChunkError(e) => r == Self::SubChunkError(e),
            },
    {
        match other {
            WholeLevelError::TranslationError(r) => Self::TranslationError(r),
            WholeLevelError::WorldError(r) => Self::WorldError(r),
            WholeLevelError::SerDeError(r) => Self::DecodeError(r),
            WholeLevelError::SubChunkError(r) => Self::SubChunkError(r),
        }
    }

    /// Lifts an error of the writing side; its encoding error becomes an encoder error.
    pub fn from_encode(other: WholeLevelError<WorldError, Encode, TranslationError>) -> (r: Self)
        ensures
            match other {
                WholeLevelError::TranslationError(e) => r == Self::TranslationError(e),
                WholeLevelError::WorldError(e) => r == Self::WorldError(e),
                WholeLevelError::SerDeError(e) => r == Self::EncoderError(e),
                WholeLevelError::SubChunkError(e) => r == Self::SubChunkError(e),
            },
    {
        match other {
            WholeLevelError::TranslationError(r) => Self::TranslationError(r),
            WholeLevelError::WorldError(r) => Self::WorldError(r),
            WholeLevelError::SerDeError(r) => Self::EncoderError(r),
            WholeLevelError::SubChunkError(r) => Self::SubChunkError(r),
        }
    }
}

impl<WorldError: Debug, SerDeError: Debug, TranslationError: Debug> vstd::std_specs::convert::FromSpecImpl<SubChunkSerDeError<WorldError, SerDeError>> for WholeLevelError<WorldError, SerDeError, TranslationError> {
    open spec fn obeys_from_spec() -> bool {
        true
    }

    open spec fn from_spec(v: SubChunkSerDeError<WorldError, SerDeError>) -> Self {
        match v {
            SubChunkSerDeError::WorldError(e) => WholeLevelError::WorldError(e),
            SubChunkSerDeError::SerDeError(e) => WholeLevelError::SerDeError(e),
        }
    }
}

impl<WorldError: Debug, SerDeError: Debug, TranslationError: Debug> From<SubChunkSerDeError<WorldError, SerDeError>> for WholeLevelError<WorldError, SerDeError, TranslationError> {
    fn from(value: SubChunkSerDeError<WorldError, SerDeError>) -> Self {
        match value {
            SubChunkSerDeError::WorldError(e) => WholeLevelError::WorldError(e),
            SubChunkSerDeError::SerDeError(e) => WholeLevelError::SerDeError(e),
        }
    }
}

impl<WorldError: Debug, SerDeError: Debug, TranslationError: Debug> vstd::std_specs::convert::FromSpecImpl<SubChunkError> for WholeLevelError<WorldError, SerDeError, TranslationError> {
    open spec fn obeys_from_spec() -> bool {
        true
    }

    open spec fn from_spec(v: SubChunkError) -> Self {
        WholeLevelError::SubChunkError(v)
    }
}

impl<WorldError: Debug, SerDeError: Debug, TranslationError: Debug> From<SubChunkError> for WholeLevelError<WorldError, SerDeError, TranslationError> {
    fn from(value: SubChunkError) -> Self {
        WholeLevelError::SubChunkError(value)
    }
}

impl<WorldError: Debug, Decode: Debug, Encode: Debug, TranslationError: Debug> vstd::std_specs::convert::FromSpecImpl<SubChunkError> for WorldPipelineError<WorldError, Decode, Encode, TranslationError> {
    open spec fn obeys_from_spec() -> bool {
        true
    }

    open spec fn from_spec(v: SubChunkError) -> Self {
        WorldPipelineError::SubChunkError(v)
    }
}

impl<WorldError: Debug, Decode: Debug, Encode: Debug, TranslationError: Debug> From<SubChunkError> for WorldPipelineError<WorldError, Decode, Encode, TranslationError> {
    fn from(value: SubChunkError) -> Self {
        WorldPipelineError::SubChunkError(value)
    }
}

} // verus!
