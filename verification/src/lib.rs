//! Bedrock level storage: block positions, sub chunk storage with block palettes,
//! the binary sub chunk format, and the planning logic of world edits.

pub mod level;
pub mod utility;
