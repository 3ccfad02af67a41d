//! Text normalization with exact provenance: an aligned buffer whose every
//! normalized character remembers the span of the original text it came from,
//! and a pipeline of normalizers that edit it.

pub mod buffer;
pub mod laws;
pub mod normalizer;
pub mod pattern;
pub mod unicode;
