//! Segment scheduling and timestamp arithmetic for assembling a montage
//! video: a codec for the canonical `HH:MM:SS.mmm` timestamp form, a
//! template normalizer, a clip-order scheduler, a slot partitioner and a
//! cut-point resolver.

pub mod codec;
pub mod partition;
pub mod probe;
pub mod schedule;
pub mod template;
pub mod text;
