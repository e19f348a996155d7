//! An elastic audio buffer: a bounded circular sample store and the
//! whole-sample half of a fractional resampler that drains it.
//!
//! Samples, cursor fractions and playback rates are carried as IEEE-754
//! single-precision bit patterns (`u32`), so every value the kernel stores,
//! orders or hands out is exact.

pub mod buffer;
pub mod processor;
