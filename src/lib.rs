//! Streaming audio analysis core: per-channel bounded sample histories fed by
//! interleaved chunks, the selection of fixed-size spectral windows, and the
//! channel averaging and resampling that turn raw samples into fixed-length
//! arrays for a renderer.
//!
//! The sample type is a parameter. Arithmetic on samples (the cross-channel
//! mean) and the spectral transform itself are supplied by the caller, so
//! what is proved here is the bookkeeping: which samples are kept, which are
//! read, in what order, and how long every output is.

pub mod frames;
pub mod processor;
