//! Verified core of a HomePod / AirPlay 2 audio sink.
//!
//! The library holds the integer and bookkeeping logic of the sink: the
//! chunk-aligned input buffering in front of the sinc resampler, the
//! (de)interleaving of PCM frames, little-endian PCM decoding of the capture
//! stream, device-id derivation and device selection, and the stubbed-out PTP
//! timing entry points.

pub mod airplay;
pub mod sink;
