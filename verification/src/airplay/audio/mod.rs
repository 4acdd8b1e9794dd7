//! Audio buffering and frame layout for the AirPlay stream.

pub mod resampler;
