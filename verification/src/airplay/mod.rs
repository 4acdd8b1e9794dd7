//! The subset of the AirPlay 2 sender that the sink needs.

pub mod audio;
pub mod error;
pub mod timing;
