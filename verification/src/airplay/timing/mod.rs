//! Timing for AirPlay 2: the sender always uses NTP timing; PTP is stubbed out.

pub mod ptp_stub;
