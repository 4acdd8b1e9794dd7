//! PTP (IEEE 1588) timing is not implemented.
//!
//! The sender always uses NTP timing, which HomePods accept for a
//! single-device AirPlay 2 stream. The entry points below exist so that the
//! (never taken) PTP code path type-checks; each of them fails with a
//! `SetupFailed` error.

use vstd::prelude::*;
use vstd::string::StringExecFns;
use crate::airplay::error::{Error, RtspError};
use crate::sink::HostAddr;

verus! {

/// UDP port for PTP event messages (Sync, Delay_Req). No PTP socket is ever
/// opened.
pub const PTP_EVENT_PORT: u16 = 319;

/// The message carried by every PTP entry point's error.
pub open spec fn ptp_unavailable_message() -> Seq<char> {
    "PTP timing is not implemented in this build (NTP-only)"@
}

/// The error that every PTP entry point returns.
pub open spec fn is_ptp_unavailable(e: Error) -> bool {
    e matches Error::Rtsp(RtspError::SetupFailed(m)) && m@ == ptp_unavailable_message()
}

fn ptp_unavailable() -> (e: Error)
    ensures
        is_ptp_unavailable(e),
{
    Error::Rtsp(RtspError::SetupFailed(String::from_str("PTP timing is not implemented in this build (NTP-only)")))
}

/// Stand-in for a PTP grandmaster. It is never constructed by the sender.
pub struct PtpMaster;

impl PtpMaster {
    /// Stops the grandmaster: there is nothing to stop, the value is left as it is.
    pub fn stop(&mut self)
        ensures
            *final(self) == *old(self),
    {
    }
}

/// PTP slave sync: not implemented, always fails.
pub fn run_ptp_slave(master_addr: HostAddr) -> (r: Result<(), Error>)
    ensures
        r matches Err(e) && is_ptp_unavailable(e),
{
    Err(ptp_unavailable())
}

/// BMCA yield flow (gPTP negotiation): not implemented, always fails.
pub fn run_bmca_yield_flow(master_addr: HostAddr, priority1: u8) -> (r: Result<(), Error>)
    ensures
        r matches Err(e) && is_ptp_unavailable(e),
{
    Err(ptp_unavailable())
}

/// PTP group-master flow (multi-room): not implemented, always fails.
pub fn run_ptp_group_master_flow(peer_ips: Vec<HostAddr>, priority1: u8) -> (r: Result<(), Error>)
    ensures
        r matches Err(e) && is_ptp_unavailable(e),
{
    Err(ptp_unavailable())
}

} // verus!
