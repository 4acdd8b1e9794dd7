use homepod_sink::airplay::error::{Error, RtspError};
use homepod_sink::airplay::timing::ptp_stub::{
    run_bmca_yield_flow, run_ptp_group_master_flow, run_ptp_slave, PtpMaster, PTP_EVENT_PORT,
};
use homepod_sink::sink::HostAddr;

fn is_unavailable(r: Result<(), Error>) -> bool {
    match r {
        Err(Error::Rtsp(RtspError::SetupFailed(m))) => m == "PTP timing is not implemented in this build (NTP-only)",
        _ => false,
    }
}

#[test]
fn ptp_entry_points_fail_with_setup_error() {
    let addr = HostAddr::V4(192, 168, 0, 13);
    assert!(is_unavailable(run_ptp_slave(addr)));
    assert!(is_unavailable(run_bmca_yield_flow(addr, 248)));
    assert!(is_unavailable(run_ptp_group_master_flow(vec![addr, HostAddr::V6(1)], 128)));
}

#[test]
fn ptp_master_stop_does_nothing() {
    let mut m = PtpMaster;
    m.stop();
    assert_eq!(PTP_EVENT_PORT, 319);
}
