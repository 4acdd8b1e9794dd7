use vstd::prelude::*;

verus! {

/// Errors raised while setting up an RTSP session.
#[derive(Debug)]
pub enum RtspError {
    /// The SETUP exchange could not be completed.
    SetupFailed(String),
}

/// Errors raised while producing the audio stream.
#[derive(Debug)]
pub enum StreamingError {
    /// The encoder or resampler could not be created or failed.
    Encoding(String),
}

/// Top-level error of the AirPlay client.
#[derive(Debug)]
pub enum Error {
    /// An RTSP error.
    Rtsp(RtspError),
    /// A streaming error.
    Streaming(StreamingError),
}

} // verus!
