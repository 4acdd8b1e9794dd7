# homepod-sink

Turns a HomePod (or other AirPlay 2 speaker) into a PipeWire audio output on
Linux: `capture` exposes a virtual PipeWire sink and writes raw interleaved
16-bit PCM to stdout; `homepod-sink` reads it from stdin, resamples it to
44.1 kHz and streams it over AirPlay 2; `play` is a diagnostic file player.

Layout:

- `src/` — the verified library (Verus):
  - `airplay/audio/resampler.rs` — the chunk queue in front of the fixed-chunk
    sinc resampler, frame (de)interleaving, priming, and the `Resampler`
    itself, generic over the resampling engine and its sample type;
  - `airplay/timing/ptp_stub.rs` — the PTP entry points, which always fail;
  - `airplay/error.rs` — error types;
  - `sink.rs` — PCM decoding of the capture stream, device-id derivation and
    device selection.
- `app/` — the programs: argument handling, PipeWire, AirPlay networking, and
  the floating-point sinc engine (rubato) with TPDF dither.
- `tests/` — tests of the library, running the resampler with the rubato
  engine.
