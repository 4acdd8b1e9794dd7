use homepod_sink::airplay::audio::resampler::{
    interleave_with_dither, ResampleEngine, Resampler, SINC_LEN, OVERSAMPLING_FACTOR,
};
use homepod_sink::airplay::error::{Error, StreamingError};
use rubato::{
    Resampler as RubatoResampler, SincFixedIn, SincInterpolationParameters, SincInterpolationType,
    WindowFunction,
};
use std::f32::consts::PI;

/// The sinc engine the sink runs the resampler with.
struct Sinc(SincFixedIn<f32>);

fn sinc_params() -> SincInterpolationParameters {
    SincInterpolationParameters {
        sinc_len: SINC_LEN,
        f_cutoff: 0.95,
        interpolation: SincInterpolationType::Cubic,
        oversampling_factor: OVERSAMPLING_FACTOR,
        window: WindowFunction::BlackmanHarris2,
    }
}

fn dither_to_i16(sample: f32) -> i16 {
    let rand1 = fastrand::f32() - 0.5;
    let rand2 = fastrand::f32() - 0.5;
    let tpdf_noise = (rand1 + rand2) / 32768.0;
    let dithered = sample + tpdf_noise;
    (dithered * 32767.0).clamp(-32768.0, 32767.0) as i16
}

impl ResampleEngine for Sinc {
    type Sample = f32;

    fn create(source_rate: u32, target_rate: u32, channels: usize, chunk_size: usize) -> Result<Self, Error> {
        let resample_ratio = target_rate as f64 / source_rate as f64;
        SincFixedIn::<f32>::new(resample_ratio, 2.0, sinc_params(), chunk_size, channels)
            .map(Sinc)
            .map_err(|e| {
                Error::Streaming(StreamingError::Encoding(format!("Failed to create resampler: {}", e)))
            })
    }

    fn process_chunk(mut self, chunk: &Vec<Vec<f32>>) -> (Self, Result<Vec<Vec<f32>>, Error>) {
        let result = self
            .0
            .process(chunk, None)
            .map_err(|e| Error::Streaming(StreamingError::Encoding(format!("Resampling error: {}", e))));
        (self, result)
    }

    fn reset(mut self) -> Self {
        self.0.reset();
        self
    }

    fn from_pcm(sample: i16) -> f32 {
        sample as f32 / 32768.0
    }

    fn to_pcm(sample: f32) -> i16 {
        dither_to_i16(sample)
    }
}

/// Generate a stereo sine wave at the given frequency.
fn generate_sine_wave_f32(frequency: f32, sample_rate: usize, num_frames: usize) -> Vec<Vec<f32>> {
    let mut left = Vec::with_capacity(num_frames);
    let mut right = Vec::with_capacity(num_frames);
    for i in 0..num_frames {
        let t = i as f32 / sample_rate as f32;
        let sample = (2.0 * PI * frequency * t).sin() * 0.8;
        left.push(sample);
        right.push(sample);
    }
    vec![left, right]
}

/// Generate interleaved stereo sine wave as i16.
fn generate_sine_wave_i16(frequency: f32, sample_rate: u32, num_frames: usize) -> Vec<i16> {
    let mut samples = Vec::with_capacity(num_frames * 2);
    for i in 0..num_frames {
        let t = i as f32 / sample_rate as f32;
        let sample = (2.0 * PI * frequency * t).sin() * 0.8;
        let sample_i16 = (sample * 32767.0) as i16;
        samples.push(sample_i16);
        samples.push(sample_i16);
    }
    samples
}

fn calculate_rms_f32(samples: &[f32]) -> f32 {
    if samples.is_empty() {
        return 0.0;
    }
    let sum_squares: f32 = samples.iter().map(|s| s * s).sum();
    (sum_squares / samples.len() as f32).sqrt()
}

fn calculate_rms_i16(samples: &[i16]) -> f32 {
    if samples.is_empty() {
        return 0.0;
    }
    let sum_squares: f64 = samples.iter().map(|&s| (s as f64).powi(2)).sum();
    ((sum_squares / samples.len() as f64).sqrt() / 32767.0) as f32
}

#[test]
fn creates_48k_to_44k_resampler() {
    let resampler = Resampler::<Sinc>::new(48000, 44100, 2);
    assert!(resampler.is_ok());
}

#[test]
fn creates_44k_to_48k_resampler() {
    let resampler = Resampler::<Sinc>::new(44100, 48000, 2);
    assert!(resampler.is_ok());
}

#[test]
fn creates_mono_resampler() {
    let resampler = Resampler::<Sinc>::new(48000, 44100, 1);
    assert!(resampler.is_ok());
}

#[test]
fn does_not_drop_samples_on_misaligned_chunk_sizes() {
    let mut resampler = Resampler::<Sinc>::new(48000, 44100, 2).unwrap();
    const MP3_FRAME_SIZE: usize = 1152;
    const NUM_CALLS: usize = 50;
    let mut total_input_frames = 0usize;
    let mut total_output_frames = 0usize;
    for _ in 0..NUM_CALLS {
        let input = generate_sine_wave_i16(440.0, 48000, MP3_FRAME_SIZE);
        total_input_frames += MP3_FRAME_SIZE;
        let output = resampler.process(&input).unwrap();
        total_output_frames += output.len() / 2;
    }
    let expected_ratio = 44100.0 / 48000.0;
    let expected_output_frames = (total_input_frames as f64 * expected_ratio) as usize;
    let tolerance = (expected_output_frames as f64 * 0.05) as usize;
    assert!(
        total_output_frames + tolerance >= expected_output_frames,
        "Output frames {} too low vs expected ~{} (input {} frames) - samples being dropped?",
        total_output_frames,
        expected_output_frames,
        total_input_frames
    );
}

#[test]
fn carries_over_remainder_across_calls() {
    let mut resampler = Resampler::<Sinc>::new(48000, 44100, 2).unwrap();
    let small_input = generate_sine_wave_i16(440.0, 48000, 100);
    let output1 = resampler.process(&small_input).unwrap();
    assert!(output1.is_empty(), "Expected no output before chunk_size frames accumulate");
    let rest_input = generate_sine_wave_i16(440.0, 48000, 1000);
    let output2 = resampler.process(&rest_input).unwrap();
    assert!(!output2.is_empty(), "Expected output once buffered input crosses chunk_size");
}

#[test]
fn resamples_48k_to_44k() {
    let mut resampler = Resampler::<Sinc>::new(48000, 44100, 2).unwrap();
    let input = generate_sine_wave_i16(440.0, 48000, 1024);
    let output = resampler.process(&input).unwrap();
    let output_frames = output.len() / 2;
    assert!(
        output_frames >= 900 && output_frames <= 1000,
        "Expected ~940 frames, got {}",
        output_frames
    );
    let rms = calculate_rms_i16(&output);
    assert!(rms > 0.3, "Output RMS too low: {}", rms);
}

#[test]
fn resamples_44k_to_48k() {
    let mut resampler = Resampler::<Sinc>::new(44100, 48000, 2).unwrap();
    let input = generate_sine_wave_i16(440.0, 44100, 1024);
    let output = resampler.process(&input).unwrap();
    let output_frames = output.len() / 2;
    assert!(
        output_frames >= 1050 && output_frames <= 1200,
        "Expected ~1115 frames, got {}",
        output_frames
    );
}

#[test]
fn handles_empty_input() {
    let mut resampler = Resampler::<Sinc>::new(48000, 44100, 2).unwrap();
    let output = resampler.process(&[]).unwrap();
    assert!(output.is_empty());
}

#[test]
fn resamples_f32_correctly() {
    let mut resampler = Resampler::<Sinc>::new(48000, 44100, 2).unwrap();
    let input = generate_sine_wave_f32(440.0, 48000, 1024);
    let output = resampler.process_f32(&input).unwrap();
    assert!(!output.is_empty());
    assert!(output[0].len() >= 900 && output[0].len() <= 1000);
    let rms = calculate_rms_f32(&output[0]);
    assert!(rms > 0.3, "Output RMS too low: {}", rms);
}

#[test]
fn primed_resampler_has_consistent_amplitude() {
    let mut resampler = Resampler::<Sinc>::new(48000, 44100, 2).unwrap();
    let mut all_output: Vec<Vec<f32>> = vec![Vec::new(), Vec::new()];
    for _ in 0..20 {
        let input = generate_sine_wave_f32(440.0, 48000, 1024);
        let output = resampler.process_f32(&input).unwrap();
        if !output.is_empty() {
            all_output[0].extend(&output[0]);
            all_output[1].extend(&output[1]);
        }
    }
    let first_rms = calculate_rms_f32(&all_output[0][..1000.min(all_output[0].len())]);
    let mid_start = all_output[0].len() / 2;
    let mid_rms = calculate_rms_f32(&all_output[0][mid_start..mid_start + 1000]);
    let ratio = first_rms / mid_rms;
    assert!(
        ratio > 0.8,
        "First samples should have similar RMS to middle, ratio = {}",
        ratio
    );
}

#[test]
fn dither_to_i16_preserves_range() {
    assert!(Sinc::to_pcm(0.0).abs() < 100);
    assert!(Sinc::to_pcm(1.0) > 30000);
    assert!(Sinc::to_pcm(-1.0) < -30000);
}

#[test]
fn interleave_with_dither_correct_length() {
    let channels = vec![vec![0.5f32; 100], vec![-0.5f32; 100]];
    let output = interleave_with_dither::<Sinc>(&channels);
    assert_eq!(output.len(), 200);
}

#[test]
fn interleave_with_dither_handles_empty() {
    let channels: Vec<Vec<f32>> = vec![];
    let output = interleave_with_dither::<Sinc>(&channels);
    assert!(output.is_empty());
}

#[test]
fn reset_clears_state() {
    let mut resampler = Resampler::<Sinc>::new(48000, 44100, 2).unwrap();
    let input = generate_sine_wave_i16(440.0, 48000, 1024);
    let _ = resampler.process(&input);
    resampler.reset();
    let output = resampler.process(&input).unwrap();
    assert!(!output.is_empty());
}

#[test]
fn interleave_with_dither_alternates_channels() {
    let channels = vec![vec![0.5f32; 3], vec![-0.5f32; 3]];
    let output = interleave_with_dither::<Sinc>(&channels);
    assert_eq!(output.len(), 6);
    for (i, s) in output.iter().enumerate() {
        if i % 2 == 0 {
            assert!(*s > 16000);
        } else {
            assert!(*s < -16000);
        }
    }
}

#[test]
fn process_f32_ignores_input_without_frames() {
    let mut resampler = Resampler::<Sinc>::new(48000, 44100, 2).unwrap();
    let output = resampler.process_f32(&[]).unwrap();
    assert!(output.is_empty());
    let output = resampler.process_f32(&[Vec::new(), vec![0.5f32; 10]]).unwrap();
    assert!(output.is_empty());
}

#[test]
fn process_f32_below_one_chunk_gives_empty_channels() {
    let mut resampler = Resampler::<Sinc>::new(48000, 44100, 2).unwrap();
    let input = generate_sine_wave_f32(440.0, 48000, 100);
    let output = resampler.process_f32(&input).unwrap();
    assert_eq!(output.len(), 2);
    assert!(output[0].is_empty() && output[1].is_empty());
}

#[test]
fn custom_chunk_size_emits_after_one_chunk() {
    let mut resampler = Resampler::<Sinc>::with_chunk_size(48000, 48000, 1, 256).unwrap();
    let input = vec![vec![0.25f32; 255]];
    assert!(resampler.process_f32(&input).unwrap()[0].is_empty());
    let input = vec![vec![0.25f32; 1]];
    assert!(!resampler.process_f32(&input).unwrap()[0].is_empty());
}

#[test]
fn invalid_rate_is_an_encoding_error() {
    let r = Resampler::<Sinc>::new(48000, 0, 2);
    match r {
        Err(Error::Streaming(StreamingError::Encoding(msg))) => {
            assert!(msg.starts_with("Failed to create resampler"));
        },
        _ => panic!("expected an encoding error"),
    }
}

#[test]
fn from_engine_builds_a_primed_resampler() {
    let engine = Sinc::create(48000, 44100, 2, 1024).unwrap();
    let mut resampler = Resampler::from_engine(engine, 2, 1024);
    let input = generate_sine_wave_i16(440.0, 48000, 1024);
    let output = resampler.process(&input).unwrap();
    assert!(!output.is_empty());
    assert_eq!(output.len() % 2, 0);
}

#[test]
fn split_input_gives_same_output() {
    let mut whole = Resampler::<Sinc>::new(48000, 44100, 2).unwrap();
    let mut split = Resampler::<Sinc>::new(48000, 44100, 2).unwrap();
    let input = generate_sine_wave_f32(440.0, 48000, 3000);
    let out_whole = whole.process_f32(&input).unwrap();
    let mut out_split: Vec<Vec<f32>> = vec![Vec::new(), Vec::new()];
    for (a, b) in [(0usize, 700usize), (700, 1900), (1900, 3000)] {
        let piece = vec![input[0][a..b].to_vec(), input[1][a..b].to_vec()];
        let out = resampler_step(&mut split, &piece);
        out_split[0].extend(&out[0]);
        out_split[1].extend(&out[1]);
    }
    assert_eq!(out_whole, out_split);
}

fn resampler_step(r: &mut Resampler<Sinc>, piece: &[Vec<f32>]) -> Vec<Vec<f32>> {
    r.process_f32(piece).unwrap()
}

/// An engine that hands back every chunk it is given, and counts its calls.
struct Echo {
    calls: usize,
    resets: usize,
    refuse_call: usize,
}

impl ResampleEngine for Echo {
    type Sample = i32;

    fn create(source_rate: u32, _target_rate: u32, _channels: usize, _chunk_size: usize) -> Result<Self, Error> {
        if source_rate == 0 {
            return Err(Error::Streaming(StreamingError::Encoding("no rate".to_string())));
        }
        Ok(Echo { calls: 0, resets: 0, refuse_call: 0 })
    }

    fn process_chunk(mut self, chunk: &Vec<Vec<i32>>) -> (Self, Result<Vec<Vec<i32>>, Error>) {
        self.calls += 1;
        if self.calls == self.refuse_call {
            return (self, Err(Error::Streaming(StreamingError::Encoding("refused".to_string()))));
        }
        (self, Ok(chunk.clone()))
    }

    fn reset(mut self) -> Self {
        self.resets += 1;
        self
    }

    fn from_pcm(sample: i16) -> i32 {
        sample as i32
    }

    fn to_pcm(sample: i32) -> i16 {
        sample as i16
    }
}

#[test]
fn engine_receives_whole_chunks_in_order() {
    let mut r = Resampler::<Echo>::with_chunk_size(1, 1, 2, 4).unwrap();
    let input = vec![(0..10).collect::<Vec<i32>>(), (100..110).collect::<Vec<i32>>()];
    let out = r.process_f32(&input).unwrap();
    assert_eq!(out, vec![(0..8).collect::<Vec<i32>>(), (100..108).collect::<Vec<i32>>()]);
    let out = r.process_f32(&[vec![10, 11], vec![110, 111]]).unwrap();
    assert_eq!(out, vec![vec![8, 9, 10, 11], vec![108, 109, 110, 111]]);
}

#[test]
fn process_converts_resamples_and_interleaves() {
    let mut r = Resampler::<Echo>::with_chunk_size(1, 1, 2, 2).unwrap();
    let out = r.process(&[1, -1, 2, -2, 3, -3, 4, -4, 5]).unwrap();
    assert_eq!(out, vec![1, -1, 2, -2, 3, -3, 4, -4]);
    let out = r.process(&[6, -6]).unwrap();
    assert!(out.is_empty());
}

#[test]
fn engine_error_keeps_refused_chunk_buffered() {
    let primed = homepod_sink::airplay::audio::resampler::priming_chunk_count(2);
    // The engine refuses the second chunk after priming.
    let mut r = Resampler::from_engine(Echo { calls: 0, resets: 0, refuse_call: primed + 2 }, 1, 2);
    assert!(r.process_f32(&[vec![1, 2, 3, 4, 5]]).is_err());
    // [1, 2] went through; the refused [3, 4] stays buffered, followed by 5.
    assert_eq!(r.process_f32(&[vec![6]]).unwrap(), vec![vec![3, 4, 5, 6]]);
}

#[test]
fn engine_creation_error_is_returned() {
    match Resampler::<Echo>::with_chunk_size(0, 1, 2, 4) {
        Err(Error::Streaming(StreamingError::Encoding(m))) => assert_eq!(m, "no rate"),
        _ => panic!("expected the engine's error"),
    }
}
