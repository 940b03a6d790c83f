use olscorer::audio_utils::{AudioData, Frame};
use olscorer::ieee754::EPSILON;
use olscorer::pitch_detection::{Mpm, PitchDetector};
use olscorer::transcription::{
    Answer, Note, NoteName, PitchFrame, Transcriber, Transcription, MAX_FRAME_WIDTH, MPM_THRESHOLD,
    ONSET_FRAME_WIDTH, SILENCE_RATIO,
};
use rustfft::{num_complex::Complex, FftPlanner};

fn bits(values: &[f64]) -> Vec<u64> {
    values.iter().map(|x| x.to_bits()).collect()
}

fn floats(patterns: &[u64]) -> Vec<f64> {
    patterns.iter().map(|b| f64::from_bits(*b)).collect()
}

fn audio(samples: &[f64]) -> AudioData {
    AudioData {
        sample_rate: 44100,
        duration: samples.len() as u32,
        samples: bits(samples),
    }
}

fn sine(frequency: f64, sample_rate: f64, len: usize) -> Vec<f64> {
    (0..len)
        .map(|i| (2.0 * std::f64::consts::PI * frequency * i as f64 / sample_rate).sin())
        .collect()
}

/// A source of numbers that is the same on every run.
fn noise(seed: &mut u64) -> f64 {
    *seed = seed
        .wrapping_mul(6364136223846793005)
        .wrapping_add(1442695040888963407);
    ((*seed >> 11) as f64 / (1u64 << 53) as f64) * 2.0 - 1.0
}

fn root_mean_square(samples: &[f64]) -> Option<f64> {
    if samples.is_empty() {
        return None;
    }
    Some((samples.iter().map(|x| x * x).sum::<f64>() / samples.len() as f64).sqrt())
}

fn fast_autoc(samples: Vec<f64>) -> Vec<f64> {
    let fft_length = 2 * samples.len();
    let mut padded_samples = samples;
    padded_samples.resize(fft_length, 0.0);

    let mut planner = FftPlanner::new();
    let fft_forward = planner.plan_fft_forward(fft_length);
    let mut buffer: Vec<Complex<f64>> = padded_samples
        .iter()
        .map(|x| Complex { re: *x, im: 0.0 })
        .collect();
    fft_forward.process(&mut buffer);

    let scale_factor = 1.0 / (fft_length as f64).sqrt();
    let mut power_spectrum: Vec<Complex<f64>> =
        buffer.iter().map(|x| scale_factor * x * x.conj()).collect();
    let fft_inverse = planner.plan_fft_inverse(fft_length);
    fft_inverse.process(&mut power_spectrum);
    power_spectrum.iter().map(|x| scale_factor * x.re).collect()
}

fn square_sums(samples: &[f64]) -> Vec<f64> {
    let mut sq_sums = vec![0.0; samples.len()];
    for tau in 0..samples.len() {
        let mut sq_sum = 0.0;
        for i in 0..samples.len() - tau {
            sq_sum += samples[i] * samples[i] + samples[i + tau] * samples[i + tau];
        }
        sq_sums[tau] = sq_sum;
    }
    sq_sums
}

fn fast_nsdf(samples: Vec<f64>) -> Vec<f64> {
    let autoc_values = fast_autoc(samples.clone());
    let sq_sums = square_sums(&samples);
    let mut nsdf = vec![0.0; samples.len()];
    for tau in 0..samples.len() {
        let sq_sum = f64::from_bits(Mpm::divisor(sq_sums[tau].to_bits()));
        nsdf[tau] = 2.0 * autoc_values[tau] / sq_sum;
    }
    nsdf
}

/// The curve with the divisor guarded on the numbers themselves.
fn nsdf_in_floats(samples: Vec<f64>) -> Vec<f64> {
    let autoc_values = fast_autoc(samples.clone());
    let sq_sums = square_sums(&samples);
    let mut nsdf = vec![0.0; samples.len()];
    for tau in 0..samples.len() {
        let sq_sum = if sq_sums[tau] > f64::EPSILON {
            sq_sums[tau]
        } else {
            1.0
        };
        nsdf[tau] = 2.0 * autoc_values[tau] / sq_sum;
    }
    nsdf
}

fn quadratic_peak_interp(
    left: (usize, f64),
    middle: (usize, f64),
    right: (usize, f64),
) -> Option<(f64, f64)> {
    let (x0, y0) = (left.0 as f64, left.1);
    let (x1, y1) = (middle.0 as f64, middle.1);
    let (x2, y2) = (right.0 as f64, right.1);
    let div = (x0 - x1) * (x0 - x2) * (x1 - x2);
    if Mpm::negligible(div.to_bits()) {
        return None;
    }
    let a = (y0 * (x1 - x2) + y1 * (x2 - x0) + y2 * (x0 - x1)) / div;
    if Mpm::negligible(a.to_bits()) {
        return None;
    }
    let b = -(y0 * (x1 * x1 - x2 * x2) + y1 * (x2 * x2 - x0 * x0) + y2 * (x0 * x0 - x1 * x1)) / div;
    let c = (y0 * x1 * x2 * (x1 - x2) + y1 * x2 * x0 * (x2 - x0) + y2 * x0 * x1 * (x0 - x1)) / div;
    let x = -b / (2.0 * a);
    Some((x, a * x * x + b * x + c))
}

/// The vertex with both guards taken on the numbers themselves.
fn vertex_in_floats(
    left: (usize, f64),
    middle: (usize, f64),
    right: (usize, f64),
) -> Option<(f64, f64)> {
    let (x0, y0) = (left.0 as f64, left.1);
    let (x1, y1) = (middle.0 as f64, middle.1);
    let (x2, y2) = (right.0 as f64, right.1);
    let div = (x0 - x1) * (x0 - x2) * (x1 - x2);
    if div.abs() < f64::EPSILON {
        return None;
    }
    let a = (y0 * (x1 - x2) + y1 * (x2 - x0) + y2 * (x0 - x1)) / div;
    if a.abs() < f64::EPSILON {
        return None;
    }
    let b = -(y0 * (x1 * x1 - x2 * x2) + y1 * (x2 * x2 - x0 * x0) + y2 * (x0 * x0 - x1 * x1)) / div;
    let c = (y0 * x1 * x2 * (x1 - x2) + y1 * x2 * x0 * (x2 - x0) + y2 * x0 * x1 * (x0 - x1)) / div;
    let x = -b / (2.0 * a);
    Some((x, a * x * x + b * x + c))
}

/// The peak of a curve, with the decisions taken by the library.
fn mpm_peak(threshold: f64, nsdf: &[f64]) -> Option<(f64, f64)> {
    let curve = bits(nsdf);
    let maxima = Mpm::key_maxima(&curve);
    let vertices: Vec<Option<(u64, u64)>> = maxima
        .iter()
        .map(|m| {
            let i = m.index;
            quadratic_peak_interp((i - 1, nsdf[i - 1]), (i, nsdf[i]), (i + 1, nsdf[i + 1]))
                .map(|(x, y)| (x.to_bits(), y.to_bits()))
        })
        .collect();
    let cutoff = threshold * f64::from_bits(Mpm::highest(&maxima));
    Mpm::get_mpm_peak(&maxima, &vertices, cutoff.to_bits())
        .map(|(lag, height)| (f64::from_bits(lag), f64::from_bits(height)))
}

/// The peak of a curve, found in one pass over the numbers themselves.
fn mpm_peak_in_one_pass(threshold: f64, nsdf: &[f64]) -> Option<(f64, f64)> {
    let mut start_index = 0;
    while start_index < nsdf.len() && nsdf[start_index] > 0.0 {
        start_index += 1;
    }
    let mut peaks: Vec<(f64, f64)> = vec![];
    let mut max_peak = (0.0, 0.0);
    let mut i = start_index;
    while i < nsdf.len() {
        if nsdf[i] < 0.0 {
            i += 1;
            continue;
        }
        let mut interp_peak = (0.0, 0.0);
        let mut local_peak = (0.0, 0.0);
        while i < nsdf.len() && nsdf[i] >= 0.0 {
            if nsdf[i] > local_peak.1
                && i > 0
                && i < nsdf.len() - 1
                && nsdf[i - 1] < nsdf[i]
                && nsdf[i + 1] < nsdf[i]
            {
                local_peak = (i as f64, nsdf[i]);
                interp_peak = match vertex_in_floats(
                    (i - 1, nsdf[i - 1]),
                    (i, nsdf[i]),
                    (i + 1, nsdf[i + 1]),
                ) {
                    Some(peak) => peak,
                    None => interp_peak,
                };
                if local_peak.1 > max_peak.1 {
                    max_peak = local_peak;
                }
            }
            i += 1;
        }
        if interp_peak.1 > 0.0 {
            peaks.push(interp_peak);
        }
        i += 1;
    }
    peaks.into_iter().find(|x| x.1 > threshold * max_peak.1)
}

#[derive(Clone)]
struct Detector(Mpm);

impl PitchDetector for Detector {
    fn get_pitch(self, samples: Vec<u64>) -> Option<u64> {
        let nsdf = fast_nsdf(floats(&samples));
        mpm_peak(f64::from_bits(self.0.threshold()), &nsdf)
            .map(|peak| (self.0.sample_rate() as f64 / peak.0).to_bits())
    }
}

fn note_number(pitch: f64) -> i32 {
    (12.0 * (pitch / 440.0).log(2.0) + 48.5).floor() as i32
}

/// How far each value of the envelope but the first lies above the one
/// before it.
fn rises(envelope: &[u64]) -> Vec<u64> {
    let envelope = floats(envelope);
    let mut rises = vec![];
    for i in 1..envelope.len() {
        rises.push(envelope[i] - envelope[i - 1]);
    }
    bits(&rises)
}

/// The rises behind a zero for the first frame.
fn first_differences(envelope: &[u64]) -> Vec<u64> {
    let mut differences = vec![0.0f64.to_bits()];
    differences.extend(rises(envelope));
    differences
}

/// The arithmetic that a transcription asks for.
fn answer(state: &Transcription) -> Option<Answer> {
    match state {
        Transcription::Normalizing { audio_data, peak } => {
            let peak = f64::from_bits(*peak);
            let quotients: Vec<f64> = floats(&audio_data.samples).iter().map(|x| x / peak).collect();
            Some(Answer::Quotients(bits(&quotients)))
        }
        Transcription::Rising { envelope, .. } => Some(Answer::Differences(rises(envelope))),
        Transcription::Weighing { audio_data, frames, ratio } => {
            let audio_rms = root_mean_square(&floats(&audio_data.samples)).unwrap_or(0.0);
            Some(Answer::Energies {
                floor: (f64::from_bits(*ratio) * audio_rms).to_bits(),
                frames: frames
                    .iter()
                    .map(|f| root_mean_square(&floats(&f.samples)).unwrap_or(0.0).to_bits())
                    .collect(),
            })
        }
        Transcription::Listening { detector, frames } => Some(Answer::Pitches(
            Transcriber::detect_pitches(&Detector(*detector), frames)
                .iter()
                .map(|p| p.pitch)
                .collect(),
        )),
        Transcription::Naming { pitch_frames } => Some(Answer::NoteNumbers(
            pitch_frames
                .iter()
                .map(|p| p.pitch.map_or(0, |pitch| note_number(f64::from_bits(pitch))))
                .collect(),
        )),
        Transcription::Finished { .. } => None,
    }
}

/// The whole pipeline: the library decides, the arithmetic is done here.
fn transcribe(audio_data: &AudioData) -> Vec<Note> {
    let mut state = Transcriber::get_notes(AudioData {
        sample_rate: audio_data.sample_rate,
        duration: audio_data.duration,
        samples: audio_data.samples.clone(),
    });
    for _ in 0..5 {
        match answer(&state) {
            Some(answer) => state = state.advance(answer),
            None => break,
        }
    }
    match state {
        Transcription::Finished { notes } => notes,
        other => panic!("not finished: {:?}", other),
    }
}

/// The pipeline stage by stage, without the bookkeeping of a transcription.
fn transcribe_by_stages(audio_data: &AudioData) -> Vec<Note> {
    let peak = match Transcriber::normalization_peak(&audio_data.samples) {
        Some(peak) => f64::from_bits(peak),
        None => return vec![],
    };
    let samples: Vec<f64> = floats(&audio_data.samples).iter().map(|x| x / peak).collect();
    let normalized = AudioData {
        sample_rate: audio_data.sample_rate,
        duration: audio_data.duration,
        samples: bits(&samples),
    };
    let envelope = Transcriber::envelope(&normalized);
    let differences = first_differences(&envelope);
    let frames = Transcriber::note_frames(&normalized, &differences);

    let audio_rms = root_mean_square(&samples).unwrap_or(0.0);
    let floor = f64::from_bits(SILENCE_RATIO) * audio_rms;
    let energies: Vec<u64> = frames
        .iter()
        .map(|f| root_mean_square(&floats(&f.samples)).unwrap_or(0.0).to_bits())
        .collect();
    let frames = Transcriber::audible_frames(&frames, &energies, floor.to_bits());

    let detector = Detector(Mpm::new(MPM_THRESHOLD, normalized.sample_rate));
    let pitch_frames = Transcriber::detect_pitches(&detector, &frames);
    let note_numbers: Vec<i32> = pitch_frames
        .iter()
        .map(|p| p.pitch.map_or(0, |pitch| note_number(f64::from_bits(pitch))))
        .collect();
    Transcriber::name_notes(&pitch_frames, &note_numbers)
}

/// Silence, then tones of the given frequencies, each `len` samples long.
fn melody(frequencies: &[f64], len: usize) -> AudioData {
    let mut samples = vec![0.0; len];
    for (k, frequency) in frequencies.iter().enumerate() {
        let loudness = if k % 2 == 0 { 0.4 } else { 0.9 };
        samples.extend(sine(*frequency, 44100.0, len).iter().map(|x| loudness * x));
        samples.extend(vec![0.0; len]);
    }
    audio(&samples)
}

#[test]
fn the_divisor_is_one_for_sums_near_zero() {
    let divisor = |x: f64| f64::from_bits(Mpm::divisor(x.to_bits()));
    assert_eq!(1.0, divisor(0.0));
    assert_eq!(1.0, divisor(1e-17));
    assert_eq!(1.0, divisor(f64::EPSILON));
    assert_eq!(1.0, divisor(-3.0));
    assert_eq!(1.0, divisor(f64::NAN));
    assert_eq!(4.4e-16, divisor(4.4e-16));
    assert_eq!(0.5, divisor(0.5));
    assert_eq!(2048.0, divisor(2048.0));
    assert_eq!(f64::INFINITY, divisor(f64::INFINITY));
}

#[test]
fn quantities_below_epsilon_are_negligible() {
    let negligible = |x: f64| Mpm::negligible(x.to_bits());
    assert!(negligible(0.0));
    assert!(negligible(-0.0));
    assert!(negligible(1e-17));
    assert!(negligible(-2.2e-16));
    assert!(!negligible(f64::EPSILON));
    assert!(!negligible(-f64::EPSILON));
    assert!(!negligible(-2.0));
    assert!(!negligible(f64::NAN));
    assert!(!negligible(f64::NEG_INFINITY));
}

#[test]
fn a_parabola_needs_three_x_coordinates_and_a_bend() {
    // two points share an x-coordinate
    assert_eq!(None, quadratic_peak_interp((1, 0.0), (1, 1.0), (2, 0.0)));
    assert_eq!(None, quadratic_peak_interp((0, 0.0), (2, 1.0), (2, 0.0)));
    assert_eq!(None, quadratic_peak_interp((3, 0.0), (1, 1.0), (3, 0.5)));
    assert_eq!(None, quadratic_peak_interp((7, 0.1), (7, 0.2), (7, 0.3)));
    // the points form a straight line
    assert_eq!(None, quadratic_peak_interp((0, 0.0), (1, 1.0), (2, 2.0)));
    assert_eq!(None, quadratic_peak_interp((4, 0.5), (5, 0.5), (6, 0.5)));
    assert_eq!(None, quadratic_peak_interp((1, 3.0), (3, 2.0), (7, 0.0)));
    // the vertex of a parabola
    assert_eq!(Some((1.0, 1.0)), quadratic_peak_interp((0, 0.0), (1, 1.0), (2, 0.0)));
    assert_eq!(Some((5.0, 0.5)), quadratic_peak_interp((4, 0.25), (5, 0.5), (6, 0.25)));
    // y = 0.53125 - (x - 5.25)^2
    assert_eq!(
        Some((5.25, 0.53125)),
        quadratic_peak_interp((4, -1.03125), (5, 0.46875), (6, -0.03125))
    );
}

#[test]
fn guards_of_the_library_agree_with_the_numbers() {
    let mut seed = 5;
    for round in 0..3000 {
        let tiny = if round % 3 == 0 { 1e-15 } else { 1.0 };
        let points = [
            ((noise(&mut seed).abs() * 6.0) as usize, noise(&mut seed) * tiny),
            ((noise(&mut seed).abs() * 6.0) as usize, noise(&mut seed) * tiny),
            ((noise(&mut seed).abs() * 6.0) as usize, noise(&mut seed) * tiny),
        ];
        assert_eq!(
            vertex_in_floats(points[0], points[1], points[2]),
            quadratic_peak_interp(points[0], points[1], points[2])
        );
    }
    for frame in [vec![0.0; 64], sine(440.0, 44100.0, 256), vec![1e-9; 100], vec![1e-7, 0.0, 0.0]] {
        assert_eq!(nsdf_in_floats(frame.clone()), fast_nsdf(frame));
    }
}

#[test]
fn sine_of_440_hz_is_an_a4() {
    let frame = sine(440.0, 44100.0, 4096);
    let detector = Detector(Mpm::new(MPM_THRESHOLD, 44100));
    let pitch = f64::from_bits(detector.get_pitch(bits(&frame)).unwrap());
    assert!((pitch - 440.0).abs() < 4.4, "{pitch}");
    assert_eq!(NoteName::A(4), NoteName::from_note_number(note_number(pitch)));
    assert_eq!("A4", NoteName::from_note_number(note_number(pitch)).to_string());
}

#[test]
fn other_sines_are_found_too() {
    for (frequency, name) in [(220.0, "A3"), (261.63, "C4"), (329.63, "E4"), (880.0, "A5")] {
        let frame = sine(frequency, 44100.0, 4096);
        let detector = Detector(Mpm::new(MPM_THRESHOLD, 44100));
        let pitch = f64::from_bits(detector.get_pitch(bits(&frame)).unwrap());
        assert!((pitch - frequency).abs() < frequency / 100.0, "{pitch}");
        assert_eq!(name, NoteName::from_note_number(note_number(pitch)).to_string());
    }
}

#[test]
fn a_silent_frame_has_no_pitch() {
    let detector = Detector(Mpm::new(MPM_THRESHOLD, 44100));
    assert_eq!(None, detector.get_pitch(bits(&vec![0.0; 2048])));
}

#[test]
fn a_silent_buffer_yields_no_notes() {
    assert_eq!(None, Transcriber::normalization_peak(&bits(&vec![0.0; 44100])));
    assert_eq!(None, Transcriber::normalization_peak(&bits(&vec![-0.0; 5000])));
    assert_eq!(None, Transcriber::normalization_peak(&vec![]));
    assert_eq!(
        Transcription::Finished { notes: vec![] },
        Transcriber::get_notes(audio(&vec![0.0; 44100]))
    );
    assert_eq!(
        Transcription::Finished { notes: vec![] },
        Transcriber::get_notes(audio(&vec![-0.0, 0.0, 1e-17]))
    );
    assert_eq!(Transcription::Finished { notes: vec![] }, Transcriber::get_notes(audio(&[])));
    assert_eq!(Vec::<Note>::new(), transcribe(&audio(&vec![0.0; 44100])));
    assert_eq!(Vec::<Note>::new(), transcribe(&audio(&[])));

    // the stages behind the first one find nothing in silence either
    let silence = audio(&vec![0.0; 16000]);
    let envelope = Transcriber::envelope(&silence);
    assert_eq!(bits(&vec![0.0; 10]), envelope);
    let differences = first_differences(&envelope);
    assert_eq!(bits(&vec![0.0; 10]), differences);
    assert_eq!(Vec::<usize>::new(), Transcriber::get_onsets(&silence, &differences));
    assert_eq!(Vec::<Frame>::new(), Transcriber::note_frames(&silence, &differences));
}

#[test]
fn the_normalization_peak_is_the_largest_magnitude_above_epsilon() {
    let peak = |samples: &[f64]| Transcriber::normalization_peak(&bits(samples)).map(f64::from_bits);
    assert_eq!(Some(0.5), peak(&[0.1, -0.5, 0.25]));
    assert_eq!(Some(2.0), peak(&[2.0]));
    assert_eq!(Some(1e-15), peak(&[1e-15, 1e-16]));
    // at the machine epsilon and below the buffer is silent
    assert_eq!(None, peak(&[f64::EPSILON, -1e-17]));
    assert_eq!(Some(f64::from_bits(EPSILON + 1)), peak(&[f64::from_bits(EPSILON + 1)]));
    assert_eq!(None, peak(&[1e-17, -1e-16]));
    assert_eq!(None, peak(&[f64::NAN, 1.0]));
    assert_eq!(Some(f64::INFINITY), peak(&[f64::NEG_INFINITY, 1.0]));
}

#[test]
fn the_envelope_holds_the_peak_of_each_whole_frame() {
    let mut samples = vec![0.0; 4000];
    samples[3] = -0.25;
    samples[1599] = 0.125;
    samples[1600] = 0.5;
    samples[3199] = -0.75;
    samples[3200] = 1.0;
    let envelope = Transcriber::envelope(&audio(&samples));
    // the samples from 3200 on fill no frame
    assert_eq!(bits(&[0.25, 0.75]), envelope);
    assert_eq!(Vec::<u64>::new(), Transcriber::envelope(&audio(&vec![1.0; 1599])));
    assert_eq!(bits(&[1.0]), Transcriber::envelope(&audio(&vec![1.0; 1600])));
    assert_eq!(bits(&[1.0]), Transcriber::envelope(&audio(&vec![-1.0; 3199])));
}

#[test]
fn onsets_stand_at_the_centre_of_rising_frames() {
    let buffer = audio(&vec![0.0; 10 * ONSET_FRAME_WIDTH]);
    let onsets = |d: &[f64]| Transcriber::get_onsets(&buffer, &bits(d));
    assert_eq!(
        vec![2400, 8800],
        onsets(&[0.0, 0.5, -0.5, 0.0, 0.1, 0.2, 0.0, 0.0, 0.0, 0.0])
    );
    // a rise of exactly the threshold is not enough
    assert_eq!(
        vec![4000],
        onsets(&[0.0, 0.125, 0.12500000000000003, 0.0, 0.0, 0.0, 0.0, 0.0, 0.0, 0.0])
    );
    // frame 0 has an onset when the rise before it says so
    assert_eq!(vec![800], onsets(&[0.5, 0.0, 0.0, 0.0, 0.0, 0.0, 0.0, 0.0, 0.0, 0.0]));
    assert_eq!(Vec::<usize>::new(), onsets(&[f64::NAN; 10]));
    assert_eq!(Vec::<usize>::new(), onsets(&[]));
}

#[test]
fn an_onset_silences_the_frame_after_it() {
    let buffer = audio(&vec![0.0; 10 * ONSET_FRAME_WIDTH]);
    let onsets = |d: &[f64]| Transcriber::get_onsets(&buffer, &bits(d));
    assert_eq!(vec![2400, 5600], onsets(&[0.0, 0.5, 0.5, 0.5, 0.0, 0.0, 0.0, 0.0, 0.0, 0.0]));
    assert_eq!(
        vec![800, 4000, 7200, 10400, 13600],
        onsets(&[1.0; 10])
    );
    assert_eq!(
        vec![2400, 7200, 10400],
        onsets(&[0.0, 0.5, 0.5, 0.0, 0.5, 0.5, 0.5, 0.0, 0.0, 0.0])
    );
}

#[test]
fn onsets_lie_within_the_whole_frames_of_the_buffer() {
    // 3 whole frames: rises behind them start no note
    let buffer = audio(&vec![0.0; 3 * ONSET_FRAME_WIDTH + 1599]);
    assert_eq!(
        vec![2400],
        Transcriber::get_onsets(&buffer, &bits(&[0.0, 1.0, 0.0, 1.0, 0.0, 1.0]))
    );
    // fewer rises than frames
    assert_eq!(vec![2400], Transcriber::get_onsets(&buffer, &bits(&[0.0, 1.0])));
    let short = audio(&vec![0.0; 1599]);
    assert_eq!(Vec::<usize>::new(), Transcriber::get_onsets(&short, &bits(&[1.0])));
}

#[test]
fn onsets_follow_the_toggled_flag() {
    let mut seed = 7;
    for round in 0..200 {
        let frames = round % 23;
        let buffer = audio(&vec![0.0; frames * ONSET_FRAME_WIDTH + round]);
        let differences: Vec<f64> = (0..frames.max(1)).map(|_| noise(&mut seed) * 0.3).collect();

        let mut expected = vec![];
        let mut add_onset = true;
        for i in 0..frames {
            if i < differences.len() && differences[i] > 0.125 && add_onset {
                expected.push(ONSET_FRAME_WIDTH * i + ONSET_FRAME_WIDTH / 2);
                add_onset = false;
            } else {
                add_onset = true;
            }
        }
        assert_eq!(expected, Transcriber::get_onsets(&buffer, &bits(&differences)));
    }
}

#[test]
fn note_frames_run_from_onset_to_onset() {
    let samples: Vec<f64> = (0..20000).map(|i| i as f64).collect();
    let buffer = audio(&samples);
    let differences = bits(&[0.0, 0.5, 0.0, 0.0, 0.0, 0.0, 0.0, 0.5, 0.0, 0.0, 0.0, 0.0]);
    let frames = Transcriber::note_frames(&buffer, &differences);
    assert_eq!(2, frames.len());
    // from 2400 to 12000 are 9600 samples: the first 8192 are kept
    assert_eq!(2400, frames[0].start_pos);
    assert_eq!(MAX_FRAME_WIDTH, frames[0].samples.len());
    assert_eq!(bits(&samples[2400..2400 + 8192]), frames[0].samples);
    // the last frame runs to the end of the buffer
    assert_eq!(12000, frames[1].start_pos);
    assert_eq!(bits(&samples[12000..20000]), frames[1].samples);
}

#[test]
fn frames_of_exactly_the_cap_are_kept_whole() {
    let samples: Vec<f64> = (0..800 + 8192).map(|i| i as f64).collect();
    let buffer = audio(&samples);
    let frames = Transcriber::note_frames(&buffer, &bits(&[1.0]));
    assert_eq!(
        vec![Frame { start_pos: 800, samples: bits(&samples[800..]) }],
        frames
    );
    let samples: Vec<f64> = (0..800 + 8193).map(|i| i as f64).collect();
    let frames = Transcriber::note_frames(&audio(&samples), &bits(&[1.0]));
    assert_eq!(
        vec![Frame { start_pos: 800, samples: bits(&samples[800..800 + 8192]) }],
        frames
    );
}

#[test]
fn frames_below_the_floor_are_dropped() {
    let frame = |start_pos: usize| Frame { start_pos, samples: bits(&[start_pos as f64, 1.0]) };
    let frames = vec![frame(800), frame(2400), frame(4000), frame(5600)];
    let energies = bits(&[0.5, 0.1, 0.2, f64::NAN]);
    // at the floor is enough
    assert_eq!(
        vec![frame(800), frame(4000)],
        Transcriber::audible_frames(&frames, &energies, 0.2f64.to_bits())
    );
    assert_eq!(
        vec![frame(800), frame(2400), frame(4000)],
        Transcriber::audible_frames(&frames, &energies, 0.0f64.to_bits())
    );
    assert_eq!(
        Vec::<Frame>::new(),
        Transcriber::audible_frames(&frames, &energies, f64::NAN.to_bits())
    );
    assert_eq!(Vec::<Frame>::new(), Transcriber::audible_frames(&vec![], &vec![], 0));
}

#[test]
fn each_frame_is_handed_to_the_detector() {
    #[derive(Clone)]
    struct Length;
    impl PitchDetector for Length {
        fn get_pitch(self, samples: Vec<u64>) -> Option<u64> {
            if samples.len() % 2 == 0 {
                Some(samples.len() as u64 + samples[0])
            } else {
                None
            }
        }
    }
    let frames = vec![
        Frame { start_pos: 800, samples: vec![10, 0] },
        Frame { start_pos: 2400, samples: vec![20, 0, 0] },
        Frame { start_pos: 4000, samples: vec![30, 0, 0, 0] },
    ];
    assert_eq!(
        vec![
            PitchFrame { start_pos: 800, frame_width: 2, pitch: Some(12) },
            PitchFrame { start_pos: 2400, frame_width: 3, pitch: None },
            PitchFrame { start_pos: 4000, frame_width: 4, pitch: Some(34) },
        ],
        Transcriber::detect_pitches(&Length, &frames)
    );
}

#[test]
fn peak_picking_agrees_with_one_pass_over_the_numbers() {
    let mut seed = 2023;
    for round in 0..2000 {
        let len = round % 41;
        let nsdf: Vec<f64> = (0..len)
            .map(|_| {
                let x = noise(&mut seed);
                let kind = (noise(&mut seed) * 40.0) as i32;
                match kind {
                    0 => 0.0,
                    1 => -0.0,
                    2 => f64::NAN,
                    3 => (x * 4.0).round() / 4.0,
                    _ => x,
                }
            })
            .collect();
        for threshold in [0.7, 0.0, 1.0] {
            let expected = mpm_peak_in_one_pass(threshold, &nsdf);
            let found = mpm_peak(threshold, &nsdf);
            assert_eq!(
                expected.map(|p| (p.0.to_bits(), p.1.to_bits())),
                found.map(|p| (p.0.to_bits(), p.1.to_bits())),
                "{nsdf:?}"
            );
        }
    }
}

#[test]
fn peak_picking_agrees_on_the_curves_of_tones() {
    for frequency in [110.0, 196.0, 440.0, 523.25, 1046.5] {
        let mut frame = sine(frequency, 44100.0, 2048);
        for (i, x) in sine(2.0 * frequency, 44100.0, 2048).iter().enumerate() {
            frame[i] += 0.5 * x;
        }
        let nsdf = fast_nsdf(frame);
        let expected = mpm_peak_in_one_pass(0.7, &nsdf);
        assert!(expected.is_some());
        assert_eq!(expected, mpm_peak(0.7, &nsdf));
    }
}

#[test]
fn a_melody_is_transcribed_note_by_note() {
    let notes = transcribe(&melody(&[440.0, 261.63, 329.63], 16000));
    let names: Vec<String> = notes.iter().map(|n| n.name.to_string()).collect();
    assert_eq!(vec!["A4", "C4", "E4"], names);
    // each tone begins in the frame from 16000 on, 32000 samples after the one before
    assert_eq!(vec![16800, 48800, 80800], notes.iter().map(|n| n.start).collect::<Vec<_>>());
    for note in &notes {
        assert_eq!(MAX_FRAME_WIDTH, note.duration);
    }
}

#[test]
fn transcribing_twice_gives_the_same_notes() {
    let buffer = melody(&[440.0, 196.0, 523.25, 220.0], 12800);
    let first = transcribe(&buffer);
    let second = transcribe(&buffer);
    assert!(!first.is_empty());
    assert_eq!(first, second);
    let shown = |notes: &Vec<Note>| notes.iter().map(|n| n.to_string()).collect::<Vec<_>>();
    assert_eq!(shown(&first), shown(&second));
}

#[test]
fn notes_ascend_and_lie_in_the_buffer() {
    let mut seed = 99;
    let mut samples = vec![];
    for k in 0..30 {
        let loudness = if k % 3 == 0 { 0.0 } else { 0.2 + 0.8 * noise(&mut seed).abs() };
        let frequency = 150.0 + 600.0 * noise(&mut seed).abs();
        samples.extend(sine(frequency, 44100.0, 3200).iter().map(|x| loudness * x));
    }
    let buffer = audio(&samples);
    let notes = transcribe(&buffer);
    assert!(!notes.is_empty());
    for pair in notes.windows(2) {
        assert!(pair[0].start < pair[1].start);
    }
    for note in &notes {
        assert_eq!(ONSET_FRAME_WIDTH / 2, note.start % ONSET_FRAME_WIDTH);
        assert!(note.duration <= MAX_FRAME_WIDTH);
        assert!(note.start + note.duration <= samples.len());
    }
}

#[test]
fn a_transcription_asks_for_each_stage_in_turn() {
    let mut samples = vec![0.0; 1600];
    samples.extend(sine(440.0, 44100.0, 8000).iter().map(|x| 0.5 * x));
    let peak = samples.iter().fold(0.0f64, |m, x| m.max(x.abs()));
    assert!(0.49 < peak && peak <= 0.5);
    let state = Transcriber::get_notes(audio(&samples));
    assert_eq!(
        Transcription::Normalizing { audio_data: audio(&samples), peak: peak.to_bits() },
        state
    );

    let quotients: Vec<f64> = samples.iter().map(|x| x / peak).collect();
    let state = state.advance(Answer::Quotients(bits(&quotients)));
    let envelope = Transcriber::envelope(&audio(&quotients));
    assert_eq!(6, envelope.len());
    assert_eq!(
        Transcription::Rising { audio_data: audio(&quotients), envelope: envelope.clone() },
        state
    );

    let state = state.advance(Answer::Differences(rises(&envelope)));
    assert_eq!(
        Transcription::Weighing {
            audio_data: audio(&quotients),
            frames: vec![Frame { start_pos: 2400, samples: bits(&quotients[2400..]) }],
            ratio: SILENCE_RATIO,
        },
        state
    );

    let state = state.advance(Answer::Energies {
        floor: 0.1f64.to_bits(),
        frames: bits(&[0.7]),
    });
    assert_eq!(
        Transcription::Listening {
            detector: Mpm::new(MPM_THRESHOLD, 44100),
            frames: vec![Frame { start_pos: 2400, samples: bits(&quotients[2400..]) }],
        },
        state
    );

    let state = state.advance(Answer::Pitches(vec![Some(441.0f64.to_bits())]));
    assert_eq!(
        Transcription::Naming {
            pitch_frames: vec![PitchFrame {
                start_pos: 2400,
                frame_width: 7200,
                pitch: Some(441.0f64.to_bits()),
            }],
        },
        state
    );

    let state = state.advance(Answer::NoteNumbers(vec![48]));
    assert_eq!(
        Transcription::Finished {
            notes: vec![Note { name: NoteName::A(4), start: 2400, duration: 7200 }],
        },
        state
    );
    // a finished transcription stays finished
    let state = state.advance(Answer::NoteNumbers(vec![50]));
    assert_eq!(
        Transcription::Finished {
            notes: vec![Note { name: NoteName::A(4), start: 2400, duration: 7200 }],
        },
        state
    );
}

#[test]
fn an_answer_that_does_not_fit_changes_nothing() {
    let samples = vec![0.5, -0.25, 0.125];
    let start = || Transcriber::get_notes(audio(&samples));
    // another kind of answer
    assert_eq!(start(), start().advance(Answer::Differences(bits(&[0.0, 0.0, 0.0]))));
    assert_eq!(start(), start().advance(Answer::NoteNumbers(vec![1, 2, 3])));
    assert_eq!(start(), start().advance(Answer::Pitches(vec![None; 3])));
    assert_eq!(
        start(),
        start().advance(Answer::Energies { floor: 0, frames: vec![0; 3] })
    );
    // another number of entries
    assert_eq!(start(), start().advance(Answer::Quotients(bits(&[1.0, -0.5]))));
    assert_eq!(start(), start().advance(Answer::Quotients(bits(&[1.0, -0.5, 0.25, 0.0]))));

    let rising = || start().advance(Answer::Quotients(bits(&[1.0, -0.5, 0.25])));
    assert_eq!(
        Transcription::Rising { audio_data: audio(&[1.0, -0.5, 0.25]), envelope: vec![] },
        rising()
    );
    assert_eq!(rising(), rising().advance(Answer::Differences(bits(&[0.0]))));
    let long = || {
        Transcriber::get_notes(audio(&vec![0.5; 3 * ONSET_FRAME_WIDTH]))
            .advance(Answer::Quotients(bits(&vec![1.0; 3 * ONSET_FRAME_WIDTH])))
    };
    // three values of the envelope have two rises
    assert_eq!(long(), long().advance(Answer::Differences(bits(&[0.0, 0.0, 0.0]))));
    assert_eq!(long(), long().advance(Answer::Differences(bits(&[0.0]))));
    assert_eq!(long(), long().advance(Answer::Differences(vec![])));
    // towards the first frame the envelope does not rise: no onset there
    assert_eq!(
        Transcription::Weighing {
            audio_data: audio(&vec![1.0; 3 * ONSET_FRAME_WIDTH]),
            frames: vec![Frame { start_pos: 2400, samples: bits(&vec![1.0; 2400]) }],
            ratio: SILENCE_RATIO,
        },
        long().advance(Answer::Differences(bits(&[0.5, 0.5])))
    );
    assert_eq!(rising(), rising().advance(Answer::Quotients(bits(&[1.0, -0.5, 0.25]))));

    let weighing = || rising().advance(Answer::Differences(vec![]));
    assert_eq!(
        Transcription::Weighing {
            audio_data: audio(&[1.0, -0.5, 0.25]),
            frames: vec![],
            ratio: SILENCE_RATIO,
        },
        weighing()
    );
    assert_eq!(
        weighing(),
        weighing().advance(Answer::Energies { floor: 0, frames: vec![0] })
    );

    let listening = || weighing().advance(Answer::Energies { floor: 0, frames: vec![] });
    assert_eq!(
        Transcription::Listening { detector: Mpm::new(MPM_THRESHOLD, 44100), frames: vec![] },
        listening()
    );
    assert_eq!(listening(), listening().advance(Answer::Pitches(vec![None])));

    let naming = || listening().advance(Answer::Pitches(vec![]));
    assert_eq!(Transcription::Naming { pitch_frames: vec![] }, naming());
    assert_eq!(naming(), naming().advance(Answer::NoteNumbers(vec![48])));
    assert_eq!(
        Transcription::Finished { notes: vec![] },
        naming().advance(Answer::NoteNumbers(vec![]))
    );
}

#[test]
fn the_transcription_gives_the_notes_of_its_stages() {
    for buffer in [
        melody(&[440.0, 261.63, 329.63], 16000),
        melody(&[196.0, 880.0], 9000),
        audio(&sine(440.0, 44100.0, 1500)),
        audio(&vec![0.0; 5000]),
    ] {
        assert_eq!(transcribe_by_stages(&buffer), transcribe(&buffer));
    }
}
