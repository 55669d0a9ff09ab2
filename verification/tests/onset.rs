use audio_analyzer::analyzer::AudioAnalyzer;
use audio_analyzer::onset::frame_count;
use audio_analyzer::onset::min_beat_distance;
use audio_analyzer::onset::silent_frames;
use audio_analyzer::onset::spectral_flux;
use audio_analyzer::onset::OnsetDetector;
use audio_analyzer::onset::SpectrumError;
use audio_analyzer::onset::HOP_SIZE;
use audio_analyzer::onset::SPECTRUM_BINS;
use audio_analyzer::onset::THRESHOLD_ONE;
use audio_analyzer::onset::WINDOW_SIZE;

const ONE: u128 = 1 << 32;

fn samples_for(frames: usize) -> usize {
    if frames == 0 {
        0
    } else {
        WINDOW_SIZE + (frames - 1) * HOP_SIZE
    }
}

/// A spectrum whose only energy is `level` in its first bin.
fn spectrum(level: f32) -> Vec<u32> {
    let mut bins = vec![0.0f32.to_bits(); SPECTRUM_BINS];
    bins[0] = level.to_bits();
    bins
}

/// A run in which frame `i` has the flux `levels[i]`, and zero where the
/// level is zero: the first bin jumps to the level and falls back.
fn run(levels: &[f32], sample_rate: u32) -> OnsetDetector {
    let mut detector = OnsetDetector::new(samples_for(levels.len()), sample_rate);
    for level in levels {
        assert_eq!(detector.push_spectrum(&spectrum(*level)), Ok(()));
    }
    detector
}

fn threshold(value: f64) -> i64 {
    (value * THRESHOLD_ONE as f64) as i64
}

fn levels(frames: usize, peaks: &[(usize, f32)]) -> Vec<f32> {
    let mut levels = vec![0.0f32; frames];
    for (frame, level) in peaks {
        levels[*frame] = *level;
    }
    levels
}

#[test]
fn frame_geometry() {
    assert_eq!(WINDOW_SIZE, 2048);
    assert_eq!(HOP_SIZE, 512);
    assert_eq!(SPECTRUM_BINS, 1024);
}

#[test]
fn frames_are_counted_while_they_fit() {
    assert_eq!(frame_count(0), 0);
    assert_eq!(frame_count(2047), 0);
    assert_eq!(frame_count(2048), 1);
    assert_eq!(frame_count(2559), 1);
    assert_eq!(frame_count(2560), 2);
    assert_eq!(frame_count(88_200), 169);
    assert_eq!(frame_count(usize::MAX), (usize::MAX - 2048) / 512 + 1);
}

#[test]
fn least_beat_distance_is_a_tenth_of_a_second() {
    assert_eq!(min_beat_distance(44_100), 4_410);
    assert_eq!(min_beat_distance(48_000), 4_800);
    assert_eq!(min_beat_distance(8_000), 800);
    assert_eq!(min_beat_distance(11_025), 1_103);
    assert_eq!(min_beat_distance(22_050), 2_205);
    assert_eq!(min_beat_distance(14), 1);
    assert_eq!(min_beat_distance(15), 2);
    assert_eq!(min_beat_distance(0), 0);
    assert_eq!(min_beat_distance(u32::MAX), 429_496_730);
}

#[test]
fn flux_adds_up_the_rises_only() {
    assert_eq!(spectral_flux(&vec![], &vec![]), 0);
    assert_eq!(spectral_flux(&vec![5, 1, 9], &vec![2, 4, 9]), 3);
    assert_eq!(spectral_flux(&vec![5, 6, 9], &vec![2, 4, 1]), 13);
    assert_eq!(spectral_flux(&vec![0, 0, 0], &vec![2, 4, 1]), 0);
    assert_eq!(spectral_flux(&vec![u64::MAX, u64::MAX], &vec![0, 0]), 2 * (u64::MAX as u128));
}

#[test]
fn first_frame_is_differenced_against_silence() {
    let mut detector = OnsetDetector::new(samples_for(3), 44_100);
    let mut first = vec![0.0f32.to_bits(); SPECTRUM_BINS];
    first[0] = 1.0f32.to_bits();
    first[1023] = 0.5f32.to_bits();
    let mut second = vec![0.0f32.to_bits(); SPECTRUM_BINS];
    second[0] = 0.5f32.to_bits();
    second[1] = 2.0f32.to_bits();
    second[1023] = 0.75f32.to_bits();
    assert_eq!(detector.push_spectrum(&first), Ok(()));
    assert_eq!(detector.push_spectrum(&second), Ok(()));
    assert_eq!(detector.push_spectrum(&second), Ok(()));
    assert_eq!(detector.flux_values(), &vec![ONE + ONE / 2, 2 * ONE + ONE / 4, 0]);
    assert_eq!(detector.frames_taken(), 3);
}

#[test]
fn frames_start_a_hop_apart_until_the_buffer_ends() {
    let mut detector = OnsetDetector::new(2048 + 2 * 512 + 511, 44_100);
    assert_eq!(detector.next_frame(), Some(0));
    assert_eq!(detector.push_spectrum(&spectrum(0.0)), Ok(()));
    assert_eq!(detector.next_frame(), Some(512));
    assert_eq!(detector.push_spectrum(&spectrum(0.0)), Ok(()));
    assert_eq!(detector.next_frame(), Some(1024));
    assert_eq!(detector.push_spectrum(&spectrum(0.0)), Ok(()));
    assert_eq!(detector.next_frame(), None);
    assert_eq!(detector.frames_taken(), 3);
}

#[test]
fn spectrum_of_the_wrong_length_is_refused() {
    let mut detector = OnsetDetector::new(samples_for(2), 44_100);
    assert_eq!(detector.push_spectrum(&vec![0; 1023]), Err(SpectrumError::WrongLength));
    assert_eq!(detector.push_spectrum(&vec![0; 1025]), Err(SpectrumError::WrongLength));
    assert_eq!(detector.push_spectrum(&vec![]), Err(SpectrumError::WrongLength));
    assert_eq!(detector.frames_taken(), 0);
    assert_eq!(detector.next_frame(), Some(0));
}

#[test]
fn spectrum_past_the_last_frame_is_refused() {
    let mut detector = OnsetDetector::new(samples_for(1), 44_100);
    assert_eq!(detector.push_spectrum(&spectrum(1.0)), Ok(()));
    assert_eq!(detector.push_spectrum(&spectrum(1.0)), Err(SpectrumError::Complete));
    assert_eq!(detector.push_spectrum(&vec![]), Err(SpectrumError::Complete));
    assert_eq!(detector.frames_taken(), 1);
    let mut empty = OnsetDetector::new(2047, 44_100);
    assert_eq!(empty.push_spectrum(&spectrum(1.0)), Err(SpectrumError::Complete));
}

#[test]
fn peaks_become_beats_when_far_enough_apart() {
    let detector =
        run(&levels(30, &[(3, 8.0), (9, 10.0), (12, 9.0), (20, 6.0), (25, 2.0)]), 44_100);
    assert_eq!(detector.beats(threshold(0.3)), vec![9 * 512, 20 * 512]);
}

#[test]
fn first_beat_lies_more_than_the_least_distance_into_the_buffer() {
    let peaks = levels(30, &[(8, 5.0), (20, 5.0)]);
    assert_eq!(run(&peaks, 44_100).beats(threshold(0.3)), vec![20 * 512]);
    assert_eq!(run(&peaks, 40_950).beats(threshold(0.3)), vec![8 * 512, 20 * 512]);
    assert_eq!(run(&peaks, 40_960).beats(threshold(0.3)), vec![20 * 512]);
}

#[test]
fn distance_must_be_exceeded_not_met() {
    let peaks = levels(30, &[(10, 5.0), (20, 5.0)]);
    assert_eq!(run(&peaks, 51_200).beats(threshold(0.3)), vec![20 * 512]);
    assert_eq!(run(&peaks, 51_190).beats(threshold(0.3)), vec![10 * 512, 20 * 512]);
    let close = levels(40, &[(10, 5.0), (20, 5.0), (30, 5.0)]);
    assert_eq!(run(&close, 51_194).beats(threshold(0.3)), vec![10 * 512, 20 * 512, 30 * 512]);
    assert_eq!(run(&close, 51_195).beats(threshold(0.3)), vec![20 * 512]);
}

#[test]
fn threshold_must_be_exceeded_not_met() {
    let detector = run(&levels(30, &[(9, 10.0), (20, 5.0)]), 44_100);
    assert_eq!(detector.beats(threshold(0.5)), vec![9 * 512]);
    assert_eq!(detector.beats(threshold(0.4999)), vec![9 * 512, 20 * 512]);
    assert_eq!(detector.beats(threshold(1.0)), Vec::<usize>::new());
    assert_eq!(detector.beats(threshold(0.9999)), vec![9 * 512]);
    assert_eq!(detector.beats(i64::MAX), Vec::<usize>::new());
    assert_eq!(detector.beats(0), vec![9 * 512, 20 * 512]);
    assert_eq!(detector.beats(-1), vec![9 * 512, 20 * 512]);
    assert_eq!(detector.beats(i64::MIN), vec![9 * 512, 20 * 512]);
}

#[test]
fn flux_is_normalized_by_the_largest_of_the_run() {
    let quiet = run(&levels(30, &[(9, 0.001), (20, 0.0004)]), 44_100);
    assert_eq!(quiet.beats(threshold(0.3)), vec![9 * 512, 20 * 512]);
    let outshone = run(&levels(30, &[(9, 0.001), (20, 0.0004), (29, 1.0)]), 44_100);
    assert_eq!(outshone.beats(threshold(0.3)), Vec::<usize>::new());
}

#[test]
fn first_and_last_frame_are_never_beats() {
    let ends = run(&levels(30, &[(0, 9.0), (29, 9.0)]), 10);
    assert_eq!(ends.beats(threshold(0.3)), Vec::<usize>::new());
    let inner = run(&levels(30, &[(1, 9.0), (28, 9.0)]), 10);
    assert_eq!(inner.beats(threshold(0.3)), vec![512, 28 * 512]);
}

#[test]
fn a_plateau_is_no_peak() {
    let mut detector = OnsetDetector::new(samples_for(12), 10);
    for level in [0.0f32, 1.0, 2.0, 3.0, 3.0, 3.0, 0.0, 1.0, 3.0, 7.0, 0.0, 0.0] {
        assert_eq!(detector.push_spectrum(&spectrum(level)), Ok(()));
    }
    assert_eq!(detector.flux_values(), &vec![0, ONE, ONE, ONE, 0, 0, 0, ONE, 2 * ONE, 4 * ONE, 0, 0]);
    assert_eq!(detector.beats(threshold(0.1)), vec![9 * 512]);
}

#[test]
fn short_runs_have_no_beats() {
    for frames in 0..3 {
        let detector = run(&vec![1.0; frames], 10);
        assert_eq!(detector.beats(threshold(0.0)), Vec::<usize>::new());
        assert_eq!(detector.beats(-5), Vec::<usize>::new());
    }
    let rising = run(&[1.0, 3.0, 2.0], 10);
    assert_eq!(rising.flux_values(), &vec![ONE, 2 * ONE, 0]);
    assert_eq!(rising.beats(threshold(0.5)), vec![512]);
}

#[test]
fn silent_run_has_no_beats_at_any_threshold() {
    let detector = run(&vec![0.0; 50], 44_100);
    assert!(detector.flux_values().iter().all(|flux| *flux == 0));
    for level in [i64::MIN, -1, 0, 1, threshold(0.3), THRESHOLD_ONE, i64::MAX] {
        assert_eq!(detector.beats(level), Vec::<usize>::new());
    }
}

#[test]
fn beats_rise_and_keep_their_distance() {
    let mut state: u32 = 7;
    let mut values = Vec::new();
    for _ in 0..400 {
        state = state.wrapping_mul(1_103_515_245).wrapping_add(12_345);
        values.push(((state >> 16) % 1000) as f32 / 10.0);
    }
    for rate in [8_000u32, 44_100, 96_000] {
        let detector = run(&values, rate);
        let beats = detector.beats(threshold(0.1));
        assert!(!beats.is_empty());
        let gap = min_beat_distance(rate);
        assert!(beats[0] > gap);
        for pair in beats.windows(2) {
            assert!(pair[0] < pair[1]);
            assert!(pair[1] - pair[0] > gap);
        }
        for beat in &beats {
            assert_eq!(beat % 512, 0);
            let frame = beat / 512;
            let flux = detector.flux_values();
            assert!(flux[frame] > flux[frame - 1] && flux[frame] > flux[frame + 1]);
        }
    }
}

#[test]
fn detection_is_repeatable() {
    let values = levels(60, &[(9, 10.0), (20, 5.0), (33, 7.5), (50, 4.0)]);
    let first = run(&values, 44_100);
    let second = run(&values, 44_100);
    assert_eq!(first.flux_values(), second.flux_values());
    assert_eq!(first.beats(threshold(0.3)), second.beats(threshold(0.3)));
    assert_eq!(first.beats(threshold(0.3)), first.beats(threshold(0.3)));
    assert_eq!(first.beats(threshold(0.3)), vec![9 * 512, 20 * 512, 33 * 512, 50 * 512]);
}

#[test]
fn analyzer_hands_its_buffer_to_the_detector() {
    let analyzer = AudioAnalyzer::from_samples(vec![0; 2048 + 512], 8_000).unwrap();
    let mut detector = analyzer.onset_detector();
    assert_eq!(detector.frames_taken(), 0);
    assert_eq!(detector.next_frame(), Some(0));
    assert_eq!(detector.push_spectrum(&spectrum(0.0)), Ok(()));
    assert_eq!(detector.next_frame(), Some(512));
    assert_eq!(detector.push_spectrum(&spectrum(0.0)), Ok(()));
    assert_eq!(detector.next_frame(), None);
    let short = AudioAnalyzer::from_samples(vec![0; 2047], 8_000).unwrap();
    assert_eq!(short.onset_detector().next_frame(), None);
}

fn sounding_buffer(frames: usize, sample_rate: u32) -> AudioAnalyzer {
    AudioAnalyzer::from_samples(vec![1; samples_for(frames)], sample_rate).unwrap()
}

fn silent_buffer(frames: usize, sample_rate: u32) -> AudioAnalyzer {
    AudioAnalyzer::from_samples(vec![0; samples_for(frames)], sample_rate).unwrap()
}

#[test]
fn beats_of_a_whole_run_in_one_call() {
    let analyzer = sounding_buffer(30, 44_100);
    let values = levels(30, &[(3, 8.0), (9, 10.0), (12, 9.0), (20, 6.0), (25, 2.0)]);
    let spectra: Vec<Vec<u32>> = values.iter().map(|level| spectrum(*level)).collect();
    assert_eq!(analyzer.detect_beats(&spectra, 0.3f32.to_bits()), Some(vec![9 * 512, 20 * 512]));
    assert_eq!(analyzer.detect_beats(&spectra, 0.6f32.to_bits()), Some(vec![9 * 512]));
    assert_eq!(analyzer.detect_beats(&spectra, 0.59f32.to_bits()), Some(vec![9 * 512, 20 * 512]));
    assert_eq!(analyzer.detect_beats(&spectra, f32::NAN.to_bits()), Some(vec![]));
    assert_eq!(
        analyzer.detect_beats(&spectra, (-1.0f32).to_bits()),
        Some(vec![9 * 512, 20 * 512])
    );
    assert_eq!(
        analyzer.detect_beats(&spectra, 0.3f32.to_bits()).unwrap(),
        run(&values, 44_100).beats(threshold(0.3f32 as f64))
    );
}

#[test]
fn a_run_that_does_not_fit_the_buffer_has_no_result() {
    let analyzer = sounding_buffer(5, 44_100);
    let fitting: Vec<Vec<u32>> = vec![spectrum(1.0); 5];
    assert_eq!(analyzer.detect_beats(&fitting, 0.3f32.to_bits()), Some(vec![]));
    assert_eq!(analyzer.detect_beats(&vec![spectrum(1.0); 4], 0.3f32.to_bits()), None);
    assert_eq!(analyzer.detect_beats(&vec![spectrum(1.0); 6], 0.3f32.to_bits()), None);
    assert_eq!(analyzer.detect_beats(&vec![], 0.3f32.to_bits()), None);
    let mut ragged = fitting.clone();
    ragged[4].pop();
    assert_eq!(analyzer.detect_beats(&ragged, 0.3f32.to_bits()), None);
    let mut long = fitting.clone();
    long[0].push(0);
    assert_eq!(analyzer.detect_beats(&long, 0.3f32.to_bits()), None);
    let short = AudioAnalyzer::from_samples(vec![0; 2047], 44_100).unwrap();
    assert_eq!(short.detect_beats(&vec![], 0.3f32.to_bits()), Some(vec![]));
    assert_eq!(short.detect_beats(&vec![spectrum(1.0)], 0.3f32.to_bits()), None);
}

#[test]
fn buffer_of_zeros_has_no_beats_whatever_the_spectra() {
    let analyzer = silent_buffer(30, 44_100);
    let values = levels(30, &[(9, 10.0), (20, 6.0)]);
    let spectra: Vec<Vec<u32>> = values.iter().map(|level| spectrum(*level)).collect();
    for level in [0.3f32, 1.0e-6, 0.0, 1.0, -0.5, f32::NAN, f32::NEG_INFINITY] {
        assert_eq!(analyzer.detect_beats(&spectra, level.to_bits()), Some(vec![]));
    }
    let mut detector = analyzer.onset_detector();
    for spectrum in &spectra {
        assert_eq!(detector.push_spectrum(spectrum), Ok(()));
    }
    assert!(detector.flux_values().iter().all(|flux| *flux == 0));
    assert_eq!(detector.beats(threshold(0.3)), Vec::<usize>::new());
    assert_eq!(detector.beats(i64::MIN), Vec::<usize>::new());
    let empty = AudioAnalyzer::new();
    assert_eq!(empty.detect_beats(&vec![], 0.3f32.to_bits()), Some(vec![]));
}

#[test]
fn frames_of_zeros_are_taken_as_silent() {
    let mut samples = vec![0i64; samples_for(12)];
    samples[9 * 512 + 2047] = 5;
    let analyzer = AudioAnalyzer::from_samples(samples, 10).unwrap();
    assert_eq!(
        silent_frames(analyzer.samples()),
        vec![true, true, true, true, true, true, true, true, true, false, false, false]
    );
    let mut detector = analyzer.onset_detector();
    for frame in 0..12 {
        assert_eq!(detector.next_is_silent(), frame < 9);
        assert_eq!(detector.push_spectrum(&spectrum(1.0)), Ok(()));
    }
    assert!(!detector.next_is_silent());
    assert!(!OnsetDetector::new(samples_for(3), 10).next_is_silent());
    assert_eq!(detector.flux_values(), &vec![0, 0, 0, 0, 0, 0, 0, 0, 0, ONE, 0, 0]);
    assert_eq!(detector.beats(threshold(0.3)), vec![9 * 512]);
    let unaware = run(&vec![1.0; 12], 10);
    assert_eq!(unaware.flux_values(), &vec![ONE, 0, 0, 0, 0, 0, 0, 0, 0, 0, 0, 0]);
}

#[test]
fn silence_is_marked_frame_by_frame() {
    assert_eq!(silent_frames(&vec![0; 2047]), Vec::<bool>::new());
    assert_eq!(silent_frames(&vec![0; 2048]), vec![true]);
    assert_eq!(silent_frames(&vec![1; 2048]), vec![false]);
    let mut samples = vec![0i64; 2048 + 3 * 512];
    samples[2048] = -1;
    assert_eq!(silent_frames(&samples), vec![true, false, false, false]);
    samples[2048] = 0;
    samples[511] = 1;
    assert_eq!(silent_frames(&samples), vec![false, true, true, true]);
    samples[2048 + 3 * 512 - 1] = 1;
    assert_eq!(silent_frames(&samples), vec![false, true, true, false]);
}
