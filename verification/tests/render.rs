use audio_analyzer::envelope::EnvelopeSample;
use audio_analyzer::render::render_beats;
use audio_analyzer::render::render_envelope;

fn text(bytes: Vec<u8>) -> String {
    String::from_utf8(bytes).unwrap()
}

#[test]
fn beats_file_has_header_count_and_one_time_per_line() {
    let rendered = text(render_beats(&vec![22_050, 44_100, 4_608], 44_100));
    assert_eq!(
        rendered,
        "# Beat timestamps (in seconds)\n# Generated by audio-analyzer\n# Total beats: 3\n\n0.500\n1.000\n0.104\n"
    );
}

#[test]
fn beats_file_without_beats_is_the_header_alone() {
    let rendered = text(render_beats(&vec![], 44_100));
    assert_eq!(
        rendered,
        "# Beat timestamps (in seconds)\n# Generated by audio-analyzer\n# Total beats: 0\n\n"
    );
}

#[test]
fn times_keep_three_places_at_any_size() {
    let rendered = text(render_beats(&vec![0, 1, 7_999, 8_000, 123_456_789], 8_000));
    let lines: Vec<&str> = rendered.lines().skip(4).collect();
    assert_eq!(lines, vec!["0.000", "0.000", "1.000", "1.000", "15432.099"]);
}

#[test]
fn times_round_to_the_nearest_millisecond_with_ties_up() {
    let rendered = text(render_beats(&vec![1, 3, 4, 5], 2_000));
    let lines: Vec<&str> = rendered.lines().skip(4).collect();
    assert_eq!(lines, vec!["0.001", "0.002", "0.002", "0.003"]);
}

#[test]
fn times_agree_with_floating_point_formatting() {
    let beats: Vec<usize> = (0..400).map(|frame| frame * 512).collect();
    for rate in [8_000u32, 22_050, 44_100, 48_000, 96_000] {
        let rendered = text(render_beats(&beats, rate));
        let lines: Vec<&str> = rendered.lines().skip(4).collect();
        assert_eq!(lines.len(), beats.len());
        for (line, beat) in lines.iter().zip(&beats) {
            let millis = *beat as u128 * 1000;
            if (2 * millis) % (rate as u128) != 0 || millis % (rate as u128) == 0 {
                assert_eq!(*line, format!("{:.3}", *beat as f64 / rate as f64));
            }
        }
    }
}

#[test]
fn envelope_file_has_header_count_and_one_pair_per_line() {
    let envelope = vec![
        EnvelopeSample { start: 0, amplitude: 10_000 },
        EnvelopeSample { start: 735, amplitude: 5_000 },
        EnvelopeSample { start: 1_470, amplitude: 1 },
        EnvelopeSample { start: 2_205, amplitude: 0 },
        EnvelopeSample { start: 44_100, amplitude: 9_999 },
    ];
    let rendered = text(render_envelope(&envelope, 44_100));
    assert_eq!(
        rendered,
        "# Amplitude envelope data (time,amplitude)\n# Generated by audio-analyzer\n# Total samples: 5\n\n0.000,1.0000\n0.017,0.5000\n0.033,0.0001\n0.050,0.0000\n1.000,0.9999\n"
    );
}

#[test]
fn envelope_file_without_points_is_the_header_alone() {
    let rendered = text(render_envelope(&vec![], 48_000));
    assert_eq!(
        rendered,
        "# Amplitude envelope data (time,amplitude)\n# Generated by audio-analyzer\n# Total samples: 0\n\n"
    );
}

#[test]
fn amplitudes_agree_with_floating_point_formatting() {
    for amplitude in [0u32, 1, 9, 10, 99, 100, 999, 1_000, 3_330, 7_071, 9_999, 10_000] {
        let rendered = text(render_envelope(&vec![EnvelopeSample { start: 0, amplitude }], 44_100));
        let line = rendered.lines().nth(4).unwrap();
        assert_eq!(line, format!("0.000,{:.4}", amplitude as f64 / 10_000.0));
    }
}
