//! The sample buffer under analysis.

use vstd::prelude::*;
use crate::decoded::block_format;
use crate::decoded::block_planes;
use crate::decoded::read_channels;
use crate::decoded::read_format;
use crate::decoded::read_frames;
use crate::decoded::read_sample;
use crate::envelope::envelope_of;
use crate::envelope::extract_envelope;
use crate::envelope::window_count;
use crate::envelope::window_size;
use crate::envelope::window_size_spec;
use crate::envelope::EnvelopeSample;
use crate::envelope::FULL_SCALE;
use crate::fixed::is_sample;
use crate::fixed::SAMPLE_ONE;
use crate::fixed::threshold_of_float;
use crate::fixed::threshold_of_float_spec;
use crate::onset::as_nats;
use crate::onset::beat_positions;
use crate::onset::flux_sequence;
use crate::onset::frame_count;
use crate::onset::frame_count_spec;
use crate::onset::is_whole_run;
use crate::onset::min_beat_distance_spec;
use crate::onset::lemma_silent_buffer_has_no_beats;
use crate::onset::run_of;
use crate::onset::silence_of;
use crate::onset::taken_magnitudes;
use crate::onset::frame_is_silent;
use crate::onset::OnsetDetector;
use crate::onset::SPECTRUM_BINS;
use crate::sample::channel_sum;
use crate::sample::lemma_channel_sum_bound;
use crate::sample::mean_of;
use crate::sample::mixed_down;
use crate::sample::mono_sample;
use crate::sample::SampleFormat;

verus! {

/// The sample rate of a buffer whose source reports none.
pub const DEFAULT_SAMPLE_RATE: u32 = 44100;

/// The sample rate to work with, given what the source reports: the reported
/// rate, or the default where none, or a rate of zero, is reported.
pub open spec fn effective_sample_rate(reported: Option<u32>) -> u32 {
    match reported {
        Some(rate) if rate > 0 => rate,
        _ => DEFAULT_SAMPLE_RATE,
    }
}

/// What an analyzer holds.
pub ghost struct AnalyzerState {
    /// The mono samples, as numerators over 2^31.
    pub samples: Seq<i64>,
    /// Samples per second.
    pub sample_rate: u32,
}

/// A mono sample buffer with its sample rate.
pub struct AudioAnalyzer {
    samples: Vec<i64>,
    sample_rate: u32,
}

impl View for AudioAnalyzer {
    type V = AnalyzerState;

    closed spec fn view(&self) -> AnalyzerState {
        AnalyzerState { samples: self.samples@, sample_rate: self.sample_rate }
    }
}

impl AudioAnalyzer {
    /// What every analyzer satisfies: its sample rate is positive and each of
    /// its samples lies in [-1, 1].
    pub closed spec fn well_formed(&self) -> bool {
        &&& self.sample_rate > 0
        &&& forall|i: int| 0 <= i < self.samples.len() ==> is_sample(#[trigger] self.samples[i] as int)
    }

    /// An empty buffer at the default sample rate.
    pub fn new() -> (analyzer: AudioAnalyzer)
        ensures
            analyzer.well_formed(),
            analyzer@.samples == Seq::<i64>::empty(),
            analyzer@.sample_rate == DEFAULT_SAMPLE_RATE,
    {
        AudioAnalyzer { samples: Vec::new(), sample_rate: DEFAULT_SAMPLE_RATE }
    }

    /// A buffer of given samples. There is none at a sample rate of zero, nor
    /// with a sample outside [-1, 1].
    pub fn from_samples(samples: Vec<i64>, sample_rate: u32) -> (analyzer: Option<AudioAnalyzer>)
        ensures
            analyzer.is_some() <==> sample_rate > 0 && forall|i: int|
                0 <= i < samples.len() ==> is_sample(#[trigger] samples[i] as int),
            analyzer matches Some(a) ==> a.well_formed() && a@.samples == samples@
                && a@.sample_rate == sample_rate,
    {
        if sample_rate == 0 {
            return None;
        }
        let mut i: usize = 0;
        while i < samples.len()
            invariant
                i <= samples.len(),
                forall|j: int| 0 <= j < i ==> is_sample(#[trigger] samples[j] as int),
            decreases samples.len() - i,
        {
            if samples[i] < -SAMPLE_ONE || samples[i] > SAMPLE_ONE {
                return None;
            }
            i = i + 1;
        }
        Some(AudioAnalyzer { samples, sample_rate })
    }

    /// Takes the sample rate that the source reports.
    pub fn set_sample_rate(&mut self, reported: Option<u32>)
        requires
            old(self).well_formed(),
        ensures
            final(self).well_formed(),
            final(self)@.samples == old(self)@.samples,
            final(self)@.sample_rate == effective_sample_rate(reported),
    {
        self.sample_rate = match reported {
            Some(rate) => if rate > 0 {
                rate
            } else {
                DEFAULT_SAMPLE_RATE
            },
            None => DEFAULT_SAMPLE_RATE,
        };
    }

    /// Samples per second.
    pub fn sample_rate(&self) -> (rate: u32)
        requires
            self.well_formed(),
        ensures
            rate == self@.sample_rate,
            rate > 0,
    {
        self.sample_rate
    }

    /// The samples of the buffer.
    pub fn samples(&self) -> (samples: &Vec<i64>)
        requires
            self.well_formed(),
        ensures
            samples@ == self@.samples,
            forall|i: int| 0 <= i < samples.len() ==> is_sample(#[trigger] samples[i] as int),
    {
        &self.samples
    }

    /// Appends one mono sample for each frame of a decoded block: the mean of
    /// the frame's channels, each brought to the library's scale first.
    pub fn append_samples(&mut self, buffer: &symphonia::core::audio::AudioBufferRef)
        requires
            old(self).well_formed(),
        ensures
            final(self).well_formed(),
            final(self)@.sample_rate == old(self)@.sample_rate,
            final(self)@.samples == old(self)@.samples + mixed_down(
                block_format(*buffer),
                block_planes(*buffer),
            ),
    {
        let ghost before = self.samples@;
        let ghost planes = block_planes(*buffer);
        let format = read_format(buffer);
        let channels = read_channels(buffer);
        if format == SampleFormat::Other || channels == 0 {
            assert(self.samples@ =~= before + mixed_down(block_format(*buffer), planes));
            return ;
        }
        let frames = read_frames(buffer);
        let ghost mixed = mixed_down(block_format(*buffer), planes);
        assert(planes[0].len() == frames);
        let mut frame: usize = 0;
        while frame < frames
            invariant
                frame <= frames,
                self.sample_rate > 0,
                self.sample_rate == old(self).sample_rate,
                forall|i: int| 0 <= i < self.samples.len() ==> is_sample(#[trigger] self.samples[i] as int),
                planes == block_planes(*buffer),
                channels == planes.len(),
                channels > 0,
                block_format(*buffer) != SampleFormat::Other,
                forall|channel: int| 0 <= channel < planes.len() ==> (#[trigger] planes[channel]).len() == frames,
                mixed == mixed_down(block_format(*buffer), planes),
                mixed.len() == frames,
                self.samples@ == before + mixed.take(frame as int),
            decreases frames - frame,
        {
            let mut sum: i128 = 0;
            let mut channel: usize = 0;
            while channel < channels
                invariant
                    channel <= channels,
                    frame < frames,
                    planes == block_planes(*buffer),
                    channels == planes.len(),
                    block_format(*buffer) != SampleFormat::Other,
                    forall|c: int| 0 <= c < planes.len() ==> (#[trigger] planes[c]).len() == frames,
                    sum == channel_sum(planes, frame as int, channel as nat),
                decreases channels - channel,
            {
                proof {
                    lemma_channel_sum_bound(planes, frame as int, channel as nat);
                    lemma_channel_sum_bound(planes, frame as int, (channel + 1) as nat);
                    assert(planes[channel as int].len() == frames);
                }
                match read_sample(buffer, channel, frame) {
                    Some(raw) => {
                        sum = sum + raw.normalized() as i128;
                    },
                    None => {},
                }
                channel = channel + 1;
            }
            proof {
                lemma_channel_sum_bound(planes, frame as int, channels as nat);
            }
            let mean = mean_of(sum, channels);
            self.samples.push(mean);
            proof {
                assert(mean == mono_sample(planes, frame as int));
                assert(mixed[frame as int] == mean);
                assert(mixed.take(frame + 1) =~= mixed.take(frame as int).push(mean));
            }
            frame = frame + 1;
        }
        assert(mixed.take(frames as int) =~= mixed);
    }

    /// Extracts the amplitude envelope at a target rate, given in hertz as a
    /// single-precision bit pattern: the RMS level of each window, divided by
    /// the level of the loudest window.
    pub fn extract_amplitude_envelope(&self, target_rate_bits: u32) -> (envelope: Vec<
        EnvelopeSample,
    >)
        requires
            self.well_formed(),
        ensures
            envelope@ == envelope_of(
                self@.samples,
                window_size_spec(self@.sample_rate, target_rate_bits),
            ),
            envelope.len() == window_count(
                self@.samples.len(),
                window_size_spec(self@.sample_rate, target_rate_bits),
            ),
            forall|i: int|
                0 <= i < envelope.len() ==> (#[trigger] envelope[i]).amplitude <= FULL_SCALE,
    {
        let window = window_size(self.sample_rate, target_rate_bits);
        extract_envelope(&self.samples, window)
    }

    /// Detects the beats of the buffer from the spectra of all its frames.
    /// Each spectrum holds the magnitudes of the first `SPECTRUM_BINS` bins of
    /// one frame as single-precision bit patterns; the threshold is a
    /// single-precision bit pattern too. There is no result unless the run
    /// has one spectrum of that length for each frame of the buffer. A frame
    /// of zeros is taken as silent whatever its spectrum says, so that a
    /// buffer of zeros has no beat.
    pub fn detect_beats(&self, spectra: &Vec<Vec<u32>>, threshold_bits: u32) -> (beats: Option<
        Vec<usize>,
    >)
        requires
            self.well_formed(),
        ensures
            beats.is_some() <==> is_whole_run(spectra@, self@.samples.len()),
            beats matches Some(found) ==> {
                &&& as_nats(found@) == beat_positions(
                    flux_sequence(run_of(self@.samples, spectra@)),
                    threshold_of_float_spec(threshold_bits),
                    min_beat_distance_spec(self@.sample_rate),
                )
                &&& (forall|j: int| 0 <= j < self@.samples.len() ==> self@.samples[j] == 0)
                    ==> found.len() == 0
                &&& found.len() > 0 ==> found[0] > min_beat_distance_spec(self@.sample_rate)
                &&& forall|i: int, j: int|
                    0 <= i < j < found.len() ==> found[i] + min_beat_distance_spec(
                        self@.sample_rate,
                    ) < found[j]
            },
    {
        let n = spectra.len();
        if n != frame_count(self.samples.len()) {
            return None;
        }
        let ghost run = run_of(self.samples@, spectra@);
        let mut detector = self.onset_detector();
        let mut i: usize = 0;
        assert(detector@.spectra =~= run.take(0));
        while i < n
            invariant
                i <= n,
                n == spectra.len(),
                n == frame_count_spec(self.samples.len() as nat),
                run == run_of(self.samples@, spectra@),
                detector.well_formed(),
                detector@.silent == silence_of(self.samples@),
                detector@.sample_count == self.samples.len(),
                detector@.sample_rate == self.sample_rate,
                detector@.spectra == run.take(i as int),
                forall|j: int| 0 <= j < i ==> (#[trigger] spectra[j]).len() == SPECTRUM_BINS,
            decreases n - i,
        {
            match detector.push_spectrum(&spectra[i]) {
                Ok(_) => {
                    assert(silence_of(self.samples@)[i as int] == frame_is_silent(
                        self.samples@,
                        i as int,
                    ));
                    assert(run.take(i + 1) =~= run.take(i as int).push(
                        taken_magnitudes(
                            frame_is_silent(self.samples@, i as int),
                            spectra[i as int]@,
                        ),
                    ));
                },
                Err(_) => {
                    assert(spectra@[i as int].len() != SPECTRUM_BINS);
                    return None;
                },
            }
            i = i + 1;
        }
        assert(run.take(n as int) =~= run);
        let found = detector.beats(threshold_of_float(threshold_bits));
        proof {
            if forall|j: int| 0 <= j < self.samples.len() ==> self.samples[j] == 0 {
                lemma_silent_buffer_has_no_beats(
                    self.samples@,
                    spectra@,
                    threshold_of_float_spec(threshold_bits),
                    min_beat_distance_spec(self.sample_rate),
                );
                assert(found.len() == as_nats(found@).len());
            }
        }
        Some(found)
    }

    /// Starts an onset analysis of the buffer, with its frames without sound
    /// marked.
    pub fn onset_detector(&self) -> (detector: OnsetDetector)
        requires
            self.well_formed(),
        ensures
            detector.well_formed(),
            detector@.sample_count == self@.samples.len(),
            detector@.sample_rate == self@.sample_rate,
            detector@.spectra == Seq::<Seq<u64>>::empty(),
            detector@.silent == silence_of(self@.samples),
    {
        OnsetDetector::for_samples(&self.samples, self.sample_rate)
    }
}

} // verus!
