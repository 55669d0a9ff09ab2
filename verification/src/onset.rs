//! Onset detection by spectral flux.
//!
//! The sample buffer is cut into overlapping frames. For each frame the
//! caller supplies the magnitude spectrum; the detector differences it against
//! the spectrum of the frame before, keeps the rise as the frame's flux, and
//! at the end picks the frames whose flux is a local maximum above a threshold
//! and far enough from the beat before.
//!
//! The transform of a frame of zeros is zero in every bin. A detector that
//! knows the samples therefore takes the silent spectrum for every frame
//! without sound, whatever the caller supplies for it.

use vstd::prelude::*;
use crate::fixed::magnitude_of_float;
use crate::fixed::magnitude_of_float_spec;

verus! {

/// Samples in one analysis frame.
pub const WINDOW_SIZE: usize = 2048;

/// Samples between the starts of two consecutive frames.
pub const HOP_SIZE: usize = 512;

/// Magnitudes in the spectrum of one frame: half the frame's length.
pub const SPECTRUM_BINS: usize = 1024;

/// The threshold that stands for 1.0: thresholds are numerators over 2^32.
pub const THRESHOLD_ONE: i64 = 0x1_0000_0000;

/// How many whole frames a buffer of `sample_count` samples holds: frame `i`
/// starts at `i * HOP_SIZE`, and the last one still ends inside the buffer.
pub open spec fn frame_count_spec(sample_count: nat) -> nat {
    if sample_count < WINDOW_SIZE {
        0
    } else {
        ((sample_count - WINDOW_SIZE) / (HOP_SIZE as int) + 1) as nat
    }
}

/// The least distance between two beats, in samples: a tenth of a second,
/// rounded to the nearest sample.
pub open spec fn min_beat_distance_spec(sample_rate: u32) -> nat {
    ((sample_rate + 5) / 10) as nat
}

/// By how much a magnitude rose from one frame to the next; a fall counts as
/// nothing.
pub open spec fn rise(current: u64, previous: u64) -> nat {
    if current > previous {
        (current - previous) as nat
    } else {
        0
    }
}

/// The spectral flux of a frame: the rises of all its bins, added up.
pub open spec fn flux_between(current: Seq<u64>, previous: Seq<u64>) -> nat
    decreases current.len(),
{
    if current.len() == 0 {
        0
    } else {
        flux_between(current.drop_last(), previous.drop_last()) + rise(
            current.last(),
            previous.last(),
        )
    }
}

/// The magnitudes that a spectrum of single-precision bit patterns stands for.
pub open spec fn magnitudes_of(spectrum: Seq<u32>) -> Seq<u64> {
    Seq::new(spectrum.len(), |k: int| magnitude_of_float_spec(spectrum[k]) as u64)
}

/// Whether a run has one spectrum for each frame of a buffer of
/// `sample_count` samples, each with `SPECTRUM_BINS` magnitudes.
pub open spec fn is_whole_run(spectra: Seq<Vec<u32>>, sample_count: nat) -> bool {
    &&& spectra.len() == frame_count_spec(sample_count)
    &&& forall|i: int| 0 <= i < spectra.len() ==> (#[trigger] spectra[i]).len() == SPECTRUM_BINS
}

/// Whether frame `i` of a buffer holds no sound: each of its samples is zero.
pub open spec fn frame_is_silent(samples: Seq<i64>, i: int) -> bool {
    forall|j: int|
        i * HOP_SIZE <= j < i * HOP_SIZE + WINDOW_SIZE && 0 <= j < samples.len()
            ==> #[trigger] samples[j] == 0
}

/// Which frames of a buffer hold no sound, in frame order.
pub open spec fn silence_of(samples: Seq<i64>) -> Seq<bool> {
    Seq::new(frame_count_spec(samples.len()), |i: int| frame_is_silent(samples, i))
}

/// The magnitudes taken for a frame: the silent spectrum for a frame known
/// to hold no sound, and what the supplied spectrum stands for otherwise.
pub open spec fn taken_magnitudes(silent: bool, spectrum: Seq<u32>) -> Seq<u64> {
    if silent {
        silent_spectrum()
    } else {
        magnitudes_of(spectrum)
    }
}

/// The magnitudes taken for every frame of a buffer, given one spectrum per
/// frame.
pub open spec fn run_of(samples: Seq<i64>, spectra: Seq<Vec<u32>>) -> Seq<Seq<u64>> {
    Seq::new(
        spectra.len(),
        |i: int| taken_magnitudes(frame_is_silent(samples, i), spectra[i]@),
    )
}

/// The spectrum before the first frame: all zero.
pub open spec fn silent_spectrum() -> Seq<u64> {
    Seq::new(SPECTRUM_BINS as nat, |k: int| 0u64)
}

/// The flux of every frame of a run, given the spectra in frame order: each
/// frame is differenced against the one before it, the first against silence.
pub open spec fn flux_sequence(spectra: Seq<Seq<u64>>) -> Seq<nat> {
    Seq::new(
        spectra.len(),
        |i: int|
            flux_between(
                spectra[i],
                if i == 0 {
                    silent_spectrum()
                } else {
                    spectra[i - 1]
                },
            ),
    )
}

/// The largest of the first `k` flux values, zero when there is none.
pub open spec fn flux_max_before(flux: Seq<nat>, k: nat) -> nat
    decreases k,
{
    if k == 0 {
        0
    } else {
        let earlier = flux_max_before(flux, (k - 1) as nat);
        if flux[k - 1] > earlier {
            flux[k - 1]
        } else {
            earlier
        }
    }
}

/// The largest flux of a run.
pub open spec fn flux_max(flux: Seq<nat>) -> nat {
    flux_max_before(flux, flux.len())
}

/// Whether a flux, divided by the largest flux of the run, exceeds the
/// threshold. Where the whole run is silent nothing is divided and every
/// normalized flux is zero.
pub open spec fn above_threshold(value: nat, largest: nat, threshold: int) -> bool {
    if largest > 0 {
        value * THRESHOLD_ONE > threshold * largest
    } else {
        0 > threshold
    }
}

/// Whether frame `i` is a peak: neither the first nor the last frame, above
/// the threshold after normalization, and larger than both its neighbours.
/// Dividing by the largest flux keeps the order of the values, so the
/// neighbours are compared as they are.
pub open spec fn is_peak(flux: Seq<nat>, i: int, threshold: int) -> bool {
    &&& 0 < i < flux.len() - 1
    &&& above_threshold(flux[i], flux_max(flux), threshold)
    &&& flux[i] > flux[i - 1]
    &&& flux[i] > flux[i + 1]
}

/// The sample index of the last beat of a list, zero for an empty list.
pub open spec fn last_beat(beats: Seq<nat>) -> nat {
    if beats.len() == 0 {
        0
    } else {
        beats.last()
    }
}

/// The beats among the first `k` frames, as sample indices in rising order. A
/// peak becomes a beat when it lies more than `min_distance` samples after
/// the beat before it, or after the start of the buffer if there is none.
pub open spec fn beats_before(flux: Seq<nat>, threshold: int, min_distance: nat, k: nat) -> Seq<
    nat,
>
    decreases k,
{
    if k == 0 {
        Seq::empty()
    } else {
        let earlier = beats_before(flux, threshold, min_distance, (k - 1) as nat);
        let start = (k - 1) * HOP_SIZE;
        if is_peak(flux, k - 1, threshold) && start - last_beat(earlier) > min_distance {
            earlier.push(start as nat)
        } else {
            earlier
        }
    }
}

/// The beats of a whole run.
pub open spec fn beat_positions(flux: Seq<nat>, threshold: int, min_distance: nat) -> Seq<nat> {
    beats_before(flux, threshold, min_distance, flux.len())
}

/// A list of sample indices as mathematical numbers.
pub open spec fn as_nats(indices: Seq<usize>) -> Seq<nat> {
    Seq::new(indices.len(), |i: int| indices[i] as nat)
}

/// Frame `i` lies inside a buffer exactly when its index is below the frame
/// count.
pub proof fn lemma_frame_fits(sample_count: nat, i: nat)
    ensures
        i < frame_count_spec(sample_count) <==> i * HOP_SIZE + WINDOW_SIZE <= sample_count,
{
    if sample_count >= WINDOW_SIZE {
        let room = (sample_count - WINDOW_SIZE) as int;
        assert(room == 512 * (room / 512) + room % 512 && 0 <= room % 512 < 512) by {
            vstd::arithmetic::div_mod::lemma_fundamental_div_mod(room, 512);
        }
    }
}

/// A flux is at most the number of bins times the largest magnitude.
pub proof fn lemma_flux_bound(current: Seq<u64>, previous: Seq<u64>)
    ensures
        flux_between(current, previous) <= current.len() * u64::MAX,
    decreases current.len(),
{
    if current.len() > 0 {
        lemma_flux_bound(current.drop_last(), previous.drop_last());
        assert(current.len() * u64::MAX == (current.len() - 1) * u64::MAX + u64::MAX)
            by (nonlinear_arith);
    }
}

/// A spectrum of zeros has no flux, whatever came before it.
pub proof fn lemma_silent_frame_has_no_flux(current: Seq<u64>, previous: Seq<u64>)
    requires
        forall|k: int| 0 <= k < current.len() ==> current[k] == 0,
    ensures
        flux_between(current, previous) == 0,
    decreases current.len(),
{
    if current.len() > 0 {
        lemma_silent_frame_has_no_flux(current.drop_last(), previous.drop_last());
    }
}

/// The largest flux is no smaller than any flux of the run, and is zero or
/// one of them.
pub proof fn lemma_flux_max(flux: Seq<nat>, k: nat)
    requires
        k <= flux.len(),
    ensures
        forall|i: int| 0 <= i < k ==> flux[i] <= flux_max_before(flux, k),
        flux_max_before(flux, k) == 0 || exists|i: int|
            0 <= i < k && flux[i] == flux_max_before(flux, k),
    decreases k,
{
    if k > 0 {
        lemma_flux_max(flux, (k - 1) as nat);
        let earlier = flux_max_before(flux, (k - 1) as nat);
        if flux[k - 1] > earlier {
            assert(flux[k - 1] == flux_max_before(flux, k));
        } else if earlier != 0 {
            let i = choose|i: int| 0 <= i < k - 1 && flux[i] == earlier;
            assert(0 <= i < k && flux[i] == flux_max_before(flux, k));
        }
    }
}

/// How far beat `j` of a list lies after the beat before it, the first
/// after the start of the buffer.
pub open spec fn gap_before(beats: Seq<nat>, j: int) -> int {
    if j == 0 {
        beats[j] as int
    } else {
        beats[j] - beats[j - 1]
    }
}

/// Whether a sample index is the start of a peak frame.
pub open spec fn is_peak_start(flux: Seq<nat>, threshold: int, position: nat) -> bool {
    exists|i: int| position == i * HOP_SIZE && is_peak(flux, i, threshold)
}

/// Any two consecutive beats among the first `k` frames lie more than
/// `min_distance` samples apart, and the first lies more than `min_distance`
/// samples into the buffer.
pub proof fn lemma_beats_are_spaced(flux: Seq<nat>, threshold: int, min_distance: nat, k: nat)
    ensures
        forall|j: int|
            0 <= j < beats_before(flux, threshold, min_distance, k).len() ==> #[trigger] gap_before(
                beats_before(flux, threshold, min_distance, k),
                j,
            ) > min_distance,
    decreases k,
{
    if k > 0 {
        let earlier = beats_before(flux, threshold, min_distance, (k - 1) as nat);
        let beats = beats_before(flux, threshold, min_distance, k);
        lemma_beats_are_spaced(flux, threshold, min_distance, (k - 1) as nat);
        assert forall|j: int| 0 <= j < beats.len() implies #[trigger] gap_before(beats, j)
            > min_distance by {
            if j < earlier.len() {
                assert(gap_before(beats, j) == gap_before(earlier, j));
            }
        }
    }
}

/// Every beat among the first `k` frames is the start of a peak frame.
pub proof fn lemma_beats_are_peaks(flux: Seq<nat>, threshold: int, min_distance: nat, k: nat)
    ensures
        forall|j: int|
            0 <= j < beats_before(flux, threshold, min_distance, k).len() ==> is_peak_start(
                flux,
                threshold,
                #[trigger] beats_before(flux, threshold, min_distance, k)[j],
            ),
    decreases k,
{
    if k > 0 {
        let earlier = beats_before(flux, threshold, min_distance, (k - 1) as nat);
        let beats = beats_before(flux, threshold, min_distance, k);
        lemma_beats_are_peaks(flux, threshold, min_distance, (k - 1) as nat);
        assert forall|j: int| 0 <= j < beats.len() implies is_peak_start(
            flux,
            threshold,
            #[trigger] beats[j],
        ) by {
            if j < earlier.len() {
                assert(beats[j] == earlier[j]);
            } else {
                assert(beats[j] == (k - 1) * HOP_SIZE && is_peak(flux, k - 1, threshold));
            }
        }
    }
}

/// The beats of a run rise strictly, and any two of them lie more than the
/// least distance apart.
pub proof fn lemma_beats_rise(flux: Seq<nat>, threshold: int, min_distance: nat, i: int, j: int)
    requires
        0 <= i < j < beat_positions(flux, threshold, min_distance).len(),
    ensures
        beat_positions(flux, threshold, min_distance)[i] + min_distance < beat_positions(
            flux,
            threshold,
            min_distance,
        )[j],
    decreases j - i,
{
    let beats = beat_positions(flux, threshold, min_distance);
    lemma_beats_are_spaced(flux, threshold, min_distance, flux.len());
    assert(gap_before(beats, j) > min_distance);
    if j - 1 > i {
        lemma_beats_rise(flux, threshold, min_distance, i, j - 1);
    }
}

/// The beats of a run are determined by its spectra, the threshold and the
/// sample rate: two lists that both hold them are the same list.
pub proof fn lemma_beats_are_determined(
    spectra: Seq<Seq<u64>>,
    threshold: int,
    sample_rate: u32,
    first: Seq<usize>,
    second: Seq<usize>,
)
    requires
        as_nats(first) == beat_positions(
            flux_sequence(spectra),
            threshold,
            min_beat_distance_spec(sample_rate),
        ),
        as_nats(second) == beat_positions(
            flux_sequence(spectra),
            threshold,
            min_beat_distance_spec(sample_rate),
        ),
    ensures
        first == second,
{
    assert(first.len() == as_nats(first).len());
    assert(second.len() == as_nats(second).len());
    assert forall|i: int| 0 <= i < first.len() implies first[i] == second[i] by {
        assert(as_nats(first)[i] == first[i] as nat);
        assert(as_nats(second)[i] == second[i] as nat);
    }
    assert(first =~= second);
}

/// A run without any flux has no beat, whatever the threshold: no frame rises
/// above its neighbours.
pub proof fn lemma_silence_has_no_beats(
    flux: Seq<nat>,
    threshold: int,
    min_distance: nat,
    k: nat,
)
    requires
        forall|i: int| 0 <= i < flux.len() ==> flux[i] == 0,
    ensures
        beats_before(flux, threshold, min_distance, k).len() == 0,
    decreases k,
{
    if k > 0 {
        lemma_silence_has_no_beats(flux, threshold, min_distance, (k - 1) as nat);
    }
}

/// A run of silent spectra has no flux in any frame.
pub proof fn lemma_silent_run_has_no_flux(spectra: Seq<Seq<u64>>)
    requires
        forall|i: int, k: int|
            0 <= i < spectra.len() && 0 <= k < spectra[i].len() ==> #[trigger] spectra[i][k] == 0,
    ensures
        forall|i: int| 0 <= i < spectra.len() ==> #[trigger] flux_sequence(spectra)[i] == 0,
{
    assert forall|i: int| 0 <= i < spectra.len() implies #[trigger] flux_sequence(spectra)[i]
        == 0 by {
        let previous = if i == 0 {
            silent_spectrum()
        } else {
            spectra[i - 1]
        };
        assert forall|k: int| 0 <= k < spectra[i].len() implies spectra[i][k] == 0 by {
            assert(spectra[i][k] == 0);
        }
        lemma_silent_frame_has_no_flux(spectra[i], previous);
    }
}

/// A run of silent spectra has no beat, whatever the threshold.
pub proof fn lemma_silent_run_has_no_beats(
    spectra: Seq<Seq<u64>>,
    threshold: int,
    min_distance: nat,
)
    requires
        forall|i: int, k: int|
            0 <= i < spectra.len() && 0 <= k < spectra[i].len() ==> #[trigger] spectra[i][k] == 0,
    ensures
        beat_positions(flux_sequence(spectra), threshold, min_distance).len() == 0,
{
    lemma_silent_run_has_no_flux(spectra);
    lemma_silence_has_no_beats(flux_sequence(spectra), threshold, min_distance, spectra.len());
}

/// A buffer of zeros has no beat, whatever spectra are supplied for its
/// frames and whatever the threshold: each of its frames is taken as silent.
pub proof fn lemma_silent_buffer_has_no_beats(
    samples: Seq<i64>,
    spectra: Seq<Vec<u32>>,
    threshold: int,
    min_distance: nat,
)
    requires
        forall|j: int| 0 <= j < samples.len() ==> samples[j] == 0,
    ensures
        beat_positions(flux_sequence(run_of(samples, spectra)), threshold, min_distance).len()
            == 0,
{
    let run = run_of(samples, spectra);
    assert forall|i: int, k: int| 0 <= i < run.len() && 0 <= k < run[i].len() implies #[trigger] run[i][k]
        == 0 by {
        assert(frame_is_silent(samples, i));
    }
    lemma_silent_run_has_no_beats(run, threshold, min_distance);
}

/// Counts the whole frames of a buffer.
pub fn frame_count(sample_count: usize) -> (n: usize)
    ensures
        n == frame_count_spec(sample_count as nat),
{
    if sample_count < WINDOW_SIZE {
        0
    } else {
        (sample_count - WINDOW_SIZE) / HOP_SIZE + 1
    }
}

/// Computes the least distance between two beats for a sample rate.
pub fn min_beat_distance(sample_rate: u32) -> (d: usize)
    ensures
        d == min_beat_distance_spec(sample_rate),
{
    ((sample_rate as u64 + 5) / 10) as usize
}

/// Adds up the rises of a spectrum over the one before it.
pub fn spectral_flux(current: &Vec<u64>, previous: &Vec<u64>) -> (flux: u128)
    requires
        current.len() == previous.len(),
    ensures
        flux == flux_between(current@, previous@),
{
    let n = current.len();
    let mut flux: u128 = 0;
    let mut k: usize = 0;
    while k < n
        invariant
            k <= n,
            n == current.len(),
            n == previous.len(),
            flux == flux_between(current@.take(k as int), previous@.take(k as int)),
            flux <= k * u64::MAX,
        decreases n - k,
    {
        proof {
            assert(current@.take(k + 1).drop_last() =~= current@.take(k as int));
            assert(previous@.take(k + 1).drop_last() =~= previous@.take(k as int));
            assert((k + 1) * u64::MAX == k * u64::MAX + u64::MAX) by (nonlinear_arith);
            assert(k * u64::MAX + u64::MAX <= u128::MAX) by (nonlinear_arith)
                requires
                    k < u64::MAX,
            ;
        }
        if current[k] > previous[k] {
            flux = flux + (current[k] - previous[k]) as u128;
        }
        k = k + 1;
    }
    proof {
        assert(current@.take(n as int) =~= current@);
        assert(previous@.take(n as int) =~= previous@);
    }
    flux
}

/// Makes the silent spectrum.
fn zero_spectrum() -> (spectrum: Vec<u64>)
    ensures
        spectrum@ == silent_spectrum(),
{
    let mut spectrum: Vec<u64> = Vec::new();
    let mut k: usize = 0;
    while k < SPECTRUM_BINS
        invariant
            k <= SPECTRUM_BINS,
            spectrum.len() == k,
            forall|j: int| 0 <= j < k ==> spectrum[j] == 0,
        decreases SPECTRUM_BINS - k,
    {
        spectrum.push(0);
        k = k + 1;
    }
    assert(spectrum@ =~= silent_spectrum());
    spectrum
}

/// Reads the magnitudes of a spectrum of bit patterns.
fn magnitudes(spectrum: &Vec<u32>) -> (read: Vec<u64>)
    ensures
        read@ == magnitudes_of(spectrum@),
{
    let n = spectrum.len();
    let mut read: Vec<u64> = Vec::new();
    let mut k: usize = 0;
    while k < n
        invariant
            k <= n,
            n == spectrum.len(),
            read.len() == k,
            forall|j: int| 0 <= j < k ==> read[j] == magnitude_of_float_spec(spectrum[j]),
        decreases n - k,
    {
        read.push(magnitude_of_float(spectrum[k]));
        k = k + 1;
    }
    assert(read@ =~= magnitudes_of(spectrum@));
    read
}

/// Tells whether the frame that starts at `start` holds no sound.
fn frame_has_no_sound(samples: &Vec<i64>, start: usize) -> (silent: bool)
    requires
        start + WINDOW_SIZE <= samples.len(),
    ensures
        silent == forall|j: int| start <= j < start + WINDOW_SIZE ==> #[trigger] samples[j] == 0,
{
    let mut j: usize = start;
    while j < start + WINDOW_SIZE
        invariant
            start <= j <= start + WINDOW_SIZE <= samples.len(),
            forall|k: int| start <= k < j ==> #[trigger] samples[k] == 0,
        decreases start + WINDOW_SIZE - j,
    {
        if samples[j] != 0 {
            return false;
        }
        j = j + 1;
    }
    true
}

/// Marks the frames of a buffer that hold no sound.
pub fn silent_frames(samples: &Vec<i64>) -> (silent: Vec<bool>)
    ensures
        silent@ == silence_of(samples@),
{
    let frames = frame_count(samples.len());
    let mut silent: Vec<bool> = Vec::new();
    let mut i: usize = 0;
    while i < frames
        invariant
            i <= frames,
            frames == frame_count_spec(samples.len() as nat),
            silent.len() == i,
            forall|k: int| 0 <= k < i ==> #[trigger] silent[k] == frame_is_silent(samples@, k),
        decreases frames - i,
    {
        proof {
            lemma_frame_fits(samples.len() as nat, i as nat);
        }
        let quiet = frame_has_no_sound(samples, i * HOP_SIZE);
        assert(quiet == frame_is_silent(samples@, i as int));
        silent.push(quiet);
        i = i + 1;
    }
    assert(silent@ =~= silence_of(samples@));
    silent
}

/// Why a spectrum was not taken.
#[derive(Clone, Copy, Debug, PartialEq, Eq, Structural)]
pub enum SpectrumError {
    /// Every frame of the buffer already has its spectrum.
    Complete,
    /// The spectrum does not have `SPECTRUM_BINS` magnitudes.
    WrongLength,
}

/// What a detector has seen so far.
pub ghost struct OnsetState {
    /// Length of the buffer under analysis.
    pub sample_count: nat,
    /// Sample rate of the buffer, in hertz.
    pub sample_rate: u32,
    /// The magnitudes of each frame taken, in frame order.
    pub spectra: Seq<Seq<u64>>,
    /// The frames known to hold no sound: `true` at the index of each. Frames
    /// past the end of the list are not known to be silent.
    pub silent: Seq<bool>,
}

impl OnsetState {
    /// Whether every frame taken so far is known to hold no sound.
    pub open spec fn all_silent(self) -> bool {
        forall|k: int|
            0 <= k < self.spectra.len() ==> k < self.silent.len() && #[trigger] self.silent[k]
    }

    /// Whether the next frame to be taken is known to hold no sound.
    pub open spec fn next_is_silent(self) -> bool {
        self.spectra.len() < self.silent.len() && self.silent[self.spectra.len() as int]
    }
}

/// The running state of one onset analysis.
pub struct OnsetDetector {
    sample_count: usize,
    sample_rate: u32,
    previous: Vec<u64>,
    flux: Vec<u128>,
    silent: Vec<bool>,
    spectra: Ghost<Seq<Seq<u64>>>,
}

impl View for OnsetDetector {
    type V = OnsetState;

    closed spec fn view(&self) -> OnsetState {
        OnsetState {
            sample_count: self.sample_count as nat,
            sample_rate: self.sample_rate,
            spectra: self.spectra@,
            silent: self.silent@,
        }
    }
}

impl OnsetDetector {
    /// What every detector made by `new` and fed by `push_spectrum` satisfies:
    /// it has taken no more frames than the buffer holds, it keeps the
    /// magnitudes of the last frame, and the flux of every frame taken.
    pub closed spec fn well_formed(&self) -> bool {
        &&& self.spectra@.len() <= frame_count_spec(self.sample_count as nat)
        &&& self.previous@ == if self.spectra@.len() == 0 {
            silent_spectrum()
        } else {
            self.spectra@.last()
        }
        &&& self.flux.len() == self.spectra@.len()
        &&& forall|i: int|
            0 <= i < self.flux.len() ==> #[trigger] self.flux[i] == flux_sequence(self.spectra@)[i]
        &&& forall|i: int|
            0 <= i < self.spectra@.len() ==> (#[trigger] self.spectra@[i]).len() == SPECTRUM_BINS
        &&& forall|i: int|
            0 <= i < self.spectra@.len() && i < self.silent.len() && self.silent[i]
                ==> #[trigger] self.spectra@[i] == silent_spectrum()
    }

    /// Starts the analysis of a buffer of `sample_count` samples of which no
    /// more is known.
    pub fn new(sample_count: usize, sample_rate: u32) -> (detector: OnsetDetector)
        ensures
            detector.well_formed(),
            detector@.sample_count == sample_count,
            detector@.sample_rate == sample_rate,
            detector@.spectra == Seq::<Seq<u64>>::empty(),
            detector@.silent == Seq::<bool>::empty(),
    {
        OnsetDetector {
            sample_count,
            sample_rate,
            previous: zero_spectrum(),
            flux: Vec::new(),
            silent: Vec::new(),
            spectra: Ghost(Seq::empty()),
        }
    }

    /// Starts the analysis of a buffer of given samples, and marks its frames
    /// without sound.
    pub fn for_samples(samples: &Vec<i64>, sample_rate: u32) -> (detector: OnsetDetector)
        ensures
            detector.well_formed(),
            detector@.sample_count == samples.len(),
            detector@.sample_rate == sample_rate,
            detector@.spectra == Seq::<Seq<u64>>::empty(),
            detector@.silent == silence_of(samples@),
    {
        OnsetDetector {
            sample_count: samples.len(),
            sample_rate,
            previous: zero_spectrum(),
            flux: Vec::new(),
            silent: silent_frames(samples),
            spectra: Ghost(Seq::empty()),
        }
    }

    /// The sample at which the next frame starts, or `None` once every frame
    /// of the buffer has its spectrum.
    pub fn next_frame(&self) -> (start: Option<usize>)
        requires
            self.well_formed(),
        ensures
            self@.spectra.len() <= frame_count_spec(self@.sample_count),
            start.is_some() <==> self@.spectra.len() < frame_count_spec(self@.sample_count),
            start matches Some(index) ==> index == self@.spectra.len() * HOP_SIZE && index
                + WINDOW_SIZE <= self@.sample_count,
    {
        proof {
            lemma_frame_fits(self.sample_count as nat, self.flux.len() as nat);
        }
        if self.flux.len() < frame_count(self.sample_count) {
            Some(self.flux.len() * HOP_SIZE)
        } else {
            None
        }
    }

    /// Whether the next frame is known to hold no sound, so that its spectrum
    /// need not be computed: whatever is supplied for it, the silent spectrum
    /// is taken.
    pub fn next_is_silent(&self) -> (silent: bool)
        requires
            self.well_formed(),
        ensures
            silent == self@.next_is_silent(),
    {
        let index = self.flux.len();
        index < self.silent.len() && self.silent[index]
    }

    /// How many frames have their spectrum.
    pub fn frames_taken(&self) -> (n: usize)
        requires
            self.well_formed(),
        ensures
            n == self@.spectra.len(),
    {
        self.flux.len()
    }

    /// The flux of each frame taken so far.
    pub fn flux_values(&self) -> (flux: &Vec<u128>)
        requires
            self.well_formed(),
        ensures
            flux@.len() == self@.spectra.len(),
            forall|i: int| 0 <= i < flux@.len() ==> #[trigger] flux@[i] == flux_sequence(self@.spectra)[i],
    {
        &self.flux
    }

    /// Takes the spectrum of the next frame, as single-precision bit patterns
    /// of the magnitudes of the first `SPECTRUM_BINS` bins. For a frame known
    /// to hold no sound the silent spectrum is taken in its place.
    pub fn push_spectrum(&mut self, spectrum: &Vec<u32>) -> (taken: Result<(), SpectrumError>)
        requires
            old(self).well_formed(),
        ensures
            final(self).well_formed(),
            match taken {
                Ok(_) => {
                    &&& old(self)@.spectra.len() < frame_count_spec(old(self)@.sample_count)
                    &&& spectrum.len() == SPECTRUM_BINS
                    &&& final(self)@ == (OnsetState {
                        spectra: old(self)@.spectra.push(
                            taken_magnitudes(old(self)@.next_is_silent(), spectrum@),
                        ),
                        ..old(self)@
                    })
                },
                Err(SpectrumError::Complete) => {
                    &&& old(self)@.spectra.len() >= frame_count_spec(old(self)@.sample_count)
                    &&& final(self)@ == old(self)@
                },
                Err(SpectrumError::WrongLength) => {
                    &&& old(self)@.spectra.len() < frame_count_spec(old(self)@.sample_count)
                    &&& spectrum.len() != SPECTRUM_BINS
                    &&& final(self)@ == old(self)@
                },
            },
    {
        if self.flux.len() >= frame_count(self.sample_count) {
            return Err(SpectrumError::Complete);
        }
        if spectrum.len() != SPECTRUM_BINS {
            return Err(SpectrumError::WrongLength);
        }
        let index = self.flux.len();
        let current = if index < self.silent.len() && self.silent[index] {
            zero_spectrum()
        } else {
            magnitudes(spectrum)
        };
        assert(current@ == taken_magnitudes(self@.next_is_silent(), spectrum@));
        let ghost before = self.spectra@;
        let ghost after = before.push(current@);
        proof {
            assert(self.previous.len() == SPECTRUM_BINS) by {
                if before.len() > 0 {
                    assert(before[before.len() - 1].len() == SPECTRUM_BINS);
                }
            }
        }
        let flux = spectral_flux(&current, &self.previous);
        self.flux.push(flux);
        self.previous = current;
        self.spectra = Ghost(after);
        proof {
            assert(after.last() == current@);
            assert forall|i: int| 0 <= i < self.flux.len() implies #[trigger] self.flux[i]
                == flux_sequence(after)[i] by {
                if i < before.len() {
                    assert(after[i] == before[i]);
                    if i > 0 {
                        assert(after[i - 1] == before[i - 1]);
                    }
                    assert(flux_sequence(after)[i] == flux_sequence(before)[i]);
                }
            }
            assert forall|i: int| 0 <= i < after.len() implies (#[trigger] after[i]).len()
                == SPECTRUM_BINS by {
                if i < before.len() {
                    assert(after[i] == before[i]);
                }
            }
            assert forall|i: int|
                0 <= i < after.len() && i < self.silent.len() && self.silent[i] implies #[trigger] after[i]
                == silent_spectrum() by {
                if i < before.len() {
                    assert(after[i] == before[i]);
                }
            }
        }
        Ok(())
    }

    /// Picks the beats among the frames taken so far. The threshold is a
    /// numerator over 2^32, against flux normalized by the largest flux of the
    /// run. The result holds the sample index at which each beat's frame
    /// starts.
    pub fn beats(&self, threshold: i64) -> (beats: Vec<usize>)
        requires
            self.well_formed(),
        ensures
            as_nats(beats@) == beat_positions(
                flux_sequence(self@.spectra),
                threshold as int,
                min_beat_distance_spec(self@.sample_rate),
            ),
            beats.len() > 0 ==> beats[0] > min_beat_distance_spec(self@.sample_rate),
            forall|i: int, j: int|
                0 <= i < j < beats.len() ==> beats[i] + min_beat_distance_spec(
                    self@.sample_rate,
                ) < beats[j],
            self@.all_silent() ==> beats.len() == 0,
    {
        let n = self.flux.len();
        let min_distance = min_beat_distance(self.sample_rate);
        let ghost flux = flux_sequence(self.spectra@);
        proof {
            assert forall|j: int| 0 <= j < n implies #[trigger] flux[j] <= SPECTRUM_BINS
                * u64::MAX by {
                let previous = if j == 0 {
                    silent_spectrum()
                } else {
                    self.spectra@[j - 1]
                };
                assert(self.spectra@[j].len() == SPECTRUM_BINS);
                lemma_flux_bound(self.spectra@[j], previous);
            }
        }
        let mut largest: u128 = 0;
        let mut k: usize = 0;
        while k < n
            invariant
                k <= n,
                n == self.flux.len(),
                n == flux.len(),
                forall|j: int| 0 <= j < n ==> #[trigger] self.flux[j] == flux[j],
                largest == flux_max_before(flux, k as nat),
            decreases n - k,
        {
            if self.flux[k] > largest {
                largest = self.flux[k];
            }
            k = k + 1;
        }
        let ghost spec_beats = |m: nat| beats_before(flux, threshold as int, min_distance as nat, m);
        let mut beats: Vec<usize> = Vec::new();
        let mut last: usize = 0;
        let mut i: usize = 0;
        assert(as_nats(beats@) =~= spec_beats(0));
        while i < n
            invariant
                i <= n,
                n == self.flux.len(),
                n == flux.len(),
                n <= frame_count_spec(self.sample_count as nat),
                forall|j: int| 0 <= j < n ==> #[trigger] self.flux[j] == flux[j],
                forall|j: int| 0 <= j < n ==> #[trigger] flux[j] <= SPECTRUM_BINS * u64::MAX,
                largest == flux_max(flux),
                min_distance == min_beat_distance_spec(self.sample_rate),
                spec_beats == |m: nat|
                    beats_before(flux, threshold as int, min_distance as nat, m),
                as_nats(beats@) == spec_beats(i as nat),
                last == last_beat(spec_beats(i as nat)),
                last <= i * HOP_SIZE,
            decreases n - i,
        {
            proof {
                lemma_frame_fits(self.sample_count as nat, i as nat);
                lemma_flux_max(flux, n as nat);
            }
            let start: usize = i * HOP_SIZE;
            let peak = 0 < i && i + 1 < n && self.flux[i] > self.flux[i - 1] && self.flux[i]
                > self.flux[i + 1] && exceeds(self.flux[i], largest, threshold);
            assert(peak == is_peak(flux, i as int, threshold as int));
            if peak && start - last > min_distance {
                beats.push(start);
                last = start;
                assert(as_nats(beats@) =~= spec_beats(i as nat).push(start as nat));
            }
            assert(as_nats(beats@) == spec_beats((i + 1) as nat));
            i = i + 1;
        }
        proof {
            let positions = beat_positions(flux, threshold as int, min_distance as nat);
            lemma_beats_are_spaced(flux, threshold as int, min_distance as nat, flux.len());
            if beats.len() > 0 {
                assert(gap_before(positions, 0) > min_distance);
                assert(positions[0] == beats[0]);
            }
            assert forall|i: int, j: int| 0 <= i < j < beats.len() implies beats[i]
                + min_distance < beats[j] by {
                lemma_beats_rise(flux, threshold as int, min_distance as nat, i, j);
                assert(positions[i] == beats[i] && positions[j] == beats[j]);
            }
            if self@.all_silent() {
                let state = self@;
                assert forall|i: int, k: int|
                    0 <= i < self.spectra@.len() && 0 <= k < self.spectra@[i].len() implies #[trigger] self.spectra@[i][k]
                    == 0 by {
                    assert(state.silent[i]);
                    assert(self.silent@[i]);
                    assert(self.spectra@[i] == silent_spectrum());
                }
                lemma_silent_run_has_no_beats(
                    self.spectra@,
                    threshold as int,
                    min_distance as nat,
                );
                assert(beats.len() == as_nats(beats@).len());
            }
        }
        beats
    }
}

/// Tests a flux against the threshold without dividing.
fn exceeds(value: u128, largest: u128, threshold: i64) -> (above: bool)
    requires
        value <= largest <= SPECTRUM_BINS * u64::MAX,
    ensures
        above == above_threshold(value as nat, largest as nat, threshold as int),
{
    if largest == 0 {
        threshold < 0
    } else if threshold < 0 {
        assert(value * THRESHOLD_ONE > threshold * largest) by (nonlinear_arith)
            requires
                value >= 0,
                largest > 0,
                threshold < 0,
        ;
        true
    } else if threshold >= THRESHOLD_ONE {
        assert(value * THRESHOLD_ONE <= threshold * largest) by (nonlinear_arith)
            requires
                0 <= value <= largest,
                threshold >= THRESHOLD_ONE,
                THRESHOLD_ONE > 0,
        ;
        false
    } else {
        assert(value * 0x1_0000_0000 <= 1024 * 0xffff_ffff_ffff_ffff * 0x1_0000_0000)
            by (nonlinear_arith)
            requires
                value <= 1024 * 0xffff_ffff_ffff_ffff,
        ;
        assert(threshold * largest <= 0x1_0000_0000 * (1024 * 0xffff_ffff_ffff_ffff))
            by (nonlinear_arith)
            requires
                0 <= threshold <= 0x1_0000_0000,
                0 <= largest <= 1024 * 0xffff_ffff_ffff_ffff,
        ;
        value * 0x1_0000_0000 > (threshold as u128) * largest
    }
}

} // verus!
