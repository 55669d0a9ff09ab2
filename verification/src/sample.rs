//! Decoded samples and their reduction to one mono sample per frame.
//!
//! A sample of the library is a numerator over 2^31 between -2^31 and 2^31,
//! so that every integer format of a decoder is held without loss, and so is
//! every single-precision sample in [-1, 1] that is a multiple of 2^-31.

use vstd::prelude::*;
use crate::fixed::is_sample;
use crate::fixed::sample_of_float;
use crate::fixed::sample_of_float_spec;

verus! {

/// The formats in which a decoder hands out samples.
#[derive(Clone, Copy, Debug, PartialEq, Eq, Structural)]
pub enum SampleFormat {
    /// Unsigned 8-bit integers, silence at 128.
    U8,
    /// Signed 16-bit integers.
    S16,
    /// Signed 32-bit integers.
    S32,
    /// Single-precision numbers in [-1, 1].
    F32,
    /// Any format that the analysis does not read.
    Other,
}

/// One sample of one channel, as the decoder stored it.
#[derive(Clone, Copy, Debug, PartialEq, Eq, Structural)]
pub enum RawSample {
    /// An unsigned 8-bit sample.
    U8(u8),
    /// A signed 16-bit sample.
    S16(i16),
    /// A signed 32-bit sample.
    S32(i32),
    /// The bit pattern of a single-precision sample.
    F32(u32),
}

impl RawSample {
    /// The sample as a numerator over 2^31: `(raw - 128) / 128` for unsigned
    /// 8-bit, `raw / 32768` for signed 16-bit, `raw / 2147483648` for signed
    /// 32-bit, and the number itself, held to [-1, 1], for single precision.
    pub open spec fn normalized_spec(self) -> int {
        match self {
            RawSample::U8(raw) => (raw - 128) * 0x100_0000,
            RawSample::S16(raw) => raw * 0x1_0000,
            RawSample::S32(raw) => raw as int,
            RawSample::F32(bits) => sample_of_float_spec(bits),
        }
    }

    /// Brings the sample to the library's scale.
    pub fn normalized(self) -> (s: i64)
        ensures
            s == self.normalized_spec(),
            is_sample(s as int),
    {
        match self {
            RawSample::U8(raw) => (raw as i64 - 128) * 0x100_0000,
            RawSample::S16(raw) => (raw as i64) * 0x1_0000,
            RawSample::S32(raw) => raw as i64,
            RawSample::F32(bits) => sample_of_float(bits),
        }
    }

    /// The format that the sample is stored in.
    pub open spec fn format(self) -> SampleFormat {
        match self {
            RawSample::U8(_) => SampleFormat::U8,
            RawSample::S16(_) => SampleFormat::S16,
            RawSample::S32(_) => SampleFormat::S32,
            RawSample::F32(_) => SampleFormat::F32,
        }
    }
}

/// The normalized samples of the first `channels` channels of one frame,
/// added up. `planes` holds one sequence of samples per channel.
pub open spec fn channel_sum(planes: Seq<Seq<RawSample>>, frame: int, channels: nat) -> int
    decreases channels,
{
    if channels == 0 {
        0
    } else {
        channel_sum(planes, frame, (channels - 1) as nat) + planes[channels
            - 1][frame].normalized_spec()
    }
}

/// `n / d`, rounded toward zero.
pub open spec fn truncated_div(n: int, d: int) -> int {
    if n >= 0 {
        n / d
    } else {
        -((-n) / d)
    }
}

/// The mono sample of one frame: the mean of its channels, rounded toward
/// zero.
pub open spec fn mono_sample(planes: Seq<Seq<RawSample>>, frame: int) -> int {
    truncated_div(channel_sum(planes, frame, planes.len()), planes.len() as int)
}

/// The mono samples that a decoded block adds to a buffer: one per frame. A
/// block in a format that is not read adds nothing, nor does one without
/// channels.
pub open spec fn mixed_down(format: SampleFormat, planes: Seq<Seq<RawSample>>) -> Seq<i64> {
    if format == SampleFormat::Other || planes.len() == 0 {
        Seq::empty()
    } else {
        Seq::new(planes[0].len(), |frame: int| mono_sample(planes, frame) as i64)
    }
}

/// Each integer format is scaled as its formula says: the numerator over 2^31
/// equals the raw value over the format's own full scale.
pub proof fn lemma_normalized_ratio(sample: RawSample)
    ensures
        sample matches RawSample::U8(raw) ==> sample.normalized_spec() * 128 == (raw - 128)
            * 0x8000_0000,
        sample matches RawSample::S16(raw) ==> sample.normalized_spec() * 32768 == raw
            * 0x8000_0000,
        sample matches RawSample::S32(raw) ==> sample.normalized_spec() == raw,
        is_sample(sample.normalized_spec()),
{
}

/// A sum of channels is bounded by their number.
pub proof fn lemma_channel_sum_bound(planes: Seq<Seq<RawSample>>, frame: int, channels: nat)
    ensures
        -0x8000_0000 * channels <= channel_sum(planes, frame, channels) <= 0x8000_0000 * channels,
    decreases channels,
{
    if channels > 0 {
        lemma_channel_sum_bound(planes, frame, (channels - 1) as nat);
        lemma_normalized_ratio(planes[channels - 1][frame]);
    }
}

/// The mean of samples is a sample.
pub proof fn lemma_mono_sample_is_sample(planes: Seq<Seq<RawSample>>, frame: int)
    requires
        planes.len() > 0,
    ensures
        is_sample(mono_sample(planes, frame)),
{
    let channels = planes.len() as int;
    let sum = channel_sum(planes, frame, planes.len());
    lemma_channel_sum_bound(planes, frame, planes.len());
    if sum >= 0 {
        vstd::arithmetic::div_mod::lemma_div_is_ordered(sum, 0x8000_0000 * channels, channels);
        vstd::arithmetic::div_mod::lemma_div_multiples_vanish(0x8000_0000, channels);
        vstd::arithmetic::div_mod::lemma_div_pos_is_pos(sum, channels);
    } else {
        vstd::arithmetic::div_mod::lemma_div_is_ordered(-sum, 0x8000_0000 * channels, channels);
        vstd::arithmetic::div_mod::lemma_div_multiples_vanish(0x8000_0000, channels);
        vstd::arithmetic::div_mod::lemma_div_pos_is_pos(-sum, channels);
    }
}

/// Takes the mean of `channels` samples that add up to `sum`.
pub(crate) fn mean_of(sum: i128, channels: usize) -> (mean: i64)
    requires
        channels > 0,
        -0x8000_0000 * channels <= sum <= 0x8000_0000 * channels,
    ensures
        mean == truncated_div(sum as int, channels as int),
        is_sample(mean as int),
{
    let count: u128 = channels as u128;
    if sum >= 0 {
        let q: u128 = (sum as u128) / count;
        proof {
            vstd::arithmetic::div_mod::lemma_div_is_ordered(
                sum as int,
                0x8000_0000 * channels,
                channels as int,
            );
            vstd::arithmetic::div_mod::lemma_div_multiples_vanish(0x8000_0000, channels as int);
        }
        q as i64
    } else {
        let q: u128 = ((0 - sum) as u128) / count;
        proof {
            vstd::arithmetic::div_mod::lemma_div_is_ordered(
                -(sum as int),
                0x8000_0000 * channels,
                channels as int,
            );
            vstd::arithmetic::div_mod::lemma_div_multiples_vanish(0x8000_0000, channels as int);
        }
        0 - (q as i64)
    }
}

} // verus!
