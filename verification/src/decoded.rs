//! Reading the audio buffers that the decoder hands out.
//!
//! The buffers stay what they are, values of `symphonia`. Nothing about them
//! is proved here: the contracts below are taken on trust from the decoder's
//! source, and the rest of the library is verified against them.

use vstd::prelude::*;
use crate::sample::RawSample;
use crate::sample::SampleFormat;

verus! {

/// `symphonia::core::audio::AudioBufferRef`, a reference to a decoded block of
/// audio in any of the decoder's ten sample formats. Its inside is not
/// described: the library reads it through the four functions below only.
#[verifier::external_type_specification]
#[verifier::external_body]
pub struct ExAudioBufferRef<'a>(symphonia::core::audio::AudioBufferRef<'a>);

/// A decoded block of audio, as the decoder hands it out.
pub type Block<'a> = symphonia::core::audio::AudioBufferRef<'a>;

/// The format in which a decoded block holds its samples.
pub uninterp spec fn block_format(buffer: symphonia::core::audio::AudioBufferRef) -> SampleFormat;

/// The written samples of a decoded block: one sequence per channel, in
/// channel order, each with one sample per frame.
pub uninterp spec fn block_planes(buffer: symphonia::core::audio::AudioBufferRef) -> Seq<
    Seq<RawSample>,
>;

/// Tells the variants of `AudioBufferRef` apart. The four formats that the
/// analysis reads are reported as themselves, the six others as `Other`.
#[verifier::external_body]
pub(crate) fn read_format(buffer: &symphonia::core::audio::AudioBufferRef) -> (format: SampleFormat)
    ensures
        format == block_format(*buffer),
{
    match buffer {
        Block::U8(_) => SampleFormat::U8,
        Block::S16(_) => SampleFormat::S16,
        Block::S32(_) => SampleFormat::S32,
        Block::F32(_) => SampleFormat::F32,
        _ => SampleFormat::Other,
    }
}

/// Calls `AudioBufferRef::spec` and `Channels::count`: the number of channels
/// of the block's signal, which is the number of planes that `Signal::chan`
/// gives access to.
#[verifier::external_body]
pub(crate) fn read_channels(buffer: &symphonia::core::audio::AudioBufferRef) -> (channels: usize)
    ensures
        channels == block_planes(*buffer).len(),
{
    buffer.spec().channels.count()
}

/// Calls `AudioBufferRef::frames`: the number of frames written to the block,
/// which is the length of every plane that `Signal::chan` returns.
#[verifier::external_body]
pub(crate) fn read_frames(buffer: &symphonia::core::audio::AudioBufferRef) -> (frames: usize)
    ensures
        forall|channel: int|
            0 <= channel < block_planes(*buffer).len() ==> (#[trigger] block_planes(
                *buffer,
            )[channel]).len() == frames,
{
    buffer.frames()
}

/// Calls `Signal::chan` on the buffer inside the block and reads one sample
/// of the plane. `chan` panics on a channel that the block does not have, and
/// the plane has no sample past the written frames: both are kept out. A
/// block in a format that is not read gives `None`; in the four others the
/// sample comes in the block's own format.
#[verifier::external_body]
pub(crate) fn read_sample(
    buffer: &symphonia::core::audio::AudioBufferRef,
    channel: usize,
    frame: usize,
) -> (raw: Option<RawSample>)
    requires
        channel < block_planes(*buffer).len(),
        frame < block_planes(*buffer)[channel as int].len(),
    ensures
        raw == if block_format(*buffer) == SampleFormat::Other {
            None
        } else {
            Some(block_planes(*buffer)[channel as int][frame as int])
        },
        raw matches Some(sample) ==> sample.format() == block_format(*buffer),
{
    match buffer {
        Block::U8(b) => Some(RawSample::U8(symphonia::core::audio::Signal::chan(b.as_ref(), channel)[frame])),
        Block::S16(b) => Some(RawSample::S16(symphonia::core::audio::Signal::chan(b.as_ref(), channel)[frame])),
        Block::S32(b) => Some(RawSample::S32(symphonia::core::audio::Signal::chan(b.as_ref(), channel)[frame])),
        Block::F32(b) => Some(RawSample::F32(symphonia::core::audio::Signal::chan(b.as_ref(), channel)[frame].to_bits())),
        _ => None,
    }
}

} // verus!
