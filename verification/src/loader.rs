//! The decisions of loading: which track to decode, what to do with each
//! packet of the stream, and when the load has failed. Reading and decoding
//! are the caller's work.
//!
//! A load either reaches the end of the stream, and the samples appended are
//! the buffer, or it fails as a whole: a stream that cannot be read further
//! and a packet that does not decode both end it with an error, and nothing
//! is to be made of the samples appended before.

use vstd::prelude::*;

verus! {

/// What loading needs to know of one track of a container.
#[derive(Clone, Copy, Debug, PartialEq, Eq)]
pub struct TrackInfo {
    /// The track's identifier, which its packets carry.
    pub id: u32,
    /// Whether the track names a codec, so that it can be decoded.
    pub has_codec: bool,
    /// The sample rate that the track reports, if any.
    pub sample_rate: Option<u32>,
}

/// What reading the next packet gave.
#[derive(Clone, Copy, Debug, PartialEq, Eq)]
pub enum ReadEvent {
    /// A packet of the track with this identifier.
    Packet(u32),
    /// No packet: the stream has ended.
    EndOfStream,
    /// No packet: the stream could not be read.
    Failed,
}

/// What to do next while a load goes on.
#[derive(Clone, Copy, Debug, PartialEq, Eq, Structural)]
pub enum LoadStep {
    /// Decode the packet and append its samples.
    Decode,
    /// Read the next packet.
    ReadNext,
    /// Stop reading: the samples appended are the buffer.
    Finish,
}

/// Why a load failed.
#[derive(Clone, Copy, Debug, PartialEq, Eq, Structural)]
pub enum LoadError {
    /// No track of the container names a codec.
    NoAudioTrack,
    /// The stream could not be read to its end.
    ReadFailed,
    /// A packet of the selected track did not decode.
    DecodeFailed,
}

impl LoadError {
    /// The error in words.
    pub open spec fn message_spec(self) -> Seq<char> {
        match self {
            LoadError::NoAudioTrack => "No valid audio track found"@,
            LoadError::ReadFailed => "The audio stream could not be read to its end"@,
            LoadError::DecodeFailed => "A packet of the audio track could not be decoded"@,
        }
    }

    /// Puts the error in words.
    pub fn message(self) -> (text: String)
        ensures
            text@ == self.message_spec(),
    {
        match self {
            LoadError::NoAudioTrack => "No valid audio track found".to_owned(),
            LoadError::ReadFailed => "The audio stream could not be read to its end".to_owned(),
            LoadError::DecodeFailed => "A packet of the audio track could not be decoded".to_owned(),
        }
    }
}

/// Whether track `i` is the first track that names a codec.
pub open spec fn is_first_decodable(tracks: Seq<TrackInfo>, i: int) -> bool {
    &&& 0 <= i < tracks.len()
    &&& tracks[i].has_codec
    &&& forall|j: int| 0 <= j < i ==> !(#[trigger] tracks[j]).has_codec
}

/// What follows a read: a packet of the selected track is decoded, a packet
/// of another track is passed over, the end of the stream finishes the load,
/// and a stream that cannot be read fails it.
pub open spec fn step_after_read(selected: u32, event: ReadEvent) -> Result<LoadStep, LoadError> {
    match event {
        ReadEvent::Packet(track) => if track == selected {
            Ok(LoadStep::Decode)
        } else {
            Ok(LoadStep::ReadNext)
        },
        ReadEvent::EndOfStream => Ok(LoadStep::Finish),
        ReadEvent::Failed => Err(LoadError::ReadFailed),
    }
}

/// What follows a decode: after a packet that decoded the next one is read;
/// the first packet that does not decode fails the load.
pub open spec fn step_after_decode(decoded: bool) -> Result<LoadStep, LoadError> {
    if decoded {
        Ok(LoadStep::ReadNext)
    } else {
        Err(LoadError::DecodeFailed)
    }
}

/// Picks the track to decode: the first one that names a codec. Without such
/// a track the load fails.
pub fn select_track(tracks: &Vec<TrackInfo>) -> (selected: Result<usize, LoadError>)
    ensures
        match selected {
            Ok(i) => is_first_decodable(tracks@, i as int),
            Err(error) => error == LoadError::NoAudioTrack && forall|j: int|
                0 <= j < tracks.len() ==> !(#[trigger] tracks[j]).has_codec,
        },
{
    let mut i: usize = 0;
    while i < tracks.len()
        invariant
            i <= tracks.len(),
            forall|j: int| 0 <= j < i ==> !(#[trigger] tracks[j]).has_codec,
        decreases tracks.len() - i,
    {
        if tracks[i].has_codec {
            return Ok(i);
        }
        i = i + 1;
    }
    Err(LoadError::NoAudioTrack)
}

/// Decides what follows a read.
pub fn after_read(selected: u32, event: ReadEvent) -> (step: Result<LoadStep, LoadError>)
    ensures
        step == step_after_read(selected, event),
{
    match event {
        ReadEvent::Packet(track) => if track == selected {
            Ok(LoadStep::Decode)
        } else {
            Ok(LoadStep::ReadNext)
        },
        ReadEvent::EndOfStream => Ok(LoadStep::Finish),
        ReadEvent::Failed => Err(LoadError::ReadFailed),
    }
}

/// Decides what follows a decode.
pub fn after_decode(decoded: bool) -> (step: Result<LoadStep, LoadError>)
    ensures
        step == step_after_decode(decoded),
{
    if decoded {
        Ok(LoadStep::ReadNext)
    } else {
        Err(LoadError::DecodeFailed)
    }
}

} // verus!
