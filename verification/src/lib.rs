//! Beat onsets and amplitude envelopes of decoded audio.
//!
//! The library turns a buffer of mono samples into two time series: the
//! sample positions of beat onsets, found by spectral flux, and an envelope of
//! RMS levels, normalized by the loudest window. Both are computed in integer
//! arithmetic and verified with Verus against the specifications that stand
//! beside them.
//!
//! * [`fixed`] holds the fixed-point scales, the decoding of single-precision
//!   bit patterns and the integer square root.
//! * [`sample`] brings the sample formats of a decoder to one scale and mixes
//!   the channels of a frame down to one sample.
//! * [`decoded`] reads the decoder's own audio buffers.
//! * [`analyzer`] is the sample buffer with its sample rate.
//! * [`onset`] cuts the buffer into frames, takes the spectrum of each frame
//!   from the caller, and picks the beats.
//! * [`envelope`] extracts the amplitude envelope.
//! * [`render`] writes the text of the two result files.
//! * [`loader`] decides which track of a container is decoded, what becomes
//!   of each packet, and when a load has failed.
//!
//! The Fourier transform itself is floating-point work and is left to the
//! caller, who hands the magnitudes of each frame to the detector. For a
//! frame of zeros the detector takes the silent spectrum whatever it is
//! handed: the transform of silence is silence.

pub mod analyzer;
pub mod decoded;
pub mod envelope;
pub mod fixed;
pub mod loader;
pub mod onset;
pub mod render;
pub mod sample;
