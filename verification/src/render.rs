//! The text of the two result files.
//!
//! Times are written in seconds with three decimal places, amplitudes with
//! four. Both are computed from integers: a time is the sample index over the
//! sample rate, rounded to the nearest millisecond.

use vstd::prelude::*;
use vstd::string::StringSliceAdditionalSpecFns;
use crate::envelope::EnvelopeSample;
use crate::fixed::divide_rounded;
use crate::fixed::rounded_div;
use crate::onset::as_nats;

verus! {

/// The ASCII digit for a number below ten.
pub open spec fn digit(d: nat) -> u8 {
    (48 + d) as u8
}

/// A number in decimal, without leading zeros.
pub open spec fn decimal(n: nat) -> Seq<u8>
    decreases n,
{
    if n < 10 {
        seq![digit(n)]
    } else {
        decimal(n / 10).push(digit(n % 10))
    }
}

/// The last `width` decimal digits of a number, with leading zeros.
pub open spec fn padded(n: nat, width: nat) -> Seq<u8>
    decreases width,
{
    if width == 0 {
        Seq::empty()
    } else {
        padded(n / 10, (width - 1) as nat).push(digit(n % 10))
    }
}

/// A count of thousandths as a decimal number with three places.
pub open spec fn thousandths(n: nat) -> Seq<u8> {
    decimal(n / 1000) + seq![46u8] + padded(n % 1000, 3)
}

/// A count of ten-thousandths as a decimal number with four places.
pub open spec fn ten_thousandths(n: nat) -> Seq<u8> {
    decimal(n / 10_000) + seq![46u8] + padded(n % 10_000, 4)
}

/// The time of a sample index in milliseconds, rounded to the nearest, a tie
/// going up.
pub open spec fn millis_of(index: nat, sample_rate: u32) -> nat {
    rounded_div(index * 1000, sample_rate as nat)
}

/// The lines of the first `k` beats: one time per line.
pub open spec fn beat_lines(beats: Seq<nat>, sample_rate: u32, k: nat) -> Seq<u8>
    decreases k,
{
    if k == 0 {
        Seq::empty()
    } else {
        beat_lines(beats, sample_rate, (k - 1) as nat) + thousandths(
            millis_of(beats[k - 1], sample_rate),
        ) + seq![10u8]
    }
}

/// The text of the beats file: three comment lines, the last with the number
/// of beats, an empty line, and one line per beat.
pub open spec fn beats_text(beats: Seq<nat>, sample_rate: u32) -> Seq<u8> {
    "# Beat timestamps (in seconds)\n# Generated by audio-analyzer\n# Total beats: ".spec_bytes()
        + decimal(beats.len()) + seq![10u8, 10u8] + beat_lines(beats, sample_rate, beats.len())
}

/// The lines of the first `k` points of an envelope: time, comma, amplitude.
pub open spec fn envelope_lines(envelope: Seq<EnvelopeSample>, sample_rate: u32, k: nat) -> Seq<u8>
    decreases k,
{
    if k == 0 {
        Seq::empty()
    } else {
        envelope_lines(envelope, sample_rate, (k - 1) as nat) + thousandths(
            millis_of(envelope[k - 1].start as nat, sample_rate),
        ) + seq![44u8] + ten_thousandths(envelope[k - 1].amplitude as nat) + seq![10u8]
    }
}

/// The text of the envelope file: three comment lines, the last with the
/// number of points, an empty line, and one line per point.
pub open spec fn envelope_text(envelope: Seq<EnvelopeSample>, sample_rate: u32) -> Seq<u8> {
    "# Amplitude envelope data (time,amplitude)\n# Generated by audio-analyzer\n# Total samples: ".spec_bytes()
        + decimal(envelope.len()) + seq![10u8, 10u8] + envelope_lines(
        envelope,
        sample_rate,
        envelope.len(),
    )
}

/// Appends the bytes of a piece of text.
fn push_text(out: &mut Vec<u8>, text: &str)
    ensures
        final(out)@ == old(out)@ + text.spec_bytes(),
{
    let bytes = text.as_bytes();
    let n = bytes.len();
    let mut i: usize = 0;
    while i < n
        invariant
            i <= n,
            n == bytes@.len(),
            bytes@ == text.spec_bytes(),
            out@ == old(out)@ + bytes@.take(i as int),
        decreases n - i,
    {
        out.push(bytes[i]);
        assert(bytes@.take(i + 1) =~= bytes@.take(i as int).push(bytes@[i as int]));
        i = i + 1;
    }
    assert(bytes@.take(n as int) =~= bytes@);
}

/// Appends a number in decimal.
fn push_decimal(out: &mut Vec<u8>, n: u128)
    ensures
        final(out)@ == old(out)@ + decimal(n as nat),
    decreases n,
{
    if n >= 10 {
        push_decimal(out, n / 10);
    }
    out.push(48 + (n % 10) as u8);
    assert(out@ =~= old(out)@ + decimal(n as nat));
}

/// Appends the last `width` digits of a number.
fn push_padded(out: &mut Vec<u8>, n: u128, width: u32)
    ensures
        final(out)@ == old(out)@ + padded(n as nat, width as nat),
    decreases width,
{
    if width > 0 {
        push_padded(out, n / 10, width - 1);
        out.push(48 + (n % 10) as u8);
    }
    assert(out@ =~= old(out)@ + padded(n as nat, width as nat));
}

/// Appends the time of a sample index, in seconds.
fn push_time(out: &mut Vec<u8>, index: usize, sample_rate: u32)
    ensures
        final(out)@ == old(out)@ + thousandths(millis_of(index as nat, sample_rate)),
{
    let millis: u128 = divide_rounded(index as u128 * 1000, sample_rate as u128);
    push_decimal(out, millis / 1000);
    out.push(46);
    push_padded(out, millis % 1000, 3);
    assert(out@ =~= old(out)@ + thousandths(millis_of(index as nat, sample_rate)));
}

/// Writes the beats file for beats given as sample indices.
pub fn render_beats(beats: &Vec<usize>, sample_rate: u32) -> (text: Vec<u8>)
    ensures
        text@ == beats_text(as_nats(beats@), sample_rate),
{
    let mut text: Vec<u8> = Vec::new();
    push_text(
        &mut text,
        "# Beat timestamps (in seconds)\n# Generated by audio-analyzer\n# Total beats: ",
    );
    push_decimal(&mut text, beats.len() as u128);
    text.push(10);
    text.push(10);
    let ghost head = text@;
    let n = beats.len();
    let mut k: usize = 0;
    while k < n
        invariant
            k <= n,
            n == beats.len(),
            text@ == head + beat_lines(as_nats(beats@), sample_rate, k as nat),
        decreases n - k,
    {
        push_time(&mut text, beats[k], sample_rate);
        text.push(10);
        assert(text@ =~= head + beat_lines(as_nats(beats@), sample_rate, (k + 1) as nat));
        k = k + 1;
    }
    assert(text@ =~= beats_text(as_nats(beats@), sample_rate));
    text
}

/// Writes the envelope file.
pub fn render_envelope(envelope: &Vec<EnvelopeSample>, sample_rate: u32) -> (text: Vec<u8>)
    ensures
        text@ == envelope_text(envelope@, sample_rate),
{
    let mut text: Vec<u8> = Vec::new();
    push_text(
        &mut text,
        "# Amplitude envelope data (time,amplitude)\n# Generated by audio-analyzer\n# Total samples: ",
    );
    push_decimal(&mut text, envelope.len() as u128);
    text.push(10);
    text.push(10);
    let ghost head = text@;
    let n = envelope.len();
    let mut k: usize = 0;
    while k < n
        invariant
            k <= n,
            n == envelope.len(),
            text@ == head + envelope_lines(envelope@, sample_rate, k as nat),
        decreases n - k,
    {
        let point = envelope[k];
        push_time(&mut text, point.start, sample_rate);
        text.push(44);
        let ghost middle = text@;
        push_decimal(&mut text, (point.amplitude / 10_000) as u128);
        text.push(46);
        push_padded(&mut text, (point.amplitude % 10_000) as u128, 4);
        assert(text@ =~= middle + ten_thousandths(point.amplitude as nat));
        text.push(10);
        assert(text@ =~= head + envelope_lines(envelope@, sample_rate, (k + 1) as nat));
        k = k + 1;
    }
    assert(text@ =~= envelope_text(envelope@, sample_rate));
    text
}

} // verus!
