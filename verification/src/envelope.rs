//! The amplitude envelope: the RMS level of consecutive windows, normalized
//! by the loudest window.

use vstd::prelude::*;
use vstd::arithmetic::div_mod::lemma_fundamental_div_mod_converse;
use vstd::arithmetic::power2::pow2;
use vstd::arithmetic::power2::lemma2_to64;
use vstd::arithmetic::power2::lemma_pow2_adds;
use vstd::arithmetic::power2::lemma_pow2_pos;
use vstd::arithmetic::power2::lemma_pow2_strictly_increases;
use crate::fixed::divide_rounded;
use crate::fixed::float_is_infinite;
use crate::fixed::float_is_nan;
use crate::fixed::float_is_negative;
use crate::fixed::float_power;
use crate::fixed::float_significand;
use crate::fixed::floor_sqrt;
use crate::fixed::integer_sqrt;
use crate::fixed::is_sample;
use crate::fixed::lemma_floor_sqrt_monotonic;
use crate::fixed::power_of_two;
use crate::fixed::lemma_floor_sqrt_unique;
use crate::fixed::lesser;
use crate::fixed::rounded_div;

verus! {

/// The amplitude of the loudest window: amplitudes are held in
/// ten-thousandths.
pub const FULL_SCALE: u32 = 10_000;

/// One point of the envelope.
#[derive(Clone, Copy, Debug, PartialEq, Eq, Structural)]
pub struct EnvelopeSample {
    /// The sample index at which the window starts.
    pub start: usize,
    /// The window's level, from 0 to `FULL_SCALE`.
    pub amplitude: u32,
}

/// The window length in use: a length of zero is taken as one.
pub open spec fn clamped(window: nat) -> nat {
    if window == 0 {
        1
    } else {
        window
    }
}

/// The squares of the samples from `start` up to `end`, added up.
pub open spec fn energy(samples: Seq<i64>, start: int, end: int) -> nat
    decreases end - start,
{
    if end <= start {
        0
    } else {
        energy(samples, start, end - 1) + (samples[end - 1] * samples[end - 1]) as nat
    }
}

/// How many windows of `window` samples cover `len` samples, the last one
/// possibly shorter.
pub open spec fn window_count(len: nat, window: nat) -> nat {
    ((len + clamped(window) - 1) / (clamped(window) as int)) as nat
}

/// Where window `i` ends: a window's length after its start, or at the end of
/// the buffer.
pub open spec fn window_end(len: nat, window: nat, i: int) -> int {
    lesser(i * clamped(window) + clamped(window), len as int)
}

/// The mean square of `count` samples of energy `total`, as a numerator over
/// 2^126, and its square root, the RMS level as a numerator over 2^63.
pub open spec fn level_of(total: nat, count: nat) -> nat {
    floor_sqrt(((total as int * 0x1_0000_0000_0000_0000) / (count as int)) as nat)
}

/// The RMS level of window `i`.
pub open spec fn window_level(samples: Seq<i64>, window: nat, i: int) -> nat {
    let start = i * clamped(window);
    let end = window_end(samples.len(), window, i);
    level_of(energy(samples, start, end), (end - start) as nat)
}

/// The largest level among the first `k` windows, zero when there is none.
pub open spec fn level_max_before(samples: Seq<i64>, window: nat, k: nat) -> nat
    decreases k,
{
    if k == 0 {
        0
    } else {
        let earlier = level_max_before(samples, window, (k - 1) as nat);
        let level = window_level(samples, window, k - 1);
        if level > earlier {
            level
        } else {
            earlier
        }
    }
}

/// The level of the loudest window.
pub open spec fn level_max(samples: Seq<i64>, window: nat) -> nat {
    level_max_before(samples, window, window_count(samples.len(), window))
}

/// A level divided by the largest level, in ten-thousandths, rounded to the
/// nearest. Where the largest level is zero nothing is divided and the
/// amplitude is zero.
pub open spec fn amplitude_of(level: nat, largest: nat) -> nat {
    rounded_div((level * FULL_SCALE) as nat, largest)
}

/// The envelope of a buffer: one point per window, in window order.
pub open spec fn envelope_of(samples: Seq<i64>, window: nat) -> Seq<EnvelopeSample> {
    Seq::new(
        window_count(samples.len(), window),
        |i: int|
            EnvelopeSample {
                start: (i * clamped(window)) as usize,
                amplitude: amplitude_of(
                    window_level(samples, window, i),
                    level_max(samples, window),
                ) as u32,
            },
    )
}

/// Window `i` starts inside the buffer exactly when its index is below the
/// window count.
pub proof fn lemma_window_fits(len: nat, window: nat, i: nat)
    ensures
        i < window_count(len, window) <==> i * clamped(window) < len,
{
    let w = clamped(window) as int;
    let x = len + w - 1;
    vstd::arithmetic::div_mod::lemma_fundamental_div_mod(x, w);
    let q = x / w;
    assert(x == w * q + x % w && 0 <= x % w < w);
    if i < q {
        assert(i * w <= (q - 1) * w) by (nonlinear_arith)
            requires
                i <= q - 1,
                w > 0,
        ;
        assert((q - 1) * w == w * q - w) by (nonlinear_arith);
    } else {
        assert(i * w >= q * w) by (nonlinear_arith)
            requires
                i >= q,
                w > 0,
        ;
        assert(q * w == w * q) by (nonlinear_arith);
    }
}

/// The energy of a stretch is at least the square of each sample in it, and
/// at most its length times the largest square.
pub proof fn lemma_energy_bounds(samples: Seq<i64>, start: int, end: int)
    requires
        0 <= start <= end <= samples.len(),
        forall|j: int| start <= j < end ==> is_sample(#[trigger] samples[j] as int),
    ensures
        energy(samples, start, end) <= (end - start) * 0x4000_0000_0000_0000,
        forall|j: int| start <= j < end ==> energy(samples, start, end) >= #[trigger] samples[j] * samples[j],
        (forall|j: int| start <= j < end ==> #[trigger] samples[j] == 0) ==> energy(samples, start, end) == 0,
    decreases end - start,
{
    if end > start {
        lemma_energy_bounds(samples, start, end - 1);
        let s = samples[end - 1];
        assert(is_sample(s as int));
        assert(0 <= s * s <= 0x4000_0000_0000_0000) by (nonlinear_arith)
            requires
                -0x8000_0000 <= s <= 0x8000_0000,
        ;
        assert forall|j: int| start <= j < end implies energy(samples, start, end) >= #[trigger] samples[j] * samples[j] by {
            if j < end - 1 {
                assert(energy(samples, start, end - 1) >= samples[j] * samples[j]);
            }
        }
    }
}

/// A level is at most 2^63, and is positive as soon as the energy is, for
/// every window that fits in memory.
pub proof fn lemma_level_bounds(total: nat, count: nat)
    requires
        0 < count < 0x1_0000_0000_0000_0000,
        total <= count * 0x4000_0000_0000_0000,
    ensures
        level_of(total, count) <= 0x8000_0000_0000_0000,
        total > 0 ==> level_of(total, count) > 0,
        total == 0 ==> level_of(total, count) == 0,
{
    let t = total as int;
    let c = count as int;
    let top: int = 0x4000_0000_0000_0000_0000_0000_0000_0000;
    let half: nat = 0x8000_0000_0000_0000;
    let scaled = (t * 0x1_0000_0000_0000_0000) / c;
    assert(t * 0x1_0000_0000_0000_0000 <= top * c) by (nonlinear_arith)
        requires
            t <= c * 0x4000_0000_0000_0000,
            top == 0x4000_0000_0000_0000_0000_0000_0000_0000,
    ;
    assert(0 <= t * 0x1_0000_0000_0000_0000) by (nonlinear_arith)
        requires
            0 <= t,
    ;
    vstd::arithmetic::div_mod::lemma_div_is_ordered(t * 0x1_0000_0000_0000_0000, top * c, c);
    vstd::arithmetic::div_mod::lemma_div_multiples_vanish(top, c);
    vstd::arithmetic::div_mod::lemma_div_pos_is_pos(t * 0x1_0000_0000_0000_0000, c);
    assert(0 <= scaled <= top);
    assert(half * half == top && (half + 1) * (half + 1) > top) by (nonlinear_arith)
        requires
            half == 0x8000_0000_0000_0000,
            top == 0x4000_0000_0000_0000_0000_0000_0000_0000,
    ;
    assert(crate::fixed::is_floor_sqrt(half, top as nat));
    lemma_floor_sqrt_unique(half, top as nat);
    lemma_floor_sqrt_monotonic(scaled as nat, top as nat);
    if total > 0 {
        assert(t * 0x1_0000_0000_0000_0000 >= c) by (nonlinear_arith)
            requires
                t >= 1,
                c < 0x1_0000_0000_0000_0000,
        ;
        vstd::arithmetic::div_mod::lemma_div_is_ordered(c, t * 0x1_0000_0000_0000_0000, c);
        vstd::arithmetic::div_mod::lemma_div_by_self(c);
        assert(scaled >= 1);
        assert(crate::fixed::is_floor_sqrt(1, 1)) by {
            assert(1nat * 1nat == 1 && (1nat + 1) * (1nat + 1) == 4) by (nonlinear_arith);
        }
        lemma_floor_sqrt_unique(1, 1);
        lemma_floor_sqrt_monotonic(1, scaled as nat);
    } else {
        assert(t * 0x1_0000_0000_0000_0000 == 0) by (nonlinear_arith)
            requires
                t == 0,
        ;
        assert(scaled == 0);
        assert(crate::fixed::is_floor_sqrt(0, 0)) by {
            assert(0nat * 0nat == 0 && (0nat + 1) * (0nat + 1) == 1) by (nonlinear_arith);
        }
        lemma_floor_sqrt_unique(0, 0);
    }
}

/// The largest level is no smaller than the level of any window, and is zero
/// or the level of one of them.
pub proof fn lemma_level_max(samples: Seq<i64>, window: nat, k: nat)
    ensures
        forall|i: int| 0 <= i < k ==> #[trigger] window_level(samples, window, i) <= level_max_before(samples, window, k),
        level_max_before(samples, window, k) == 0 || exists|i: int|
            0 <= i < k && #[trigger] window_level(samples, window, i) == level_max_before(samples, window, k),
    decreases k,
{
    if k > 0 {
        lemma_level_max(samples, window, (k - 1) as nat);
        let earlier = level_max_before(samples, window, (k - 1) as nat);
        let level = window_level(samples, window, k - 1);
        if level > earlier {
            assert(window_level(samples, window, k - 1) == level_max_before(samples, window, k));
        } else if earlier != 0 {
            let i = choose|i: int| 0 <= i < k - 1 && #[trigger] window_level(samples, window, i) == earlier;
            assert(0 <= i < k && window_level(samples, window, i) == level_max_before(samples, window, k));
        }
    }
}

/// An amplitude never exceeds full scale, and the largest level has full
/// scale exactly.
pub proof fn lemma_amplitude_bounds(level: nat, largest: nat)
    requires
        level <= largest,
    ensures
        amplitude_of(level, largest) <= FULL_SCALE,
        largest > 0 ==> amplitude_of(largest, largest) == FULL_SCALE,
        level == 0 ==> amplitude_of(level, largest) == 0,
{
    if largest > 0 {
        let d = 2 * largest;
        assert(2 * (largest * FULL_SCALE) + largest == d * FULL_SCALE + largest) by (nonlinear_arith)
            requires
                d == 2 * largest,
        ;
        lemma_fundamental_div_mod_converse(
            2 * (largest * FULL_SCALE) + largest,
            d as int,
            FULL_SCALE as int,
            largest as int,
        );
        assert(2 * (level * FULL_SCALE) + largest <= 2 * (largest * FULL_SCALE) + largest) by (nonlinear_arith)
            requires
                level <= largest,
        ;
        vstd::arithmetic::div_mod::lemma_div_is_ordered(
            2 * (level * FULL_SCALE) + largest,
            2 * (largest * FULL_SCALE) + largest,
            d as int,
        );
        if level == 0 {
            assert(level * FULL_SCALE == 0) by (nonlinear_arith)
                requires
                    level == 0,
            ;
            vstd::arithmetic::div_mod::lemma_basic_div(largest as int, d as int);
        }
    }
}

/// Adds up the squares of a stretch of samples.
fn energy_between(samples: &Vec<i64>, start: usize, end: usize) -> (total: u128)
    requires
        start <= end <= samples.len(),
        forall|j: int| start <= j < end ==> is_sample(#[trigger] samples[j] as int),
    ensures
        total == energy(samples@, start as int, end as int),
        total <= (end - start) * 0x4000_0000_0000_0000,
{
    let mut total: u128 = 0;
    let mut j: usize = start;
    while j < end
        invariant
            start <= j <= end <= samples.len(),
            forall|k: int| start <= k < end ==> is_sample(#[trigger] samples[k] as int),
            total == energy(samples@, start as int, j as int),
            total <= (j - start) * 0x4000_0000_0000_0000,
        decreases end - j,
    {
        let s: i64 = samples[j];
        proof {
            assert(is_sample(samples[j as int] as int));
            assert(0 <= s * s <= 0x4000_0000_0000_0000) by (nonlinear_arith)
                requires
                    -0x8000_0000 <= s <= 0x8000_0000,
            ;
            assert((j + 1 - start) * 0x4000_0000_0000_0000 == (j - start) * 0x4000_0000_0000_0000 + 0x4000_0000_0000_0000) by (nonlinear_arith);
            assert((j + 1 - start) * 0x4000_0000_0000_0000 <= 0xffff_ffff_ffff_ffff * 0x4000_0000_0000_0000) by (nonlinear_arith)
                requires
                    j + 1 - start <= 0xffff_ffff_ffff_ffff,
            ;
        }
        total = total + (s * s) as u128;
        j = j + 1;
    }
    total
}

/// Computes the RMS level of `count` samples of energy `total`.
fn level(total: u128, count: usize) -> (level: u64)
    requires
        count > 0,
        total <= count * 0x4000_0000_0000_0000,
    ensures
        level == level_of(total as nat, count as nat),
{
    let n: u128 = count as u128;
    let q: u128 = total / n;
    let r: u128 = total % n;
    proof {
        vstd::arithmetic::div_mod::lemma_fundamental_div_mod(total as int, n as int);
        vstd::arithmetic::div_mod::lemma_div_is_ordered(
            total as int,
            0x4000_0000_0000_0000 * n,
            n as int,
        );
        vstd::arithmetic::div_mod::lemma_div_multiples_vanish(0x4000_0000_0000_0000, n as int);
        assert(q <= 0x4000_0000_0000_0000);
        assert(q * 0x1_0000_0000_0000_0000 <= 0x4000_0000_0000_0000 * 0x1_0000_0000_0000_0000) by (nonlinear_arith)
            requires
                q <= 0x4000_0000_0000_0000,
        ;
        assert(r * 0x1_0000_0000_0000_0000 <= 0xffff_ffff_ffff_fffe * 0x1_0000_0000_0000_0000) by (nonlinear_arith)
            requires
                r <= 0xffff_ffff_ffff_fffe,
        ;
    }
    let high: u128 = q * 0x1_0000_0000_0000_0000;
    let low: u128 = (r * 0x1_0000_0000_0000_0000) / n;
    proof {
        assert(r * 0x1_0000_0000_0000_0000 <= 0x1_0000_0000_0000_0000 * n) by (nonlinear_arith)
            requires
                r <= n,
        ;
        vstd::arithmetic::div_mod::lemma_div_is_ordered(
            r * 0x1_0000_0000_0000_0000,
            0x1_0000_0000_0000_0000 * n,
            n as int,
        );
        vstd::arithmetic::div_mod::lemma_div_multiples_vanish(0x1_0000_0000_0000_0000, n as int);
        assert(low <= 0x1_0000_0000_0000_0000);
        vstd::arithmetic::div_mod::lemma_hoist_over_denominator(
            r * 0x1_0000_0000_0000_0000,
            high as int,
            n as nat,
        );
        assert(r * 0x1_0000_0000_0000_0000 + high * n == total * 0x1_0000_0000_0000_0000) by (nonlinear_arith)
            requires
                total == n * q + r,
                high == q * 0x1_0000_0000_0000_0000,
        ;
    }
    integer_sqrt(high + low)
}

/// Divides a level by the largest level.
fn amplitude(level: u64, largest: u64) -> (amplitude: u32)
    requires
        level <= largest,
    ensures
        amplitude == amplitude_of(level as nat, largest as nat),
        amplitude <= FULL_SCALE,
{
    proof {
        lemma_amplitude_bounds(level as nat, largest as nat);
    }
    divide_rounded(level as u128 * 10_000, largest as u128) as u32
}

/// Extracts the envelope of a buffer of samples in [-1, 1] with windows of
/// `window` samples. A window length of zero is taken as one.
pub fn extract_envelope(samples: &Vec<i64>, window: usize) -> (envelope: Vec<EnvelopeSample>)
    requires
        forall|j: int| 0 <= j < samples.len() ==> is_sample(#[trigger] samples[j] as int),
    ensures
        envelope@ == envelope_of(samples@, window as nat),
        envelope.len() == window_count(samples.len() as nat, window as nat),
        forall|i: int| 0 <= i < envelope.len() ==> (#[trigger] envelope[i]).amplitude <= FULL_SCALE,
{
    let len = samples.len();
    let w: usize = if window == 0 {
        1
    } else {
        window
    };
    let ghost count = window_count(len as nat, window as nat);
    let mut starts: Vec<usize> = Vec::new();
    let mut levels: Vec<u64> = Vec::new();
    let mut largest: u64 = 0;
    let mut start: usize = 0;
    proof {
        lemma_window_fits(len as nat, window as nat, 0);
    }
    while start < len
        invariant
            len == samples.len(),
            forall|j: int| 0 <= j < samples.len() ==> is_sample(#[trigger] samples[j] as int),
            w == clamped(window as nat),
            count == window_count(len as nat, window as nat),
            starts.len() == levels.len(),
            levels.len() <= count,
            start <= len,
            start < len ==> start == levels.len() * w,
            start == len ==> levels.len() == count,
            forall|i: int| 0 <= i < levels.len() ==> #[trigger] starts[i] == i * w,
            forall|i: int| 0 <= i < levels.len() ==> #[trigger] levels[i] == window_level(samples@, window as nat, i),
            largest == level_max_before(samples@, window as nat, levels.len() as nat),
        decreases len - start,
    {
        let ghost i = levels.len() as int;
        let end: usize = if len - start <= w {
            len
        } else {
            start + w
        };
        proof {
            assert((i + 1) * w == i * w + w) by (nonlinear_arith);
            lemma_window_fits(len as nat, window as nat, i as nat);
            lemma_window_fits(len as nat, window as nat, (i + 1) as nat);
            assert(end == window_end(len as nat, window as nat, i));
        }
        let total = energy_between(samples, start, end);
        let current = level(total, end - start);
        starts.push(start);
        levels.push(current);
        if current > largest {
            largest = current;
        }
        start = end;
    }
    proof {
        lemma_level_max(samples@, window as nat, count);
    }
    let n = levels.len();
    let mut envelope: Vec<EnvelopeSample> = Vec::new();
    let mut i: usize = 0;
    while i < n
        invariant
            i <= n,
            n == levels.len(),
            n == starts.len(),
            n == count,
            count == window_count(samples@.len(), window as nat),
            w == clamped(window as nat),
            forall|j: int| 0 <= j < n ==> #[trigger] starts[j] == j * w,
            forall|j: int| 0 <= j < n ==> #[trigger] levels[j] == window_level(samples@, window as nat, j),
            forall|j: int| 0 <= j < n ==> #[trigger] window_level(samples@, window as nat, j) <= largest,
            largest == level_max(samples@, window as nat),
            envelope.len() == i,
            forall|j: int| 0 <= j < i ==> #[trigger] envelope[j] == envelope_of(samples@, window as nat)[j],
            forall|j: int| 0 <= j < i ==> (#[trigger] envelope[j]).amplitude <= FULL_SCALE,
        decreases n - i,
    {
        assert(window_level(samples@, window as nat, i as int) <= largest);
        let point = EnvelopeSample { start: starts[i], amplitude: amplitude(levels[i], largest) };
        envelope.push(point);
        i = i + 1;
    }
    assert(envelope@ =~= envelope_of(samples@, window as nat));
    envelope
}

/// The sample rate divided by a positive finite target rate, rounded down.
/// The target rate is `float_significand * 2^float_power` hertz.
pub open spec fn rate_quotient(sample_rate: u32, target_bits: u32) -> int {
    let sig = float_significand(target_bits);
    let p = float_power(target_bits);
    if p >= 0 {
        sample_rate as int / (sig * pow2(p as nat))
    } else {
        (sample_rate as int * pow2((-p) as nat)) / sig
    }
}

/// The window length for a target rate, given as a single-precision bit
/// pattern in hertz: the sample rate divided by the target rate, rounded down,
/// and at least one sample. A target of zero asks for one window as long as
/// can be; a negative target, an infinite one and a NaN ask for the shortest.
pub open spec fn window_size_spec(sample_rate: u32, target_bits: u32) -> nat {
    if float_is_nan(target_bits) || float_is_negative(target_bits) || float_is_infinite(
        target_bits,
    ) {
        1
    } else if float_significand(target_bits) == 0 {
        usize::MAX as nat
    } else if rate_quotient(sample_rate, target_bits) < 1 {
        1
    } else {
        lesser(rate_quotient(sample_rate, target_bits), usize::MAX as int) as nat
    }
}

/// Whether the positive finite number that `bits` encodes is larger than `n`.
pub open spec fn float_exceeds(bits: u32, n: nat) -> bool {
    let sig = float_significand(bits);
    let p = float_power(bits);
    if p >= 0 {
        sig * pow2(p as nat) > n
    } else {
        sig > n * pow2((-p) as nat)
    }
}

/// A target rate above the sample rate gives windows of one sample.
pub proof fn lemma_fast_target_has_unit_window(sample_rate: u32, target_bits: u32)
    requires
        !float_is_nan(target_bits),
        !float_is_negative(target_bits),
        float_is_infinite(target_bits) || float_exceeds(target_bits, sample_rate as nat),
    ensures
        window_size_spec(sample_rate, target_bits) == 1,
{
    if !float_is_infinite(target_bits) {
        let sig = float_significand(target_bits);
        let p = float_power(target_bits);
        if p >= 0 {
            lemma_pow2_pos(p as nat);
            vstd::arithmetic::div_mod::lemma_basic_div(sample_rate as int, sig * pow2(p as nat));
        } else {
            lemma_pow2_pos((-p) as nat);
            assert(0 <= sample_rate as int * pow2((-p) as nat)) by (nonlinear_arith)
                requires
                    pow2((-p) as nat) > 0,
            ;
            vstd::arithmetic::div_mod::lemma_basic_div(
                sample_rate as int * pow2((-p) as nat),
                sig,
            );
        }
    }
}

/// The envelope of a buffer is determined by its samples and the window
/// length: two lists that both hold it are the same list.
pub proof fn lemma_envelope_is_determined(
    samples: Seq<i64>,
    window: nat,
    first: Seq<EnvelopeSample>,
    second: Seq<EnvelopeSample>,
)
    requires
        first == envelope_of(samples, window),
        second == envelope_of(samples, window),
    ensures
        first == second,
{
}

/// With windows of one sample the envelope has one point per sample; a
/// buffer that is not empty has at least one point whatever the window; and
/// the points start at rising sample indices, one window apart.
pub proof fn lemma_envelope_shape(samples: Seq<i64>, window: nat)
    requires
        samples.len() <= usize::MAX,
    ensures
        envelope_of(samples, window).len() == window_count(samples.len(), window),
        clamped(window) == 1 ==> envelope_of(samples, window).len() == samples.len(),
        samples.len() > 0 ==> envelope_of(samples, window).len() >= 1,
        samples.len() < clamped(window) ==> envelope_of(samples, window).len() <= 1,
        forall|i: int|
            0 <= i < envelope_of(samples, window).len() ==> (#[trigger] envelope_of(
                samples,
                window,
            )[i]).start == i * clamped(window) && i * clamped(window) < samples.len(),
{
    lemma_window_fits(samples.len(), window, 0);
    lemma_window_fits(samples.len(), window, 1);
    lemma_window_fits(samples.len(), window, samples.len());
    if samples.len() > 0 {
        lemma_window_fits(samples.len(), window, (samples.len() - 1) as nat);
    }
    assert(1 * clamped(window) == clamped(window)) by (nonlinear_arith);
    assert(samples.len() * clamped(window) >= samples.len()) by (nonlinear_arith)
        requires
            clamped(window) >= 1,
    ;
    assert forall|i: int| 0 <= i < envelope_of(samples, window).len() implies (#[trigger] envelope_of(
        samples,
        window,
    )[i]).start == i * clamped(window) && i * clamped(window) < samples.len() by {
        lemma_window_fits(samples.len(), window, i as nat);
    }
}

/// Every amplitude of an envelope lies between zero and full scale; and
/// unless every sample of the buffer is zero, one window has full scale.
pub proof fn lemma_envelope_is_normalized(samples: Seq<i64>, window: nat)
    requires
        samples.len() <= usize::MAX,
        forall|j: int| 0 <= j < samples.len() ==> is_sample(#[trigger] samples[j] as int),
    ensures
        forall|i: int|
            0 <= i < envelope_of(samples, window).len() ==> (#[trigger] envelope_of(
                samples,
                window,
            )[i]).amplitude <= FULL_SCALE,
        (exists|j: int| 0 <= j < samples.len() && samples[j] != 0) ==> exists|i: int|
            0 <= i < envelope_of(samples, window).len() && (#[trigger] envelope_of(
                samples,
                window,
            )[i]).amplitude == FULL_SCALE,
        (forall|j: int| 0 <= j < samples.len() ==> samples[j] == 0) ==> forall|i: int|
            0 <= i < envelope_of(samples, window).len() ==> (#[trigger] envelope_of(
                samples,
                window,
            )[i]).amplitude == 0,
{
    let w = clamped(window) as int;
    let len = samples.len() as int;
    let count = window_count(samples.len(), window);
    let largest = level_max(samples, window);
    let envelope = envelope_of(samples, window);
    lemma_level_max(samples, window, count);
    assert forall|i: int| 0 <= i < count implies (#[trigger] envelope[i]).amplitude <= FULL_SCALE by {
        lemma_amplitude_bounds(window_level(samples, window, i), largest);
    }
    if exists|j: int| 0 <= j < samples.len() && samples[j] != 0 {
        let j = choose|j: int| 0 <= j < samples.len() && samples[j] != 0;
        let i = j / w;
        vstd::arithmetic::div_mod::lemma_fundamental_div_mod(j, w);
        vstd::arithmetic::div_mod::lemma_div_pos_is_pos(j, w);
        assert(i * w == w * i) by (nonlinear_arith);
        lemma_window_fits(samples.len(), window, i as nat);
        let start = i * w;
        let end = window_end(samples.len(), window, i);
        assert(start <= j < end);
        lemma_energy_bounds(samples, start, end);
        let s = samples[j];
        assert(s * s >= 1) by (nonlinear_arith)
            requires
                s != 0,
        ;
        assert(energy(samples, start, end) >= samples[j] * samples[j]);
        lemma_level_bounds(energy(samples, start, end), (end - start) as nat);
        assert(window_level(samples, window, i) > 0);
        assert(largest > 0);
        let m = choose|m: int| 0 <= m < count && #[trigger] window_level(samples, window, m) == largest;
        lemma_amplitude_bounds(largest, largest);
        assert(envelope[m].amplitude == FULL_SCALE);
    }
    if forall|j: int| 0 <= j < samples.len() ==> samples[j] == 0 {
        assert forall|i: int| 0 <= i < count implies (#[trigger] envelope[i]).amplitude == 0 by {
            lemma_window_fits(samples.len(), window, i as nat);
            let start = i * w;
            let end = window_end(samples.len(), window, i);
            lemma_energy_bounds(samples, start, end);
            assert(energy(samples, start, end) == 0);
            lemma_level_bounds(0, (end - start) as nat);
            lemma_amplitude_bounds(0, largest);
        }
    }
}

/// Computes the window length for a target rate.
pub fn window_size(sample_rate: u32, target_bits: u32) -> (window: usize)
    ensures
        window == window_size_spec(sample_rate, target_bits),
        window >= 1,
{
    let e: u32 = (target_bits / 0x80_0000) % 0x100;
    let f: u32 = target_bits % 0x80_0000;
    if e == 255 || target_bits >= 0x8000_0000u32 {
        return 1;
    }
    let sig: u64 = if e == 0 {
        f as u64
    } else {
        (f + 0x80_0000) as u64
    };
    if sig == 0 {
        return usize::MAX;
    }
    let p: i64 = if e == 0 {
        -149
    } else {
        e as i64 - 150
    };
    let rate: u128 = sample_rate as u128;
    proof {
        lemma2_to64();
        assert(sig == float_significand(target_bits));
        assert(p == float_power(target_bits));
    }
    let quotient: u128 = if p >= 32 {
        proof {
            if p > 32 {
                lemma_pow2_strictly_increases(32, p as nat);
            }
            assert(sig * pow2(p as nat) >= pow2(p as nat)) by (nonlinear_arith)
                requires
                    sig >= 1,
            ;
            vstd::arithmetic::div_mod::lemma_basic_div(rate as int, sig * pow2(p as nat));
        }
        0
    } else if p >= 0 {
        let scale: u128 = power_of_two(p as u32);
        proof {
            if p < 31 {
                lemma_pow2_strictly_increases(p as nat, 31);
            }
            lemma_pow2_pos(p as nat);
            assert(0 < sig * scale <= 0x100_0000 * 0x8000_0000) by (nonlinear_arith)
                requires
                    0 < sig < 0x100_0000,
                    0 < scale <= 0x8000_0000,
            ;
        }
        rate / (sig as u128 * scale)
    } else if sample_rate == 0 {
        proof {
            assert(0 * pow2((-p) as nat) == 0) by (nonlinear_arith);
        }
        0
    } else {
        let d: u32 = (0 - p) as u32;
        if d >= 88 {
            proof {
                if d > 88 {
                    lemma_pow2_strictly_increases(88, d as nat);
                }
                lemma_pow2_adds(64, 24);
                let big = rate as int * pow2(d as nat);
                assert(big >= 0x1_0000_0000_0000_0000 * sig) by (nonlinear_arith)
                    requires
                        big == rate as int * pow2(d as nat),
                        rate >= 1,
                        pow2(d as nat) >= 0x1_0000_0000_0000_0000 * 0x100_0000,
                        sig < 0x100_0000,
                ;
                vstd::arithmetic::div_mod::lemma_div_is_ordered(
                    0x1_0000_0000_0000_0000 * sig,
                    big,
                    sig as int,
                );
                vstd::arithmetic::div_mod::lemma_div_multiples_vanish(
                    0x1_0000_0000_0000_0000,
                    sig as int,
                );
            }
            return usize::MAX;
        }
        let first: u32 = if d > 64 {
            64
        } else {
            d
        };
        let high: u128 = power_of_two(first);
        let low: u128 = power_of_two(d - first);
        proof {
            lemma_pow2_adds(first as nat, (d - first) as nat);
            if d - first < 23 {
                lemma_pow2_strictly_increases((d - first) as nat, 23);
            }
            if first < 64 {
                lemma_pow2_strictly_increases(first as nat, 64);
            }
            assert(rate * high <= 0xffff_ffff * 0x1_0000_0000_0000_0000) by (nonlinear_arith)
                requires
                    rate <= 0xffff_ffff,
                    high <= 0x1_0000_0000_0000_0000,
            ;
            assert(rate * high * low <= 0xffff_ffff * 0x1_0000_0000_0000_0000 * 0x80_0000) by (nonlinear_arith)
                requires
                    rate * high <= 0xffff_ffff * 0x1_0000_0000_0000_0000,
                    low <= 0x80_0000,
            ;
            assert(rate * high * low == rate * (high * low)) by (nonlinear_arith);
        }
        (rate * high * low) / (sig as u128)
    };
    if quotient == 0 {
        1
    } else if quotient > usize::MAX as u128 {
        usize::MAX
    } else {
        quotient as usize
    }
}

} // verus!
