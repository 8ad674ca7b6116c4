//! RMS and peak level metering, and the analysis of single channels.
//!
//! What needs real arithmetic (roots, logarithms, means) is measured by functions that the
//! caller hands in; which samples they measure, and what is made of the result, is decided
//! here.

use vstd::prelude::*;
use vstd::slice::slice_subrange;

use crate::pcm::{above, magnitude_of, INFINITE};

verus! {

/// The bit pattern of -120 dBFS, the level of silence.
pub const SILENCE_DBFS: u32 = 0xC2F0_0000;

/// The bit pattern of 6 dB, by which a signal is louder than the noise floor.
pub const SIGNAL_MARGIN_DB: u32 = 0x40C0_0000;

/// Audio level measurements for a single metering window.
#[derive(Debug, Clone, Copy, PartialEq, Eq, Structural)]
pub struct LevelReading {
    pub rms_left: u32,
    pub rms_right: u32,
    pub peak_left: u32,
    pub peak_right: u32,
}

/// RMS and peak of a single channel.
#[derive(Debug, Clone, Copy, PartialEq, Eq, Structural)]
pub struct ChannelLevelReading {
    pub rms: u32,
    pub peak: u32,
}

/// The real arithmetic that the analysis of a channel rests on.
pub struct Arithmetic<R, M, L, S, D> {
    /// The root mean square of samples.
    pub rms: R,
    /// The mean of samples.
    pub mean: M,
    /// The level in decibels of an amplitude above zero.
    pub decibels: L,
    /// The sum of two numbers.
    pub sum: S,
    /// The difference of two numbers.
    pub difference: D,
}

/// Per-channel analysis result.
#[derive(Debug, Clone, Copy, PartialEq, Eq, Structural)]
pub struct ChannelAnalysis {
    pub rms: u32,
    pub peak: u32,
    pub rms_dbfs: u32,
    pub peak_dbfs: u32,
    pub noise_floor_dbfs: u32,
    pub dynamic_range_db: u32,
    pub has_signal: bool,
    pub dc_offset: u32,
}

/// How many of `len` interleaved samples belong to `channel` of `total`.
pub open spec fn channel_len(len: int, channel: int, total: int) -> int {
    if channel >= len {
        0
    } else {
        (len - channel - 1) / total + 1
    }
}

/// The samples of one channel: every `total`-th sample from position `channel` on.
pub open spec fn channel_of(samples: Seq<u32>, channel: int, total: int) -> Seq<u32> {
    Seq::new(
        channel_len(samples.len() as int, channel, total) as nat,
        |i: int| samples[channel + i * total],
    )
}

/// The largest magnitude of the samples that are numbers; zero if there are none.
pub open spec fn peak_of(samples: Seq<u32>) -> u32
    decreases samples.len(),
{
    if samples.len() == 0 {
        0
    } else {
        let before = peak_of(samples.drop_last());
        let size = crate::pcm::magnitude(samples.last());
        if before < size <= INFINITE {
            size
        } else {
            before
        }
    }
}

/// `measure`, handed `window`, can give `value`.
pub open spec fn measured<F: Fn(&[u32]) -> u32>(measure: F, window: Seq<u32>, value: u32) -> bool {
    exists|w: &[u32]| w@ == window && #[trigger] measure.ensures((w,), value)
}

/// `measure` takes any samples.
pub open spec fn measures_any<F: Fn(&[u32]) -> u32>(measure: F) -> bool {
    forall|w: &[u32]| #[trigger] measure.requires((w,))
}

/// The stereo reading of interleaved samples whose first two channels have the RMS levels
/// `rms_left` and `rms_right`. A single channel is shown on both sides.
pub open spec fn levels_of(
    samples: Seq<u32>,
    channels: u16,
    rms_left: u32,
    rms_right: u32,
) -> LevelReading {
    if samples.len() == 0 || channels == 0 {
        LevelReading { rms_left: 0, rms_right: 0, peak_left: 0, peak_right: 0 }
    } else {
        let left = channel_of(samples, 0, channels as int);
        let right = channel_of(samples, 1, channels as int);
        if channels == 1 {
            LevelReading {
                rms_left,
                rms_right: rms_left,
                peak_left: peak_of(left),
                peak_right: peak_of(left),
            }
        } else {
            LevelReading {
                rms_left,
                rms_right: if right.len() == 0 {
                    0
                } else {
                    rms_right
                },
                peak_left: peak_of(left),
                peak_right: peak_of(right),
            }
        }
    }
}

/// `reading` is what `rms` and the peaks say of interleaved samples.
pub open spec fn is_level_reading<F: Fn(&[u32]) -> u32>(
    rms: F,
    samples: Seq<u32>,
    channels: u16,
    reading: LevelReading,
) -> bool {
    &&& reading == levels_of(samples, channels, reading.rms_left, reading.rms_right)
    &&& samples.len() > 0 && channels > 0 ==> measured(
        rms,
        channel_of(samples, 0, channels as int),
        reading.rms_left,
    )
    &&& samples.len() > 1 && channels > 1 ==> measured(
        rms,
        channel_of(samples, 1, channels as int),
        reading.rms_right,
    )
}

/// `reading` is what `rms` and the peak say of the samples of one channel.
pub open spec fn is_channel_reading<F: Fn(&[u32]) -> u32>(
    rms: F,
    samples: Seq<u32>,
    reading: ChannelLevelReading,
) -> bool {
    &&& reading.peak == peak_of(samples)
    &&& if samples.len() == 0 {
        reading.rms == 0
    } else {
        measured(rms, samples, reading.rms)
    }
}

/// Values in ascending order.
pub open spec fn ascending(values: Seq<u32>) -> bool {
    forall|i: int, j: int| 0 <= i <= j < values.len() ==> values[i] <= values[j]
}

/// How many samples count as the quiet ones: a fifth, at least one.
pub open spec fn quiet_len(len: nat) -> nat {
    if len / 5 < 1 {
        1
    } else {
        len / 5
    }
}

/// `quiet` is the quietest fifth of the samples: their magnitudes, in ascending order.
pub open spec fn is_quiet_part(quiet: Seq<u32>, samples: Seq<u32>) -> bool {
    exists|ordered: Seq<u32>| #[trigger]
        is_ordering(ordered, samples) && quiet == ordered.take(quiet_len(samples.len()) as int)
}

/// `ordered` holds the magnitudes of the samples in ascending order.
pub open spec fn is_ordering(ordered: Seq<u32>, samples: Seq<u32>) -> bool {
    &&& ascending(ordered)
    &&& ordered.to_multiset() == crate::pcm::magnitudes(samples).to_multiset()
}

/// The analysis of a channel without samples.
pub open spec fn silent_analysis() -> ChannelAnalysis {
    ChannelAnalysis {
        rms: 0,
        peak: 0,
        rms_dbfs: SILENCE_DBFS,
        peak_dbfs: SILENCE_DBFS,
        noise_floor_dbfs: SILENCE_DBFS,
        dynamic_range_db: 0,
        has_signal: false,
        dc_offset: 0,
    }
}

/// `decibels` can be asked about any amplitude.
pub open spec fn converts_any<L: Fn(u32) -> u32>(decibels: L) -> bool {
    forall|linear: u32| #[trigger] decibels.requires((linear,))
}

/// `dbfs` is the level of an amplitude: that of silence unless the amplitude is above zero.
pub open spec fn is_level<L: Fn(u32) -> u32>(decibels: L, linear: u32, dbfs: u32) -> bool {
    if crate::pcm::is_above(linear, 0) || !crate::pcm::is_number(linear) {
        decibels.ensures((linear,), dbfs)
    } else {
        dbfs == SILENCE_DBFS
    }
}

/// The arithmetic takes any samples and numbers.
pub open spec fn computes_any<
    R: Fn(&[u32]) -> u32,
    M: Fn(&[u32]) -> u32,
    L: Fn(u32) -> u32,
    S: Fn(u32, u32) -> u32,
    D: Fn(u32, u32) -> u32,
>(arithmetic: Arithmetic<R, M, L, S, D>) -> bool {
    &&& measures_any(arithmetic.rms)
    &&& measures_any(arithmetic.mean)
    &&& converts_any(arithmetic.decibels)
    &&& forall|a: u32, b: u32| #[trigger] arithmetic.sum.requires((a, b))
    &&& forall|a: u32, b: u32| #[trigger] arithmetic.difference.requires((a, b))
}

/// `analysis` is the analysis of samples whose quiet part has the RMS level `noise`, where
/// a signal has to be louder than `bound`.
pub open spec fn rests_on<
    R: Fn(&[u32]) -> u32,
    M: Fn(&[u32]) -> u32,
    L: Fn(u32) -> u32,
    S: Fn(u32, u32) -> u32,
    D: Fn(u32, u32) -> u32,
>(
    arithmetic: Arithmetic<R, M, L, S, D>,
    samples: Seq<u32>,
    analysis: ChannelAnalysis,
    quiet: Seq<u32>,
    noise: u32,
    bound: u32,
) -> bool {
    &&& measured(arithmetic.rms, samples, analysis.rms)
    &&& analysis.peak == peak_of(samples)
    &&& is_quiet_part(quiet, samples)
    &&& measured(arithmetic.rms, quiet, noise)
    &&& is_level(arithmetic.decibels, analysis.rms, analysis.rms_dbfs)
    &&& is_level(arithmetic.decibels, analysis.peak, analysis.peak_dbfs)
    &&& is_level(arithmetic.decibels, noise, analysis.noise_floor_dbfs)
    &&& arithmetic.difference.ensures(
        (analysis.peak_dbfs, analysis.noise_floor_dbfs),
        analysis.dynamic_range_db,
    )
    &&& arithmetic.sum.ensures((analysis.noise_floor_dbfs, SIGNAL_MARGIN_DB), bound)
    &&& analysis.has_signal == crate::pcm::is_above(analysis.rms_dbfs, bound)
    &&& measured(arithmetic.mean, samples, analysis.dc_offset)
}

/// `analysis` is the analysis of a channel's samples: levels of the samples, of their peak
/// and of the quietest fifth, and whether the first stand out from the last.
pub open spec fn is_analysis<
    R: Fn(&[u32]) -> u32,
    M: Fn(&[u32]) -> u32,
    L: Fn(u32) -> u32,
    S: Fn(u32, u32) -> u32,
    D: Fn(u32, u32) -> u32,
>(arithmetic: Arithmetic<R, M, L, S, D>, samples: Seq<u32>, analysis: ChannelAnalysis) -> bool {
    if samples.len() == 0 {
        analysis == silent_analysis()
    } else {
        exists|quiet: Seq<u32>, noise: u32, bound: u32| #[trigger]
            rests_on(arithmetic, samples, analysis, quiet, noise, bound)
    }
}

/// The part that two channels have in common: the first samples of each, as many as both
/// have.
pub open spec fn common_len(a: Seq<u32>, b: Seq<u32>) -> int {
    if a.len() <= b.len() {
        a.len() as int
    } else {
        b.len() as int
    }
}

/// `correlate`, handed two rows of samples, can give `value`.
pub open spec fn correlated<C: Fn(&[u32], &[u32]) -> u32>(
    correlate: C,
    a: Seq<u32>,
    b: Seq<u32>,
    value: u32,
) -> bool {
    exists|x: &[u32], y: &[u32]|
        x@ == a && y@ == b && #[trigger] correlate.ensures((x, y), value)
}

/// `correlate` takes any two rows of samples.
pub open spec fn correlates_any<C: Fn(&[u32], &[u32]) -> u32>(correlate: C) -> bool {
    forall|a: &[u32], b: &[u32]| #[trigger] correlate.requires((a, b))
}

/// `value` is the correlation of two channels over the part that they have in common; zero
/// where they have none.
pub open spec fn is_correlation<C: Fn(&[u32], &[u32]) -> u32>(
    correlate: C,
    a: Seq<u32>,
    b: Seq<u32>,
    value: u32,
) -> bool {
    let n = common_len(a, b);
    if n == 0 {
        value == 0
    } else {
        correlated(correlate, a.take(n), b.take(n), value)
    }
}

/// Calls `sort_unstable` of std on integers: the same values, in ascending order.
#[verifier::external_body]
fn sort_ascending(values: &mut Vec<u32>)
    ensures
        ascending(final(values)@),
        final(values)@.to_multiset() == old(values)@.to_multiset(),
{
    values.sort_unstable();
}

/// Extracts the samples of a single channel from interleaved audio.
pub fn deinterleave_channel(samples: &[u32], channel: usize, total_channels: usize) -> (mono: Vec<
    u32,
>)
    requires
        total_channels > 0,
    ensures
        mono@ == channel_of(samples@, channel as int, total_channels as int),
{
    let mut mono: Vec<u32> = Vec::new();
    if channel >= samples.len() {
        assert(mono@ =~= channel_of(samples@, channel as int, total_channels as int));
        return mono;
    }
    let mut at: usize = channel;
    assert(mono@.len() * total_channels == 0) by (nonlinear_arith)
        requires
            mono@.len() == 0,
    ;
    loop
        invariant
            total_channels > 0,
            at < samples.len(),
            at == channel + mono@.len() * total_channels,
            forall|i: int|
                0 <= i < mono@.len() ==> #[trigger] mono@[i] == samples@[channel + i
                    * total_channels],
        decreases samples.len() - at,
    {
        mono.push(samples[at]);
        if samples.len() - at <= total_channels {
            proof {
                let len = samples@.len() as int;
                let count = mono@.len() as int;
                let total = total_channels as int;
                assert((len - channel - 1) / total == count - 1) by (nonlinear_arith)
                    requires
                        total > 0,
                        at == channel + (count - 1) * total,
                        at < len,
                        len - at <= total,
                ;
                assert(mono@ =~= channel_of(samples@, channel as int, total));
            }
            return mono;
        }
        proof {
            let count = mono@.len() as int;
            assert(at + total_channels == channel + count * total_channels) by (nonlinear_arith)
                requires
                    at == channel + (count - 1) * total_channels,
            ;
        }
        at = at + total_channels;
    }
}

/// The largest magnitude of the samples that are numbers.
pub fn channel_peak(samples: &[u32]) -> (peak: u32)
    ensures
        peak == peak_of(samples@),
{
    let mut peak: u32 = 0;
    let mut i: usize = 0;
    assert(samples@.take(0) =~= Seq::<u32>::empty());
    while i < samples.len()
        invariant
            i <= samples@.len(),
            peak == peak_of(samples@.take(i as int)),
        decreases samples@.len() - i,
    {
        let size: u32 = magnitude_of(samples[i]);
        if size <= INFINITE && size > peak {
            peak = size;
        }
        i += 1;
        assert(samples@.take(i as int).drop_last() =~= samples@.take(i - 1));
        assert(samples@.take(i as int).last() == samples@[i - 1]);
    }
    assert(samples@.take(i as int) =~= samples@);
    peak
}

/// Computes RMS and peak levels from interleaved samples; `rms` is the root mean square of
/// samples.
pub fn compute_levels<F: Fn(&[u32]) -> u32>(samples: &[u32], channels: u16, rms: &F) -> (reading:
    LevelReading)
    requires
        measures_any(*rms),
    ensures
        is_level_reading(*rms, samples@, channels, reading),
{
    if samples.len() == 0 || channels == 0 {
        return LevelReading { rms_left: 0, rms_right: 0, peak_left: 0, peak_right: 0 };
    }
    let left = deinterleave_channel(samples, 0, channels as usize);
    let rms_left: u32 = rms(left.as_slice());
    let peak_left: u32 = channel_peak(left.as_slice());
    if channels == 1 {
        return LevelReading { rms_left, rms_right: rms_left, peak_left, peak_right: peak_left };
    }
    let right = deinterleave_channel(samples, 1, channels as usize);
    let peak_right: u32 = channel_peak(right.as_slice());
    proof {
        let len = samples@.len() as int;
        if len > 1 {
            assert((len - 2) / (channels as int) >= 0) by (nonlinear_arith)
                requires
                    len > 1,
                    channels > 0,
            ;
        }
    }
    let rms_right: u32 = if right.len() > 0 {
        rms(right.as_slice())
    } else {
        0
    };
    LevelReading { rms_left, rms_right, peak_left, peak_right }
}

/// Computes RMS and peak levels from the samples of one channel.
pub fn compute_channel_level<F: Fn(&[u32]) -> u32>(samples: &[u32], rms: &F) -> (reading:
    ChannelLevelReading)
    requires
        measures_any(*rms),
    ensures
        is_channel_reading(*rms, samples@, reading),
{
    if samples.len() == 0 {
        return ChannelLevelReading { rms: 0, peak: 0 };
    }
    ChannelLevelReading { rms: rms(samples), peak: channel_peak(samples) }
}

/// The magnitudes of the quietest fifth of the samples, in ascending order.
pub fn quiet_part(samples: &[u32]) -> (quiet: Vec<u32>)
    requires
        samples@.len() > 0,
    ensures
        is_quiet_part(quiet@, samples@),
{
    let mut sizes: Vec<u32> = Vec::new();
    let mut i: usize = 0;
    while i < samples.len()
        invariant
            i <= samples@.len(),
            sizes@ == crate::pcm::magnitudes(samples@.take(i as int)),
        decreases samples@.len() - i,
    {
        sizes.push(magnitude_of(samples[i]));
        i += 1;
        assert(sizes@ =~= crate::pcm::magnitudes(samples@.take(i as int)));
    }
    assert(samples@.take(i as int) =~= samples@);
    let ghost unordered = sizes@;
    sort_ascending(&mut sizes);
    let ghost ordered = sizes@;
    proof {
        assert(is_ordering(ordered, samples@));
        unordered.to_multiset_ensures();
        ordered.to_multiset_ensures();
    }
    let mut quiet_end: usize = samples.len() / 5;
    if quiet_end < 1 {
        quiet_end = 1;
    }
    sizes.truncate(quiet_end);
    assert(sizes@ =~= ordered.take(quiet_len(samples@.len()) as int));
    sizes
}

/// Converts a linear amplitude to dBFS, where 0 dBFS is full scale; `decibels` is the
/// logarithm.
pub fn to_dbfs<L: Fn(u32) -> u32>(linear: u32, decibels: &L) -> (dbfs: u32)
    requires
        converts_any(*decibels),
    ensures
        is_level(*decibels, linear, dbfs),
{
    if above(linear, 0) || magnitude_of(linear) > INFINITE {
        decibels(linear)
    } else {
        SILENCE_DBFS
    }
}

/// Analyzes the samples of one channel. The noise floor is the level of the quietest fifth,
/// and there is a signal where the samples are more than 6 dB above it.
pub fn analyze_channel<
    R: Fn(&[u32]) -> u32,
    M: Fn(&[u32]) -> u32,
    L: Fn(u32) -> u32,
    S: Fn(u32, u32) -> u32,
    D: Fn(u32, u32) -> u32,
>(samples: &[u32], arithmetic: &Arithmetic<R, M, L, S, D>) -> (analysis: ChannelAnalysis)
    requires
        computes_any(*arithmetic),
    ensures
        is_analysis(*arithmetic, samples@, analysis),
{
    if samples.len() == 0 {
        return ChannelAnalysis {
            rms: 0,
            peak: 0,
            rms_dbfs: SILENCE_DBFS,
            peak_dbfs: SILENCE_DBFS,
            noise_floor_dbfs: SILENCE_DBFS,
            dynamic_range_db: 0,
            has_signal: false,
            dc_offset: 0,
        };
    }
    let dc_offset: u32 = (arithmetic.mean)(samples);
    let rms: u32 = (arithmetic.rms)(samples);
    let peak: u32 = channel_peak(samples);
    let quiet = quiet_part(samples);
    let noise: u32 = (arithmetic.rms)(quiet.as_slice());
    let rms_dbfs: u32 = to_dbfs(rms, &arithmetic.decibels);
    let peak_dbfs: u32 = to_dbfs(peak, &arithmetic.decibels);
    let noise_floor_dbfs: u32 = to_dbfs(noise, &arithmetic.decibels);
    let dynamic_range_db: u32 = (arithmetic.difference)(peak_dbfs, noise_floor_dbfs);
    let bound: u32 = (arithmetic.sum)(noise_floor_dbfs, SIGNAL_MARGIN_DB);
    let analysis = ChannelAnalysis {
        rms,
        peak,
        rms_dbfs,
        peak_dbfs,
        noise_floor_dbfs,
        dynamic_range_db,
        has_signal: above(rms_dbfs, bound),
        dc_offset,
    };
    assert(rests_on(*arithmetic, samples@, analysis, quiet@, noise, bound));
    analysis
}

/// Computes the correlation of two channels over the part that they have in common;
/// `correlate` is the Pearson correlation coefficient of two rows of the same length.
pub fn channel_correlation<C: Fn(&[u32], &[u32]) -> u32>(
    ch0: &Vec<u32>,
    ch1: &Vec<u32>,
    correlate: &C,
) -> (value: u32)
    requires
        correlates_any(*correlate),
    ensures
        is_correlation(*correlate, ch0@, ch1@, value),
{
    let n: usize = if ch0.len() <= ch1.len() {
        ch0.len()
    } else {
        ch1.len()
    };
    if n == 0 {
        return 0;
    }
    let a = slice_subrange(ch0.as_slice(), 0, n);
    let b = slice_subrange(ch1.as_slice(), 0, n);
    let value: u32 = correlate(a, b);
    proof {
        assert(a@ =~= ch0@.take(n as int));
        assert(b@ =~= ch1@.take(n as int));
        assert(correlated(*correlate, ch0@.take(n as int), ch1@.take(n as int), value));
    }
    value
}

/// The peak is at least the magnitude of every sample that is a number, and it is the
/// magnitude of one of them unless it is zero.
pub proof fn law_peak(samples: Seq<u32>)
    ensures
        peak_of(samples) <= INFINITE,
        forall|i: int|
            0 <= i < samples.len() && crate::pcm::is_number(#[trigger] samples[i])
                ==> crate::pcm::magnitude(samples[i]) <= peak_of(samples),
        peak_of(samples) == 0 || exists|i: int|
            0 <= i < samples.len() && crate::pcm::magnitude(#[trigger] samples[i]) == peak_of(
                samples,
            ),
    decreases samples.len(),
{
    if samples.len() > 0 {
        let shorter = samples.drop_last();
        law_peak(shorter);
        assert forall|i: int|
            0 <= i < samples.len() && crate::pcm::is_number(
                #[trigger] samples[i],
            ) implies crate::pcm::magnitude(samples[i]) <= peak_of(samples) by {
            if i < shorter.len() {
                assert(shorter[i] == samples[i]);
            }
        }
        if peak_of(samples) != 0 {
            if peak_of(samples) == peak_of(shorter) {
                let i = choose|i: int|
                    0 <= i < shorter.len() && crate::pcm::magnitude(#[trigger] shorter[i])
                        == peak_of(shorter);
                assert(samples[i] == shorter[i]);
            } else {
                assert(samples[samples.len() - 1] == samples.last());
            }
        }
    }
}

/// Splitting into channels loses nothing: sample number `k` of all is sample number
/// `k / total` of channel `k % total`.
pub proof fn law_split_keeps_every_sample(samples: Seq<u32>, total: int, k: int)
    requires
        total > 0,
        0 <= k < samples.len(),
    ensures
        0 <= k % total < total,
        0 <= k / total < channel_of(samples, k % total, total).len(),
        channel_of(samples, k % total, total)[k / total] == samples[k],
{
    let len = samples.len() as int;
    let channel = k % total;
    let i = k / total;
    assert(k == channel + i * total && 0 <= channel < total && 0 <= i) by (nonlinear_arith)
        requires
            0 <= k,
            total > 0,
            channel == k % total,
            i == k / total,
    ;
    assert((len - channel - 1) / total >= i) by (nonlinear_arith)
        requires
            total > 0,
            k == channel + i * total,
            k < len,
    ;
    assert(channel < len) by (nonlinear_arith)
        requires
            k == channel + i * total,
            k < len,
            0 <= i,
            total > 0,
    ;
}

/// Splitting into channels invents nothing: sample number `i` of channel `channel` is sample
/// number `channel + i * total` of all, which belongs to no other channel and place.
pub proof fn law_split_adds_no_sample(samples: Seq<u32>, total: int, channel: int, i: int)
    requires
        0 <= channel < total,
        0 <= i < channel_of(samples, channel, total).len(),
    ensures
        0 <= channel + i * total < samples.len(),
        (channel + i * total) % total == channel,
        (channel + i * total) / total == i,
        channel_of(samples, channel, total)[i] == samples[channel + i * total],
{
    lemma_channel_index(samples.len() as int, channel, i, total);
}

/// Where a sample of a channel stands among all samples.
proof fn lemma_channel_index(len: int, channel: int, i: int, total: int)
    requires
        0 <= channel < total,
        0 <= i < channel_len(len, channel, total),
    ensures
        0 <= channel + i * total < len,
        (channel + i * total) % total == channel,
        (channel + i * total) / total == i,
{
    assert(channel + i * total < len && 0 <= i * total) by (nonlinear_arith)
        requires
            0 <= i <= (len - channel - 1) / total,
            total > 0,
            channel < len,
    ;
    vstd::arithmetic::div_mod::lemma_fundamental_div_mod_converse(
        channel + i * total,
        total,
        i,
        channel,
    );
}

/// Splitting goes on from window to window: after samples that fill their frames, each
/// channel of further samples follows that channel of the first.
pub proof fn law_channels_join(a: Seq<u32>, b: Seq<u32>, channel: int, total: int)
    requires
        0 <= channel < total,
        a.len() as int % total == 0,
    ensures
        channel_of(a + b, channel, total) == channel_of(a, channel, total) + channel_of(
            b,
            channel,
            total,
        ),
{
    let frames = a.len() as int / total;
    let len = a.len() as int;
    let more = b.len() as int;
    vstd::arithmetic::div_mod::lemma_fundamental_div_mod(len, total);
    assert(frames >= 0) by (nonlinear_arith)
        requires
            frames == len / total,
            len >= 0,
            total > 0,
    ;
    assert(len == frames * total) by (nonlinear_arith)
        requires
            len == total * frames,
    ;
    assert(channel_len(len, channel, total) == frames) by {
        if frames > 0 {
            assert(frames * total >= total && len - channel - 1 == (frames - 1) * total + (total
                - channel - 1)) by (nonlinear_arith)
                requires
                    frames >= 1,
                    total > 0,
                    len == frames * total,
            ;
            vstd::arithmetic::div_mod::lemma_fundamental_div_mod_converse(
                len - channel - 1,
                total,
                frames - 1,
                total - channel - 1,
            );
        } else {
            assert(len == 0) by (nonlinear_arith)
                requires
                    len == frames * total,
                    frames == 0,
            ;
        }
    }
    assert(channel_len(len + more, channel, total) == frames + channel_len(more, channel, total)) by {
        if channel < more {
            vstd::arithmetic::div_mod::lemma_hoist_over_denominator(
                more - channel - 1,
                frames,
                total as nat,
            );
        } else if frames > 0 {
            assert(frames * total >= total) by (nonlinear_arith)
                requires
                    frames >= 1,
                    total > 0,
            ;
            assert(len + more - channel - 1 == (frames - 1) * total + (total + more - channel - 1))
                by (nonlinear_arith)
                requires
                    len == frames * total,
            ;
            vstd::arithmetic::div_mod::lemma_fundamental_div_mod_converse(
                len + more - channel - 1,
                total,
                frames - 1,
                total + more - channel - 1,
            );
        } else {
            assert(len == 0) by (nonlinear_arith)
                requires
                    len == frames * total,
                    frames == 0,
            ;
        }
    }
    let joined = channel_of(a + b, channel, total);
    let apart = channel_of(a, channel, total) + channel_of(b, channel, total);
    assert(joined.len() == apart.len()) by {
        assert(channel_len(more, channel, total) >= 0) by {
            if channel < more {
                assert((more - channel - 1) / total >= 0) by (nonlinear_arith)
                    requires
                        channel < more,
                        total > 0,
                ;
            }
        }
    }
    assert forall|i: int| 0 <= i < joined.len() implies joined[i] == apart[i] by {
        lemma_channel_index(len + more, channel, i, total);
        if i < frames {
            lemma_channel_index(len, channel, i, total);
        } else {
            lemma_channel_index(more, channel, i - frames, total);
            assert(channel + i * total == len + (channel + (i - frames) * total))
                by (nonlinear_arith)
                requires
                    len == frames * total,
            ;
        }
    }
    assert(joined =~= apart);
}

/// The samples fix the quiet part.
pub proof fn law_quiet_part_unique(samples: Seq<u32>, a: Seq<u32>, b: Seq<u32>)
    requires
        is_quiet_part(a, samples),
        is_quiet_part(b, samples),
    ensures
        a == b,
{
    let x = choose|ordered: Seq<u32>| #[trigger]
        is_ordering(ordered, samples) && a == ordered.take(quiet_len(samples.len()) as int);
    let y = choose|ordered: Seq<u32>| #[trigger]
        is_ordering(ordered, samples) && b == ordered.take(quiet_len(samples.len()) as int);
    let leq = |p: u32, q: u32| p <= q;
    assert(vstd::relations::sorted_by(x, leq));
    assert(vstd::relations::sorted_by(y, leq));
    assert(vstd::relations::total_ordering(leq));
    vstd::seq_lib::lemma_sorted_unique(x, y, leq);
}

/// The level of an amplitude that is not above zero is the floor, whatever logarithm is used.
pub proof fn law_silence_is_the_floor<L: Fn(u32) -> u32>(decibels: L, linear: u32, dbfs: u32)
    requires
        crate::pcm::is_number(linear),
        !crate::pcm::is_above(linear, 0),
        is_level(decibels, linear, dbfs),
    ensures
        dbfs == SILENCE_DBFS,
{
}

/// A channel has a signal if and only if its level is above its noise floor raised by the
/// margin.
pub proof fn law_signal_is_above_noise<
    R: Fn(&[u32]) -> u32,
    M: Fn(&[u32]) -> u32,
    L: Fn(u32) -> u32,
    S: Fn(u32, u32) -> u32,
    D: Fn(u32, u32) -> u32,
>(arithmetic: Arithmetic<R, M, L, S, D>, samples: Seq<u32>, analysis: ChannelAnalysis)
    requires
        samples.len() > 0,
        is_analysis(arithmetic, samples, analysis),
    ensures
        exists|bound: u32| #[trigger]
            arithmetic.sum.ensures((analysis.noise_floor_dbfs, SIGNAL_MARGIN_DB), bound)
                && analysis.has_signal == crate::pcm::is_above(analysis.rms_dbfs, bound),
{
}

/// A source with a single channel reads the same on both sides.
pub proof fn law_mono_mirrored(samples: Seq<u32>, rms_left: u32, rms_right: u32)
    ensures
        ({
            let reading = levels_of(samples, 1, rms_left, rms_right);
            reading.rms_left == reading.rms_right && reading.peak_left == reading.peak_right
        }),
{
}

/// `measure` gives one value for the same samples.
pub open spec fn measures_alike<F: Fn(&[u32]) -> u32>(measure: F) -> bool {
    forall|v: &[u32], w: &[u32], a: u32, b: u32|
        v@ == w@ && #[trigger] measure.ensures((v,), a) && #[trigger] measure.ensures((w,), b) ==> a
            == b
}

/// `convert` gives one value for the same number.
pub open spec fn converts_alike<L: Fn(u32) -> u32>(convert: L) -> bool {
    forall|x: u32, a: u32, b: u32| #[trigger]
        convert.ensures((x,), a) && #[trigger] convert.ensures((x,), b) ==> a == b
}

/// `combine` gives one value for the same two numbers.
pub open spec fn combines_alike<S: Fn(u32, u32) -> u32>(combine: S) -> bool {
    forall|x: u32, y: u32, a: u32, b: u32| #[trigger]
        combine.ensures((x, y), a) && #[trigger] combine.ensures((x, y), b) ==> a == b
}

/// Each side of a stereo reading is a reading of one channel: the left side of the first, the
/// right side of the second or, where there is only one, of that one.
pub proof fn law_sides_are_channels<F: Fn(&[u32]) -> u32>(
    rms: F,
    samples: Seq<u32>,
    channels: u16,
    reading: LevelReading,
)
    requires
        channels > 0,
        is_level_reading(rms, samples, channels, reading),
    ensures
        is_channel_reading(
            rms,
            channel_of(samples, 0, channels as int),
            (ChannelLevelReading { rms: reading.rms_left, peak: reading.peak_left }),
        ),
        is_channel_reading(
            rms,
            channel_of(
                samples,
                if channels == 1 {
                    0
                } else {
                    1
                },
                channels as int,
            ),
            (ChannelLevelReading { rms: reading.rms_right, peak: reading.peak_right }),
        ),
{
    let len = samples.len() as int;
    let total = channels as int;
    if len > 0 {
        assert((len - 1) / total >= 0) by (nonlinear_arith)
            requires
                len > 0,
                total > 0,
        ;
    }
    if len > 1 {
        assert((len - 2) / total >= 0) by (nonlinear_arith)
            requires
                len > 1,
                total > 0,
        ;
    }
}

/// The stereo meter agrees with the single-channel meter on the first two channels; a single
/// channel counts for both sides, and further channels do not matter.
pub proof fn law_stereo_is_two_channels<F: Fn(&[u32]) -> u32>(
    rms: F,
    samples: Seq<u32>,
    channels: u16,
    reading: LevelReading,
    left: ChannelLevelReading,
    right: ChannelLevelReading,
)
    requires
        measures_alike(rms),
        channels > 0,
        is_level_reading(rms, samples, channels, reading),
        is_channel_reading(rms, channel_of(samples, 0, channels as int), left),
        is_channel_reading(
            rms,
            channel_of(
                samples,
                if channels == 1 {
                    0
                } else {
                    1
                },
                channels as int,
            ),
            right,
        ),
    ensures
        reading.rms_left == left.rms,
        reading.peak_left == left.peak,
        reading.rms_right == right.rms,
        reading.peak_right == right.peak,
{
    law_sides_are_channels(rms, samples, channels, reading);
}

/// RMS and peak of an analysis are a reading of the light meter.
pub proof fn law_analysis_is_a_reading<
    R: Fn(&[u32]) -> u32,
    M: Fn(&[u32]) -> u32,
    L: Fn(u32) -> u32,
    S: Fn(u32, u32) -> u32,
    D: Fn(u32, u32) -> u32,
>(arithmetic: Arithmetic<R, M, L, S, D>, samples: Seq<u32>, analysis: ChannelAnalysis)
    requires
        is_analysis(arithmetic, samples, analysis),
    ensures
        is_channel_reading(
            arithmetic.rms,
            samples,
            (ChannelLevelReading { rms: analysis.rms, peak: analysis.peak }),
        ),
{
}

/// The detailed and the light meter agree on RMS and peak.
pub proof fn law_meters_agree<
    R: Fn(&[u32]) -> u32,
    M: Fn(&[u32]) -> u32,
    L: Fn(u32) -> u32,
    S: Fn(u32, u32) -> u32,
    D: Fn(u32, u32) -> u32,
>(
    arithmetic: Arithmetic<R, M, L, S, D>,
    samples: Seq<u32>,
    analysis: ChannelAnalysis,
    reading: ChannelLevelReading,
)
    requires
        measures_alike(arithmetic.rms),
        is_analysis(arithmetic, samples, analysis),
        is_channel_reading(arithmetic.rms, samples, reading),
    ensures
        analysis.rms == reading.rms,
        analysis.peak == reading.peak,
{
}

/// The samples with their signs turned.
pub open spec fn negated(samples: Seq<u32>) -> Seq<u32> {
    samples.map_values(|sample: u32| crate::pcm::negation(sample))
}

/// Turning the signs of all samples keeps their peak and their quiet part.
pub proof fn law_signs_do_not_matter(samples: Seq<u32>)
    ensures
        peak_of(negated(samples)) == peak_of(samples),
        forall|quiet: Seq<u32>|
            is_quiet_part(quiet, negated(samples)) == is_quiet_part(quiet, samples),
    decreases samples.len(),
{
    assert(crate::pcm::magnitudes(negated(samples)) =~= crate::pcm::magnitudes(samples));
    assert forall|quiet: Seq<u32>|
        is_quiet_part(quiet, negated(samples)) == is_quiet_part(quiet, samples) by {
        if is_quiet_part(quiet, samples) {
            let ordered = choose|ordered: Seq<u32>| #[trigger]
                is_ordering(ordered, samples) && quiet == ordered.take(
                    quiet_len(samples.len()) as int,
                );
            assert(is_ordering(ordered, negated(samples)));
        }
        if is_quiet_part(quiet, negated(samples)) {
            let ordered = choose|ordered: Seq<u32>| #[trigger]
                is_ordering(ordered, negated(samples)) && quiet == ordered.take(
                    quiet_len(samples.len()) as int,
                );
            assert(is_ordering(ordered, samples));
        }
    }
    if samples.len() > 0 {
        let shorter = samples.drop_last();
        law_signs_do_not_matter(shorter);
        assert(negated(samples).drop_last() =~= negated(shorter));
        assert(negated(samples).last() == crate::pcm::negation(samples.last()));
    }
}

/// All samples are finite numbers.
pub open spec fn all_finite(samples: Seq<u32>) -> bool {
    forall|i: int| 0 <= i < samples.len() ==> crate::pcm::is_finite(#[trigger] samples[i])
}

/// `rms` goes by the magnitudes of finite samples alone.
pub open spec fn goes_by_magnitude<F: Fn(&[u32]) -> u32>(rms: F) -> bool {
    forall|v: &[u32], w: &[u32], a: u32, b: u32|
        all_finite(v@) && crate::pcm::magnitudes(v@) == crate::pcm::magnitudes(w@)
            && #[trigger] rms.ensures((v,), a) && #[trigger] rms.ensures((w,), b) ==> a == b
}

/// `mean` changes its sign with the signs of finite samples.
pub open spec fn follows_signs<F: Fn(&[u32]) -> u32>(mean: F) -> bool {
    forall|v: &[u32], w: &[u32], a: u32, b: u32|
        all_finite(v@) && w@ == negated(v@) && #[trigger] mean.ensures((v,), a)
            && #[trigger] mean.ensures((w,), b) ==> crate::pcm::rank(b) == -crate::pcm::rank(a)
}

/// Two measurements of the same magnitudes agree.
proof fn lemma_same_magnitudes<F: Fn(&[u32]) -> u32>(
    rms: F,
    v: Seq<u32>,
    w: Seq<u32>,
    a: u32,
    b: u32,
)
    requires
        goes_by_magnitude(rms),
        all_finite(v),
        crate::pcm::magnitudes(v) == crate::pcm::magnitudes(w),
        measured(rms, v, a),
        measured(rms, w, b),
    ensures
        a == b,
{
}

/// The quiet part of finite samples is finite.
proof fn lemma_quiet_part_finite(samples: Seq<u32>, quiet: Seq<u32>)
    requires
        samples.len() > 0,
        all_finite(samples),
        is_quiet_part(quiet, samples),
    ensures
        all_finite(quiet),
{
    let ordered = choose|ordered: Seq<u32>| #[trigger]
        is_ordering(ordered, samples) && quiet == ordered.take(quiet_len(samples.len()) as int);
    let sizes = crate::pcm::magnitudes(samples);
    ordered.to_multiset_ensures();
    sizes.to_multiset_ensures();
    assert forall|i: int| 0 <= i < quiet.len() implies crate::pcm::is_finite(
        #[trigger] quiet[i],
    ) by {
        assert(ordered.contains(ordered[i]));
        assert(ordered.to_multiset().count(ordered[i]) > 0);
        assert(sizes.contains(ordered[i]));
        let k = choose|k: int| 0 <= k < sizes.len() && sizes[k] == ordered[i];
        assert(crate::pcm::is_finite(samples[k]));
    }
}

/// Turning the signs of all samples turns the sign of the DC offset and changes nothing else
/// of an analysis, where the arithmetic itself goes by the signs in this way.
pub proof fn law_negation_turns_the_offset<
    R: Fn(&[u32]) -> u32,
    M: Fn(&[u32]) -> u32,
    L: Fn(u32) -> u32,
    S: Fn(u32, u32) -> u32,
    D: Fn(u32, u32) -> u32,
>(
    arithmetic: Arithmetic<R, M, L, S, D>,
    samples: Seq<u32>,
    a: ChannelAnalysis,
    b: ChannelAnalysis,
)
    requires
        goes_by_magnitude(arithmetic.rms),
        follows_signs(arithmetic.mean),
        converts_alike(arithmetic.decibels),
        combines_alike(arithmetic.sum),
        combines_alike(arithmetic.difference),
        all_finite(samples),
        is_analysis(arithmetic, samples, a),
        is_analysis(arithmetic, negated(samples), b),
    ensures
        crate::pcm::rank(b.dc_offset) == -crate::pcm::rank(a.dc_offset),
        b == (ChannelAnalysis { dc_offset: b.dc_offset, ..a }),
{
    if samples.len() > 0 {
        let turned = negated(samples);
        law_signs_do_not_matter(samples);
        assert(crate::pcm::magnitudes(turned) =~= crate::pcm::magnitudes(samples));
        let (p, x, y) = choose|quiet: Seq<u32>, noise: u32, bound: u32| #[trigger]
            rests_on(arithmetic, samples, a, quiet, noise, bound);
        let (q, u, v) = choose|quiet: Seq<u32>, noise: u32, bound: u32| #[trigger]
            rests_on(arithmetic, turned, b, quiet, noise, bound);
        assert(is_quiet_part(q, samples));
        law_quiet_part_unique(samples, p, q);
        lemma_quiet_part_finite(samples, p);
        lemma_same_magnitudes(arithmetic.rms, samples, turned, a.rms, b.rms);
        lemma_same_magnitudes(arithmetic.rms, p, q, x, u);
        assert(a.peak == b.peak);
        assert(a.rms_dbfs == b.rms_dbfs);
        assert(a.peak_dbfs == b.peak_dbfs);
        assert(a.noise_floor_dbfs == b.noise_floor_dbfs);
        assert(y == v);
    }
}

/// Only the common beginning of two channels matters for their correlation.
pub proof fn law_correlation_of_common_part<C: Fn(&[u32], &[u32]) -> u32>(
    correlate: C,
    a: Seq<u32>,
    b: Seq<u32>,
    value: u32,
)
    ensures
        is_correlation(correlate, a, b, value) == is_correlation(
            correlate,
            a.take(common_len(a, b)),
            b.take(common_len(a, b)),
            value,
        ),
{
    let n = common_len(a, b);
    assert(a.take(n).take(n) =~= a.take(n));
    assert(b.take(n).take(n) =~= b.take(n));
}

/// Channels of the same length are correlated as they are: the value is the coefficient of
/// both rows, for a channel with itself as for any other.
pub proof fn law_correlation_of_whole_channels<C: Fn(&[u32], &[u32]) -> u32>(
    correlate: C,
    a: Seq<u32>,
    b: Seq<u32>,
    value: u32,
)
    requires
        a.len() == b.len(),
        a.len() > 0,
    ensures
        is_correlation(correlate, a, b, value) == correlated(correlate, a, b, value),
{
    assert(a.take(a.len() as int) =~= a);
    assert(b.take(b.len() as int) =~= b);
}

/// `correlate` gives one value for the same two rows, in whatever order.
pub open spec fn correlates_both_ways<C: Fn(&[u32], &[u32]) -> u32>(correlate: C) -> bool {
    forall|v: &[u32], w: &[u32], x: &[u32], y: &[u32], a: u32, b: u32|
        v@ == y@ && w@ == x@ && #[trigger] correlate.ensures((v, w), a)
            && #[trigger] correlate.ensures((x, y), b) ==> a == b
}

/// Correlation is symmetric where the coefficient is.
pub proof fn law_correlation_is_symmetric<C: Fn(&[u32], &[u32]) -> u32>(
    correlate: C,
    a: Seq<u32>,
    b: Seq<u32>,
    there: u32,
    back: u32,
)
    requires
        correlates_both_ways(correlate),
        is_correlation(correlate, a, b, there),
        is_correlation(correlate, b, a, back),
    ensures
        there == back,
{
}

/// A channel consists of every sample that lies a whole number of frames behind its first, up
/// to the end.
pub proof fn law_channel_is_every_nth(samples: Seq<u32>, channel: int, total: int)
    requires
        0 <= channel,
        total > 0,
    ensures
        channel_of(samples, channel, total).len() == 0 <==> channel >= samples.len(),
        samples.len() <= channel + channel_of(samples, channel, total).len() * total,
        channel < samples.len() ==> channel + (channel_of(samples, channel, total).len() - 1)
            * total < samples.len(),
        forall|i: int|
            0 <= i < channel_of(samples, channel, total).len() ==> #[trigger] channel_of(
                samples,
                channel,
                total,
            )[i] == samples[channel + i * total],
{
    let len = samples.len() as int;
    if channel < len {
        let q = (len - channel - 1) / total;
        assert(q >= 0 && q * total <= len - channel - 1 < (q + 1) * total) by (nonlinear_arith)
            requires
                q == (len - channel - 1) / total,
                channel < len,
                total > 0,
        ;
    } else {
        assert(0 * total == 0) by (nonlinear_arith);
    }
}

/// The quiet part of samples is a fifth of them, rounded down, and at least one: the
/// magnitudes of those that are left out are no smaller than any that is kept.
pub proof fn law_quiet_part_is_the_quietest_fifth(samples: Seq<u32>, quiet: Seq<u32>)
    requires
        samples.len() > 0,
        is_quiet_part(quiet, samples),
    ensures
        samples.len() < 5 ==> quiet.len() == 1,
        samples.len() >= 5 ==> 5 * quiet.len() <= samples.len() < 5 * (quiet.len() + 1),
        forall|i: int, j: int| 0 <= i <= j < quiet.len() ==> quiet[i] <= quiet[j],
        exists|rest: Seq<u32>|
            {
                &&& #[trigger] (quiet + rest).to_multiset() == crate::pcm::magnitudes(
                    samples,
                ).to_multiset()
                &&& forall|i: int, j: int|
                    0 <= i < quiet.len() && 0 <= j < rest.len() ==> quiet[i] <= rest[j]
            },
{
    let ordered = choose|ordered: Seq<u32>| #[trigger]
        is_ordering(ordered, samples) && quiet == ordered.take(quiet_len(samples.len()) as int);
    let sizes = crate::pcm::magnitudes(samples);
    ordered.to_multiset_ensures();
    sizes.to_multiset_ensures();
    assert(ordered.len() == samples.len());
    let rest = ordered.skip(quiet.len() as int);
    assert(quiet + rest =~= ordered);
    assert((quiet + rest).to_multiset() == sizes.to_multiset());
}

/// The left side of a stereo reading is measured on the samples of the first channel and the
/// right side on those of the second, or of the first where there is no other. Without samples
/// or channels both sides are silent, as is a right side without samples.
pub proof fn law_sides_are_measured<F: Fn(&[u32]) -> u32>(
    rms: F,
    samples: Seq<u32>,
    channels: u16,
    reading: LevelReading,
)
    requires
        is_level_reading(rms, samples, channels, reading),
    ensures
        samples.len() == 0 || channels == 0 ==> reading.rms_left == 0 && reading.rms_right == 0
            && reading.peak_left == 0 && reading.peak_right == 0,
        samples.len() > 0 && channels > 0 ==> reading.peak_left == peak_of(
            channel_of(samples, 0, channels as int),
        ) && exists|w: &[u32]|
            w@ == channel_of(samples, 0, channels as int) && #[trigger] rms.ensures(
                (w,),
                reading.rms_left,
            ),
        channels == 1 ==> reading.rms_right == reading.rms_left && reading.peak_right
            == reading.peak_left,
        samples.len() > 0 && channels > 1 ==> reading.peak_right == peak_of(
            channel_of(samples, 1, channels as int),
        ),
        samples.len() == 1 && channels > 1 ==> reading.rms_right == 0,
        samples.len() > 1 && channels > 1 ==> exists|w: &[u32]|
            w@ == channel_of(samples, 1, channels as int) && #[trigger] rms.ensures(
                (w,),
                reading.rms_right,
            ),
{
}

/// A channel is read by the RMS and the peak of exactly its samples; without samples it is
/// silent.
pub proof fn law_channel_is_measured<F: Fn(&[u32]) -> u32>(
    rms: F,
    samples: Seq<u32>,
    reading: ChannelLevelReading,
)
    requires
        is_channel_reading(rms, samples, reading),
    ensures
        samples.len() == 0 ==> reading.rms == 0 && reading.peak == 0,
        samples.len() > 0 ==> reading.peak == peak_of(samples) && exists|w: &[u32]|
            w@ == samples && #[trigger] rms.ensures((w,), reading.rms),
{
}

/// The level of an amplitude is what the logarithm says of it, and -120 dBFS where the
/// amplitude is zero or below.
pub proof fn law_level_of_amplitude<L: Fn(u32) -> u32>(decibels: L, linear: u32, dbfs: u32)
    requires
        is_level(decibels, linear, dbfs),
    ensures
        linear == 0 || 0x8000_0000 <= linear <= 0xFF80_0000 ==> dbfs == 0xC2F0_0000,
        0 < linear < 0x8000_0000 || linear > 0xFF80_0000 ==> decibels.ensures((linear,), dbfs),
{
}

/// The analysis of a channel measures its samples, their peak and the quietest fifth of them:
/// the levels are those of these three, the dynamic range lies between the last two, and there
/// is a signal where the first is above the last raised by 6 dB. Without samples everything is
/// silent.
pub proof fn law_analysis_measures_channel<
    R: Fn(&[u32]) -> u32,
    M: Fn(&[u32]) -> u32,
    L: Fn(u32) -> u32,
    S: Fn(u32, u32) -> u32,
    D: Fn(u32, u32) -> u32,
>(arithmetic: Arithmetic<R, M, L, S, D>, samples: Seq<u32>, analysis: ChannelAnalysis)
    requires
        is_analysis(arithmetic, samples, analysis),
    ensures
        samples.len() == 0 ==> analysis == (ChannelAnalysis {
            rms: 0,
            peak: 0,
            rms_dbfs: 0xC2F0_0000,
            peak_dbfs: 0xC2F0_0000,
            noise_floor_dbfs: 0xC2F0_0000,
            dynamic_range_db: 0,
            has_signal: false,
            dc_offset: 0,
        }),
        samples.len() > 0 ==> {
            &&& exists|w: &[u32]|
                w@ == samples && #[trigger] arithmetic.rms.ensures((w,), analysis.rms)
            &&& exists|w: &[u32]|
                w@ == samples && #[trigger] arithmetic.mean.ensures((w,), analysis.dc_offset)
            &&& analysis.peak == peak_of(samples)
            &&& is_level(arithmetic.decibels, analysis.rms, analysis.rms_dbfs)
            &&& is_level(arithmetic.decibels, analysis.peak, analysis.peak_dbfs)
            &&& exists|w: &[u32], noise: u32|
                is_quiet_part(w@, samples) && #[trigger] arithmetic.rms.ensures((w,), noise)
                    && is_level(arithmetic.decibels, noise, analysis.noise_floor_dbfs)
            &&& arithmetic.difference.ensures(
                (analysis.peak_dbfs, analysis.noise_floor_dbfs),
                analysis.dynamic_range_db,
            )
            &&& exists|bound: u32|
                #[trigger] arithmetic.sum.ensures((analysis.noise_floor_dbfs, 0x40C0_0000), bound)
                    && analysis.has_signal == crate::pcm::is_above(analysis.rms_dbfs, bound)
        },
{
    if samples.len() > 0 {
        let (quiet, noise, bound) = choose|quiet: Seq<u32>, noise: u32, bound: u32| #[trigger]
            rests_on(arithmetic, samples, analysis, quiet, noise, bound);
        let w = choose|w: &[u32]| w@ == quiet && #[trigger] arithmetic.rms.ensures((w,), noise);
        assert(is_quiet_part(w@, samples));
    }
}

/// Two channels are correlated over as many samples from the start as both have; where one
/// has none there is no correlation.
pub proof fn law_correlation_covers_both<C: Fn(&[u32], &[u32]) -> u32>(
    correlate: C,
    a: Seq<u32>,
    b: Seq<u32>,
    value: u32,
)
    requires
        is_correlation(correlate, a, b, value),
    ensures
        a.len() == 0 || b.len() == 0 ==> value == 0,
        a.len() > 0 && b.len() > 0 ==> exists|x: &[u32], y: &[u32]|
            {
                &&& #[trigger] correlate.ensures((x, y), value)
                &&& x@.len() == y@.len()
                &&& x@.is_prefix_of(a)
                &&& y@.is_prefix_of(b)
                &&& x@ == a || y@ == b
            },
{
    if a.len() > 0 && b.len() > 0 {
        let n = common_len(a, b);
        let (x, y) = choose|x: &[u32], y: &[u32]|
            x@ == a.take(n) && y@ == b.take(n) && #[trigger] correlate.ensures((x, y), value);
        assert(x@ =~= a.subrange(0, n));
        assert(y@ =~= b.subrange(0, n));
        if n == a.len() {
            assert(x@ =~= a);
        } else {
            assert(y@ =~= b);
        }
    }
}

} // verus!
