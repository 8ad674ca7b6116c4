//! Live playback of captured audio: the output stream, the buffers before it and the blocks
//! that pass through the resampler.

use vstd::prelude::*;
use vstd::arithmetic::div_mod::lemma_fundamental_div_mod_converse;

use crate::device::{StreamConfig, SupportedConfig};
use crate::ring::{
    available, create_monitor_buffer, pop_samples, push_samples, SampleConsumer, SampleProducer,
};

verus! {

/// Frames that the resampler is made to take at a time.
pub const RESAMPLE_CHUNK: usize = 1024;

/// The output device can play streams like the input.
pub open spec fn supports_input(supported: Seq<SupportedConfig>, input: StreamConfig) -> bool {
    exists|i: int|
        0 <= i < supported.len() && (#[trigger] supported[i]).channels >= input.channels
            && supported[i].min_rate <= input.sample_rate <= supported[i].max_rate
}

/// The result of choosing an output stream: that of the input if the device can play it,
/// else what `default` gives.
pub open spec fn is_output_choice<D: Fn() -> Result<StreamConfig, String>>(
    input: StreamConfig,
    supported: Seq<SupportedConfig>,
    default: D,
    choice: Result<StreamConfig, String>,
) -> bool {
    if supports_input(supported, input) {
        choice == Ok::<StreamConfig, String>(input)
    } else {
        default.ensures((), choice)
    }
}

/// Chooses the stream of the output device; `default` asks the device for its default.
pub fn choose_output_config<D: Fn() -> Result<StreamConfig, String>>(
    input: StreamConfig,
    supported: &Vec<SupportedConfig>,
    default: D,
) -> (choice: Result<StreamConfig, String>)
    requires
        default.requires(()),
    ensures
        is_output_choice(input, supported@, default, choice),
{
    let mut i: usize = 0;
    while i < supported.len()
        invariant
            i <= supported@.len(),
            forall|j: int|
                0 <= j < i ==> !((#[trigger] supported@[j]).channels >= input.channels
                    && supported@[j].min_rate <= input.sample_rate <= supported@[j].max_rate),
        decreases supported@.len() - i,
    {
        let config = supported[i];
        if config.channels >= input.channels && config.min_rate <= input.sample_rate
            && config.max_rate >= input.sample_rate {
            return Ok(input);
        }
        i += 1;
    }
    default()
}

/// The output plays at another rate than the input, so that the samples are resampled.
pub fn needs_resample(input: StreamConfig, output: StreamConfig) -> (resample: bool)
    ensures
        resample == (input.sample_rate != output.sample_rate),
{
    output.sample_rate != input.sample_rate
}

/// The buffers of a monitor: the caller feeds `feed`, the output plays `play`, and where the
/// rates differ the resampler takes from one side of `resampler` and fills the other.
pub struct MonitorRings {
    pub feed: SampleProducer,
    pub play: SampleConsumer,
    pub resampler: Option<(SampleConsumer, SampleProducer)>,
}

/// The samples that a monitor buffer for this stream holds.
pub open spec fn monitor_capacity(config: StreamConfig) -> nat {
    (crate::ring::MONITOR_BUFFER_FRAMES * config.channels) as nat
}

/// The buffers connect the caller to the output: directly at the same rate, else through the
/// resampler.
pub open spec fn are_monitor_rings(rings: MonitorRings, input: StreamConfig, output: StreamConfig) -> bool {
    match rings.resampler {
        None => {
            &&& input.sample_rate == output.sample_rate
            &&& crate::ring::fresh_ring((rings.feed, rings.play), monitor_capacity(input))
        },
        Some((staging, staged)) => {
            &&& input.sample_rate != output.sample_rate
            &&& crate::ring::fresh_ring((rings.feed, staging), monitor_capacity(input))
            &&& crate::ring::fresh_ring((staged, rings.play), monitor_capacity(output))
        },
    }
}

/// Makes the buffers of a monitor.
pub fn create_monitor_rings(input: StreamConfig, output: StreamConfig) -> (rings: MonitorRings)
    requires
        crate::ring::ring_fits(crate::ring::MONITOR_BUFFER_FRAMES, input.channels),
        input.sample_rate != output.sample_rate ==> crate::ring::ring_fits(
            crate::ring::MONITOR_BUFFER_FRAMES,
            output.channels,
        ),
    ensures
        are_monitor_rings(rings, input, output),
{
    let (feed, taken) = create_monitor_buffer(input.channels);
    if needs_resample(input, output) {
        let (staged, play) = create_monitor_buffer(output.channels);
        MonitorRings { feed, play, resampler: Some((taken, staged)) }
    } else {
        MonitorRings { feed, play: taken, resampler: None }
    }
}

/// So many zeros.
pub open spec fn zeros(count: nat) -> Seq<u32> {
    Seq::new(count, |i: int| 0u32)
}

/// The pieces, one after the other.
pub open spec fn joined(pieces: Seq<Seq<u32>>) -> Seq<u32>
    decreases pieces.len(),
{
    if pieces.len() == 0 {
        Seq::empty()
    } else {
        joined(pieces.drop_last()) + pieces.last()
    }
}

/// The frame that was read last after the first `count` reads: what a read left out is still
/// there from the one before.
pub open spec fn frame_after(reads: Seq<Seq<u32>>, count: int, in_channels: nat) -> Seq<u32>
    decreases count,
{
    if count <= 0 {
        zeros(in_channels)
    } else {
        reads[count - 1] + frame_after(reads, count - 1, in_channels).skip(
            reads[count - 1].len() as int,
        )
    }
}

/// One output sample: channel `channel` of frame `frame`, silent where nothing was read or
/// the input has no such channel.
pub open spec fn played(reads: Seq<Seq<u32>>, frame: int, channel: int, in_channels: nat) -> u32 {
    if reads[frame].len() > 0 && channel < in_channels {
        frame_after(reads, frame + 1, in_channels)[channel]
    } else {
        0
    }
}

/// The output buffer after a read for each frame; an incomplete frame at its end stays.
pub open spec fn rendered(
    before: Seq<u32>,
    reads: Seq<Seq<u32>>,
    out_channels: nat,
    in_channels: nat,
) -> Seq<u32> {
    Seq::new(
        before.len(),
        |k: int|
            if k / (out_channels as int) < reads.len() {
                played(reads, k / (out_channels as int), k % (out_channels as int), in_channels)
            } else {
                before[k]
            },
    )
}

/// No read gave more than a frame.
pub open spec fn within_frames(reads: Seq<Seq<u32>>, in_channels: nat) -> bool {
    forall|f: int| 0 <= f < reads.len() ==> (#[trigger] reads[f]).len() <= in_channels
}

/// Every read gave a frame.
pub open spec fn whole_frames(reads: Seq<Seq<u32>>, in_channels: nat) -> bool {
    forall|f: int| 0 <= f < reads.len() ==> (#[trigger] reads[f]).len() == in_channels
}

/// Every read that so many waiting samples are enough for gave a frame.
pub open spec fn seen_frames_whole(
    waiting: nat,
    reads: Seq<Seq<u32>>,
    in_channels: nat,
) -> bool {
    forall|f: int|
        0 <= f < reads.len() && (f + 1) * in_channels <= waiting ==> (#[trigger] reads[f]).len()
            == in_channels
}

/// The output buffer after it was filled from the consumer, where the channel counts agree:
/// the samples taken, then silence, of which there is none while samples are seen waiting.
pub open spec fn filled_straight(
    before: SampleConsumer,
    after: SampleConsumer,
    data: Seq<u32>,
    taken: Seq<u32>,
) -> bool {
    &&& taken.len() <= data.len()
    &&& taken.len() == data.len() || taken.len() >= crate::ring::seen_waiting(before)
    &&& taken.len() == data.len() || crate::ring::seen_waiting(after) == 0
    &&& crate::ring::took(before, taken, after)
    &&& data == taken + zeros((data.len() - taken.len()) as nat)
}

/// The output buffer after it was filled from the consumer frame by frame, where the channel
/// counts differ. Every frame for which samples were seen waiting is a whole one, and a frame
/// that is not leaves no sample behind that was seen waiting.
pub open spec fn filled_by_frames(
    before: SampleConsumer,
    after: SampleConsumer,
    old_data: Seq<u32>,
    data: Seq<u32>,
    out_channels: nat,
    in_channels: nat,
    reads: Seq<Seq<u32>>,
) -> bool {
    &&& reads.len() == old_data.len() / out_channels
    &&& within_frames(reads, in_channels)
    &&& seen_frames_whole(crate::ring::seen_waiting(before), reads, in_channels)
    &&& whole_frames(reads, in_channels) || crate::ring::seen_waiting(after) == 0
    &&& crate::ring::took(before, joined(reads), after)
    &&& data == rendered(old_data, reads, out_channels, in_channels)
}

/// Fills the output buffer of a playback callback from the ring buffer.
pub fn fill_output(
    consumer: &mut SampleConsumer,
    data: &mut Vec<u32>,
    out_channels: usize,
    in_channels: usize,
)
    requires
        out_channels > 0,
    ensures
        out_channels == in_channels ==> exists|taken: Seq<u32>| #[trigger]
            filled_straight(*old(consumer), *final(consumer), final(data)@, taken)
                && final(data)@.len() == old(data)@.len(),
        out_channels != in_channels ==> exists|reads: Seq<Seq<u32>>| #[trigger]
            filled_by_frames(
                *old(consumer),
                *final(consumer),
                old(data)@,
                final(data)@,
                out_channels as nat,
                in_channels as nat,
                reads,
            ),
{
    if out_channels == in_channels {
        let count: usize = pop_samples(consumer, data);
        let ghost taken = data@.take(count as int);
        let ghost len = data@.len();
        let mut i: usize = count;
        while i < data.len()
            invariant
                count <= i <= data@.len(),
                data@.len() == len,
                taken.len() == count,
                forall|k: int| 0 <= k < count ==> #[trigger] data@[k] == taken[k],
                forall|k: int| count <= k < i ==> #[trigger] data@[k] == 0,
            decreases data@.len() - i,
        {
            data.set(i, 0);
            i += 1;
        }
        proof {
            assert(data@ =~= taken + zeros((data@.len() - taken.len()) as nat));
            assert(filled_straight(*old(consumer), *consumer, data@, taken));
        }
    } else {
        fill_frames(consumer, data, out_channels, in_channels);
    }
}

/// Writes one frame of output.
fn play_frame(
    data: &mut Vec<u32>,
    frame: &Vec<u32>,
    heard: bool,
    f: usize,
    out_channels: usize,
    Ghost(reads): Ghost<Seq<Seq<u32>>>,
)
    requires
        out_channels > 0,
        (f + 1) * out_channels <= old(data)@.len(),
        f < reads.len(),
        heard == (reads[f as int].len() > 0),
        frame@ == frame_after(reads, f + 1, frame@.len()),
    ensures
        final(data)@.len() == old(data)@.len(),
        forall|k: int|
            #![trigger final(data)@[k]]
            0 <= k < final(data)@.len() ==> final(data)@[k] == (if k / (out_channels as int) == f {
                played(reads, f as int, k % (out_channels as int), frame@.len())
            } else {
                old(data)@[k]
            }),
{
    let ghost before = data@;
    let ghost total = out_channels as int;
    assert(f * total + total == (f + 1) * total && f * total >= 0) by (nonlinear_arith)
        requires
            f >= 0,
            total > 0,
    ;
    let len: usize = data.len();
    assert(f * out_channels + out_channels <= len);
    let base: usize = f * out_channels;
    let mut channel: usize = 0;
    while channel < out_channels
        invariant
            channel <= out_channels,
            total == out_channels,
            total > 0,
            base == f * total,
            base + total <= len,
            data@.len() == len,
            len == before.len(),
            f < reads.len(),
            heard == (reads[f as int].len() > 0),
            frame@ == frame_after(reads, f + 1, frame@.len()),
            forall|k: int|
                0 <= k < before.len() && !(base <= k < base + channel) ==> #[trigger] data@[k]
                    == before[k],
            forall|k: int|
                base <= k < base + channel ==> #[trigger] data@[k] == played(
                    reads,
                    f as int,
                    k - base,
                    frame@.len(),
                ),
        decreases out_channels - channel,
    {
        let sample: u32 = if heard && channel < frame.len() {
            frame[channel]
        } else {
            0
        };
        data.set(base + channel, sample);
        channel += 1;
    }
    proof {
        assert forall|k: int| #![trigger data@[k]] 0 <= k < data@.len() implies data@[k] == (if k
            / total == f {
            played(reads, f as int, k % total, frame@.len())
        } else {
            before[k]
        }) by {
            if base <= k < base + total {
                assert(k == f * total + (k - base));
                lemma_fundamental_div_mod_converse(k, total, f as int, k - base);
            } else {
                assert(k / total != f) by (nonlinear_arith)
                    requires
                        total > 0,
                        !(f * total <= k < f * total + total),
                ;
            }
        }
    }
}

/// Fills the output frame by frame.
fn fill_frames(
    consumer: &mut SampleConsumer,
    data: &mut Vec<u32>,
    out_channels: usize,
    in_channels: usize,
)
    requires
        out_channels > 0,
    ensures
        exists|reads: Seq<Seq<u32>>| #[trigger]
            filled_by_frames(
                *old(consumer),
                *final(consumer),
                old(data)@,
                final(data)@,
                out_channels as nat,
                in_channels as nat,
                reads,
            ),
{
    let frames: usize = data.len() / out_channels;
    let mut frame: Vec<u32> = Vec::new();
    frame.resize(in_channels, 0);
    let ghost before = data@;
    let ghost total = out_channels as int;
    let ghost mut reads: Seq<Seq<u32>> = Seq::empty();
    let ghost waiting = crate::ring::seen_waiting(*consumer);
    let mut f: usize = 0;
    proof {
        assert(0 * in_channels == 0) by (nonlinear_arith);
        crate::ring::law_take_nothing(*consumer);
        assert(frame@ =~= frame_after(reads, 0, in_channels as nat));
        assert forall|k: int| #![trigger before[k]] 0 <= k < before.len() implies k / total >= 0 by {
            assert(k / total >= 0) by (nonlinear_arith)
                requires
                    k >= 0,
                    total > 0,
            ;
        }
        assert(data@ =~= rendered(before, reads, out_channels as nat, in_channels as nat));
    }
    while f < frames
        invariant
            f <= frames,
            total == out_channels,
            total > 0,
            frames == before.len() as int / total,
            reads.len() == f,
            frame@.len() == in_channels,
            within_frames(reads, in_channels as nat),
            waiting == crate::ring::seen_waiting(*old(consumer)),
            seen_frames_whole(waiting, reads, in_channels as nat),
            whole_frames(reads, in_channels as nat) || crate::ring::seen_waiting(*consumer) == 0,
            joined(reads).len() <= f * in_channels,
            frame@ == frame_after(reads, f as int, in_channels as nat),
            crate::ring::took(*old(consumer), joined(reads), *consumer),
            data@ == rendered(before, reads, out_channels as nat, in_channels as nat),
        decreases frames - f,
    {
        let ghost old_frame = frame@;
        let ghost half = *consumer;
        let count: usize = pop_samples(consumer, &mut frame);
        let ghost read = frame@.take(count as int);
        let ghost more = reads.push(read);
        proof {
            assert(frame@ =~= read + old_frame.skip(count as int)) by {
                assert(frame@.skip(count as int) == old_frame.skip(count as int));
                assert(frame@ =~= frame@.take(count as int) + frame@.skip(count as int));
            }
            lemma_frames_agree(reads, more, f as int, in_channels as nat);
            assert(frame@ == frame_after(more, f + 1, in_channels as nat));
            assert(more.drop_last() =~= reads);
            crate::ring::law_takes_add_up(*old(consumer), joined(reads), half, read, *consumer);
            assert(f * in_channels + in_channels == (f + 1) * in_channels && (f + 1) * in_channels
                <= frames * in_channels) by (nonlinear_arith)
                requires
                    0 <= f < frames,
                    in_channels >= 0,
            ;
            assert((f + 1) * in_channels <= waiting ==> count == in_channels);
            assert(seen_frames_whole(waiting, more, in_channels as nat)) by {
                assert forall|g: int|
                    0 <= g < more.len() && (g + 1) * in_channels
                        <= waiting implies (#[trigger] more[g]).len() == in_channels by {
                    if g < f {
                        assert(more[g] == reads[g]);
                    }
                }
            }
            assert(whole_frames(more, in_channels as nat) || crate::ring::seen_waiting(*consumer)
                == 0) by {
                if whole_frames(reads, in_channels as nat) && count == in_channels {
                    assert forall|g: int| 0 <= g < more.len() implies (#[trigger] more[g]).len()
                        == in_channels by {
                        if g < f {
                            assert(more[g] == reads[g]);
                        }
                    }
                }
            }
            assert((f + 1) * total <= before.len()) by (nonlinear_arith)
                requires
                    f + 1 <= before.len() as int / total,
                    total > 0,
            ;
        }
        play_frame(data, &frame, count > 0, f, out_channels, Ghost(more));
        proof {
            assert forall|k: int| 0 <= k < data@.len() implies #[trigger] data@[k] == rendered(
                before,
                more,
                out_channels as nat,
                in_channels as nat,
            )[k] by {
                let at = k / total;
                if at < f {
                    assert(at >= 0) by (nonlinear_arith)
                        requires
                            at == k / total,
                            k >= 0,
                            total > 0,
                    ;
                    assert(more[at] == reads[at]);
                    lemma_frames_agree(reads, more, at + 1, in_channels as nat);
                }
            }
            assert(data@ =~= rendered(before, more, out_channels as nat, in_channels as nat));
            reads = more;
        }
        f += 1;
    }
    proof {
        assert(filled_by_frames(
            *old(consumer),
            *consumer,
            before,
            data@,
            out_channels as nat,
            in_channels as nat,
            reads,
        ));
    }
}

/// Later reads do not change the frame after the earlier ones.
proof fn lemma_frames_agree(
    reads: Seq<Seq<u32>>,
    more: Seq<Seq<u32>>,
    count: int,
    in_channels: nat,
)
    requires
        0 <= count <= reads.len() <= more.len(),
        forall|i: int| 0 <= i < reads.len() ==> more[i] == reads[i],
    ensures
        frame_after(more, count, in_channels) == frame_after(reads, count, in_channels),
    decreases count,
{
    if count > 0 {
        lemma_frames_agree(reads, more, count - 1, in_channels);
    }
}

/// Each buffer of a list by its contents.
pub open spec fn buffer_views(buffers: Seq<Vec<u32>>) -> Seq<Seq<u32>> {
    buffers.map_values(|buffer: Vec<u32>| buffer@)
}

/// One channel of a block of `frames` frames made from interleaved samples; frames that the
/// samples do not fill are silent.
pub open spec fn block_channel(samples: Seq<u32>, channel: int, frames: nat, channels: nat) -> Seq<
    u32,
> {
    Seq::new(
        frames,
        |f: int|
            if f < samples.len() as int / (channels as int) {
                samples[f * (channels as int) + channel]
            } else {
                0
            },
    )
}

/// Interleaved samples as a block: `frames` samples for each channel.
pub open spec fn block_of(samples: Seq<u32>, frames: nat, channels: nat) -> Seq<Seq<u32>> {
    Seq::new(channels, |channel: int| block_channel(samples, channel, frames, channels))
}

/// The first `frames` frames of a block, interleaved.
pub open spec fn interleaved(block: Seq<Seq<u32>>, frames: nat, channels: nat) -> Seq<u32> {
    Seq::new(
        frames * channels,
        |k: int| block[k % (channels as int)][k / (channels as int)],
    )
}

/// Splits interleaved samples into a block for the resampler.
pub fn deinterleave_block(samples: &Vec<u32>, frames: usize, channels: usize) -> (block: Vec<
    Vec<u32>,
>)
    requires
        channels > 0,
    ensures
        buffer_views(block@) == block_of(samples@, frames as nat, channels as nat),
{
    let full: usize = samples.len() / channels;
    let mut block: Vec<Vec<u32>> = Vec::new();
    let mut channel: usize = 0;
    while channel < channels
        invariant
            channel <= channels,
            channels > 0,
            full == samples@.len() as int / (channels as int),
            samples@.len() <= usize::MAX,
            block@.len() == channel,
            forall|c: int|
                0 <= c < channel ==> (#[trigger] block@[c])@ == block_channel(
                    samples@,
                    c,
                    frames as nat,
                    channels as nat,
                ),
        decreases channels - channel,
    {
        let mut one: Vec<u32> = Vec::new();
        let mut f: usize = 0;
        while f < frames
            invariant
                f <= frames,
                channel < channels,
                full == samples@.len() as int / (channels as int),
                samples@.len() <= usize::MAX,
                one@.len() == f,
                forall|k: int|
                    0 <= k < f ==> #[trigger] one@[k] == block_channel(
                        samples@,
                        channel as int,
                        frames as nat,
                        channels as nat,
                    )[k],
            decreases frames - f,
        {
            if f < full {
                assert(f * channels + channel < samples@.len() && f * channels >= 0)
                    by (nonlinear_arith)
                    requires
                        0 <= f < samples@.len() as int / (channels as int),
                        0 <= channel < channels,
                ;
                one.push(samples[f * channels + channel]);
            } else {
                one.push(0);
            }
            f += 1;
        }
        assert(one@ =~= block_channel(
            samples@,
            channel as int,
            frames as nat,
            channels as nat,
        ));
        block.push(one);
        channel += 1;
    }
    assert(buffer_views(block@) =~= block_of(samples@, frames as nat, channels as nat));
    block
}

/// The block holds `frames` frames of `channels` channels.
pub open spec fn holds_frames(block: Seq<Vec<u32>>, frames: nat, channels: nat) -> bool {
    &&& channels <= block.len()
    &&& forall|c: int| 0 <= c < channels ==> frames <= (#[trigger] block[c])@.len()
}

/// Interleaves the first `frames` frames of a block.
pub fn interleave_block(block: &Vec<Vec<u32>>, frames: usize, channels: usize) -> (samples: Vec<
    u32,
>)
    requires
        holds_frames(block@, frames as nat, channels as nat),
    ensures
        samples@ == interleaved(buffer_views(block@), frames as nat, channels as nat),
{
    let ghost all = interleaved(buffer_views(block@), frames as nat, channels as nat);
    let mut samples: Vec<u32> = Vec::new();
    let mut f: usize = 0;
    assert(0 * channels == 0) by (nonlinear_arith);
    while f < frames
        invariant
            f <= frames,
            holds_frames(block@, frames as nat, channels as nat),
            all == interleaved(buffer_views(block@), frames as nat, channels as nat),
            samples@.len() == f * channels,
            forall|k: int| 0 <= k < samples@.len() ==> #[trigger] samples@[k] == all[k],
        decreases frames - f,
    {
        assert(f * channels + channels == (f + 1) * channels && (f + 1) * channels <= frames
            * channels && f * channels >= 0) by (nonlinear_arith)
            requires
                0 <= f < frames,
                channels >= 0,
        ;
        let mut channel: usize = 0;
        while channel < channels
            invariant
                channel <= channels,
                f < frames,
                holds_frames(block@, frames as nat, channels as nat),
                all == interleaved(buffer_views(block@), frames as nat, channels as nat),
                f * channels >= 0,
                f * channels + channels <= frames * channels,
                samples@.len() == f * channels + channel,
                forall|k: int| 0 <= k < samples@.len() ==> #[trigger] samples@[k] == all[k],
            decreases channels - channel,
        {
            proof {
                lemma_fundamental_div_mod_converse(
                    f * channels + channel,
                    channels as int,
                    f as int,
                    channel as int,
                );
                assert(buffer_views(block@)[channel as int] == block@[channel as int]@);
            }
            samples.push(block[channel][f]);
            channel += 1;
        }
        f += 1;
    }
    assert(samples@ =~= all);
    samples
}

/// The result of asking for the next block: none, with nothing taken, where fewer samples wait
/// than it needs, or a whole block of samples that came out of the buffer.
pub open spec fn is_next_block(
    before: SampleConsumer,
    after: SampleConsumer,
    frames: nat,
    channels: nat,
    block: Option<Vec<Vec<u32>>>,
) -> bool {
    match block {
        None => {
            &&& crate::ring::took(before, Seq::empty(), after)
            &&& frames == 0 || crate::ring::seen_waiting(before) < frames * channels
            &&& frames == 0 || crate::ring::seen_waiting(after) < frames * channels
        },
        Some(b) => exists|samples: Seq<u32>|
            {
                &&& #[trigger] crate::ring::took(before, samples, after)
                &&& 0 < samples.len() == frames * channels
                &&& buffer_views(b@) == block_of(samples, frames, channels)
            },
    }
}

/// Takes the next block for the resampler out of the buffer; nothing, as long as fewer
/// samples wait than the resampler needs.
pub fn next_block(consumer: &mut SampleConsumer, frames: usize, channels: usize) -> (block: Option<
    Vec<Vec<u32>>,
>)
    requires
        channels > 0,
        frames * channels <= usize::MAX,
    ensures
        is_next_block(
            *old(consumer),
            *final(consumer),
            frames as nat,
            channels as nat,
            block,
        ),
{
    let needed: usize = frames * channels;
    if available(consumer) < needed {
        return None;
    }
    let ghost looked = *consumer;
    let mut samples: Vec<u32> = Vec::new();
    samples.resize(needed, 0);
    let count: usize = pop_samples(consumer, &mut samples);
    let ghost all = samples@;
    if count == 0 {
        proof {
            assert(all.take(0) =~= Seq::<u32>::empty());
            crate::ring::law_takes_add_up(
                *old(consumer),
                Seq::empty(),
                looked,
                Seq::empty(),
                *consumer,
            );
            assert(Seq::<u32>::empty() + Seq::<u32>::empty() =~= Seq::<u32>::empty());
            assert(frames == 0) by (nonlinear_arith)
                requires
                    frames * channels == 0,
                    channels > 0,
                    frames >= 0,
            ;
        }
        return None;
    }
    samples.truncate(count);
    proof {
        assert(samples@ =~= all.take(count as int));
        crate::ring::law_takes_add_up(
            *old(consumer),
            Seq::empty(),
            looked,
            samples@,
            *consumer,
        );
        assert(Seq::<u32>::empty() + samples@ =~= samples@);
        assert(crate::ring::took(*old(consumer), samples@, *consumer));
    }
    Some(deinterleave_block(&samples, frames, channels))
}

/// Puts a resampled block into the output buffer.
pub fn push_block(
    producer: &mut SampleProducer,
    block: &Vec<Vec<u32>>,
    frames: usize,
    channels: usize,
) -> (count: usize)
    requires
        holds_frames(block@, frames as nat, channels as nat),
    ensures
        crate::ring::gave(
            *old(producer),
            interleaved(buffer_views(block@), frames as nat, channels as nat),
            count as int,
            *final(producer),
        ),
{
    let samples = interleave_block(block, frames, channels);
    push_samples(producer, samples.as_slice())
}

/// Interleaving a block undoes splitting: of samples that fill their frames, all come back.
pub proof fn law_block_interleaves_back(samples: Seq<u32>, frames: nat, channels: nat)
    requires
        channels > 0,
        samples.len() == frames * channels,
    ensures
        interleaved(block_of(samples, frames, channels), frames, channels) == samples,
{
    let block = block_of(samples, frames, channels);
    let total = channels as int;
    assert(frames * channels == frames as int * total);
    lemma_fundamental_div_mod_converse(samples.len() as int, total, frames as int, 0);
    assert forall|k: int| 0 <= k < samples.len() implies interleaved(block, frames, channels)[k]
        == samples[k] by {
        let f = k / total;
        let c = k % total;
        assert(k == f * total + c && 0 <= c < total && 0 <= f < frames) by (nonlinear_arith)
            requires
                0 <= k < frames as int * total,
                total > 0,
                f == k / total,
                c == k % total,
        ;
        assert(block[c] == block_channel(samples, c, frames, channels));
    }
    assert(interleaved(block, frames, channels) =~= samples);
}

/// Where nothing is resampled and the channel counts agree, what the output plays is what
/// is captured: the next of the samples that go through the buffer, which are those that were
/// fed by then, followed by silence.
pub proof fn law_passthrough_plays_input(
    feed: SampleProducer,
    play: SampleConsumer,
    after: SampleConsumer,
    data: Seq<u32>,
    taken: Seq<u32>,
)
    requires
        crate::ring::producer_stream(feed) == crate::ring::consumer_stream(play),
        crate::ring::pushed(feed).is_prefix_of(crate::ring::producer_stream(feed)),
        crate::ring::popped(play).is_prefix_of(crate::ring::consumer_stream(play)),
        filled_straight(play, after, data, taken),
    ensures
        crate::ring::popped(after).len() == crate::ring::popped(play).len() + taken.len(),
        crate::ring::popped(after).len() <= crate::ring::producer_stream(feed).len(),
        data.take(taken.len() as int) == crate::ring::producer_stream(feed).subrange(
            crate::ring::popped(play).len() as int,
            crate::ring::popped(after).len() as int,
        ),
        crate::ring::popped(after).len() <= crate::ring::pushed(feed).len() ==> data.take(
            taken.len() as int,
        ) == crate::ring::pushed(feed).subrange(
            crate::ring::popped(play).len() as int,
            crate::ring::popped(after).len() as int,
        ),
        forall|k: int| taken.len() <= k < data.len() ==> data[k] == 0,
{
    let all = crate::ring::producer_stream(feed);
    let read = crate::ring::popped(after);
    let from = crate::ring::popped(play).len() as int;
    assert(data.take(taken.len() as int) =~= taken);
    assert(taken =~= read.subrange(from, read.len() as int));
    assert(read =~= all.subrange(0, read.len() as int));
    assert(taken =~= all.subrange(from, read.len() as int));
    if read.len() <= crate::ring::pushed(feed).len() {
        assert(crate::ring::pushed(feed) =~= all.subrange(
            0,
            crate::ring::pushed(feed).len() as int,
        ));
        assert(taken =~= crate::ring::pushed(feed).subrange(from, read.len() as int));
    }
}

/// Where a sample of a whole frame stands among all that were read.
proof fn lemma_joined_frame(reads: Seq<Seq<u32>>, frame: int, channel: int, in_channels: nat)
    requires
        whole_frames(reads, in_channels),
        0 <= frame < reads.len(),
        0 <= channel < in_channels,
    ensures
        joined(reads).len() == reads.len() * in_channels,
        0 <= frame * in_channels + channel < joined(reads).len(),
        joined(reads)[frame * in_channels + channel] == reads[frame][channel],
    decreases reads.len(),
{
    let shorter = reads.drop_last();
    let before = joined(shorter);
    let count = shorter.len() as int;
    assert(reads.last().len() == in_channels) by {
        assert(reads[reads.len() - 1].len() == in_channels);
    }
    assert(count * in_channels + in_channels == (count + 1) * in_channels) by (nonlinear_arith);
    assert(whole_frames(shorter, in_channels)) by {
        assert forall|f: int| 0 <= f < shorter.len() implies (#[trigger] shorter[f]).len()
            == in_channels by {
            assert(shorter[f] == reads[f]);
        }
    }
    if count == 0 {
        assert(before.len() == 0);
        assert(0 * in_channels == 0) by (nonlinear_arith);
    } else {
        lemma_joined_frame(shorter, 0, channel, in_channels);
    }
    assert(0 <= frame * in_channels + channel < (count + 1) * in_channels) by (nonlinear_arith)
        requires
            0 <= frame <= count,
            0 <= channel < in_channels,
    ;
    if frame < count {
        lemma_joined_frame(shorter, frame, channel, in_channels);
        assert(shorter[frame] == reads[frame]);
    }
}

/// Where every read gives a whole frame, the output plays the frames that were read: each
/// channel of the input on the same channel of the output, and silence on the others.
pub proof fn law_whole_frames_are_played(
    reads: Seq<Seq<u32>>,
    frame: int,
    channel: int,
    in_channels: nat,
)
    requires
        whole_frames(reads, in_channels),
        0 <= frame < reads.len(),
        0 <= channel,
    ensures
        channel < in_channels ==> 0 <= frame * in_channels + channel < joined(reads).len() && played(
            reads,
            frame,
            channel,
            in_channels,
        ) == joined(reads)[frame * in_channels + channel],
        channel >= in_channels ==> played(reads, frame, channel, in_channels) == 0,
{
    if channel < in_channels {
        assert(reads[frame].len() == in_channels);
        lemma_joined_frame(reads, frame, channel, in_channels);
    }
}

/// What was read first stands first.
proof fn lemma_joined_begins(reads: Seq<Seq<u32>>, count: int)
    requires
        0 <= count <= reads.len(),
    ensures
        joined(reads.take(count)).is_prefix_of(joined(reads)),
    decreases reads.len(),
{
    if count == reads.len() {
        assert(reads.take(count) =~= reads);
    } else {
        let shorter = reads.drop_last();
        lemma_joined_begins(shorter, count);
        assert(shorter.take(count) =~= reads.take(count));
    }
}

/// Where the channel counts differ, each output frame takes one input frame: of a frame that
/// was seen waiting every channel of the input is played on the same channel of the output,
/// with silence on the others, and a frame for which nothing came out is silent.
pub proof fn law_queued_frames_are_played(
    before: SampleConsumer,
    after: SampleConsumer,
    old_data: Seq<u32>,
    data: Seq<u32>,
    out_channels: nat,
    in_channels: nat,
    reads: Seq<Seq<u32>>,
    frame: int,
    channel: int,
)
    requires
        filled_by_frames(before, after, old_data, data, out_channels, in_channels, reads),
        0 <= frame < old_data.len() as int / out_channels as int,
        0 <= channel < out_channels,
    ensures
        0 <= frame * out_channels + channel < data.len(),
        (frame + 1) * in_channels <= crate::ring::seen_waiting(before) ==> data[frame
            * out_channels + channel] == (if channel < in_channels {
            crate::ring::popped(after)[crate::ring::popped(before).len() + frame * in_channels
                + channel]
        } else {
            0
        }),
        reads[frame].len() == 0 ==> data[frame * out_channels + channel] == 0,
{
    let total = out_channels as int;
    let k = frame * total + channel;
    assert(0 <= k < old_data.len()) by (nonlinear_arith)
        requires
            0 <= frame,
            frame + 1 <= old_data.len() as int / total,
            0 <= channel < total,
            k == frame * total + channel,
    ;
    lemma_fundamental_div_mod_converse(k, total, frame, channel);
    assert(data[k] == played(reads, frame, channel, in_channels));
    if (frame + 1) * in_channels <= crate::ring::seen_waiting(before) {
        let first = reads.take(frame + 1);
        assert(whole_frames(first, in_channels)) by {
            assert forall|f: int| 0 <= f < first.len() implies (#[trigger] first[f]).len()
                == in_channels by {
                assert((f + 1) * in_channels <= (frame + 1) * in_channels) by (nonlinear_arith)
                    requires
                        f <= frame,
                ;
                assert(first[f] == reads[f]);
            }
        }
        assert(first[frame] == reads[frame]);
        if channel < in_channels {
            lemma_joined_frame(first, frame, channel, in_channels);
            lemma_joined_begins(reads, frame + 1);
            let at = frame * in_channels + channel;
            assert(joined(reads)[at] == joined(first)[at]);
        }
    }
}

/// The output plays the stream of the input where some supported entry has at least its
/// channels and a range of rates with its rate in it; where every entry has too few channels or
/// a range wholly above or wholly below the rate, the choice is one that the default gives.
pub proof fn law_output_can_play_its_stream<D: Fn() -> Result<StreamConfig, String>>(
    input: StreamConfig,
    supported: Seq<SupportedConfig>,
    default: D,
    choice: Result<StreamConfig, String>,
)
    requires
        is_output_choice(input, supported, default, choice),
    ensures
        (exists|i: int|
            0 <= i < supported.len() && input.channels <= (#[trigger] supported[i]).channels
                && supported[i].min_rate <= input.sample_rate && input.sample_rate
                <= supported[i].max_rate) ==> choice == Ok::<StreamConfig, String>(input),
        (forall|i: int|
            0 <= i < supported.len() ==> (#[trigger] supported[i]).channels < input.channels
                || supported[i].min_rate > input.sample_rate || supported[i].max_rate
                < input.sample_rate) ==> default.ensures((), choice),
        default.ensures((), choice) || exists|i: int|
            0 <= i < supported.len() && input.channels <= (#[trigger] supported[i]).channels
                && supported[i].min_rate <= input.sample_rate && input.sample_rate
                <= supported[i].max_rate,
{
}

/// The resampler is made for blocks of 1024 frames, a capture buffer holds ten seconds at
/// 48 kHz and a monitor buffer two.
pub proof fn law_sizes()
    ensures
        RESAMPLE_CHUNK == 1024,
        crate::ring::RING_BUFFER_FRAMES == 10 * 48000,
        crate::ring::MONITOR_BUFFER_FRAMES == 2 * 48000,
{
}

/// At equal rates the caller and the output share one new buffer. At different rates the
/// resampler takes from the caller's buffer, with the channels of the input, and fills that of
/// the output, with its channels. Each holds two seconds at 48 kHz.
pub proof fn law_monitor_rings_connect(
    rings: MonitorRings,
    input: StreamConfig,
    output: StreamConfig,
)
    requires
        are_monitor_rings(rings, input, output),
    ensures
        rings.resampler is None <==> input.sample_rate == output.sample_rate,
        crate::ring::pushed(rings.feed).len() == 0,
        crate::ring::popped(rings.play).len() == 0,
        crate::ring::producer_capacity(rings.feed) == 96000 * input.channels,
        rings.resampler is None ==> {
            &&& crate::ring::consumer_capacity(rings.play) == 96000 * input.channels
            &&& crate::ring::producer_stream(rings.feed) == crate::ring::consumer_stream(rings.play)
        },
        rings.resampler matches Some((staging, staged)) ==> {
            &&& crate::ring::popped(staging).len() == 0
            &&& crate::ring::pushed(staged).len() == 0
            &&& crate::ring::consumer_capacity(staging) == 96000 * input.channels
            &&& crate::ring::producer_capacity(staged) == 96000 * output.channels
            &&& crate::ring::consumer_capacity(rings.play) == 96000 * output.channels
            &&& crate::ring::producer_stream(rings.feed) == crate::ring::consumer_stream(staging)
            &&& crate::ring::producer_stream(staged) == crate::ring::consumer_stream(rings.play)
        },
{
}

/// Where the channel counts agree, the output plays what is taken out, sample for sample, and
/// then zeros; zeros only where nothing that was seen is left waiting.
pub proof fn law_straight_output(
    before: SampleConsumer,
    after: SampleConsumer,
    data: Seq<u32>,
    taken: Seq<u32>,
)
    requires
        filled_straight(before, after, data, taken),
    ensures
        crate::ring::popped(after) == crate::ring::popped(before) + taken,
        taken.len() <= data.len(),
        forall|i: int| 0 <= i < taken.len() ==> #[trigger] data[i] == taken[i],
        forall|i: int| taken.len() <= i < data.len() ==> #[trigger] data[i] == 0,
        taken.len() < data.len() ==> taken.len() >= crate::ring::seen_waiting(before)
            && crate::ring::seen_waiting(after) == 0,
{
}

/// One read more stands behind the others.
pub proof fn law_reads_join(reads: Seq<Seq<u32>>, read: Seq<u32>)
    ensures
        joined(Seq::empty()).len() == 0,
        joined(reads.push(read)) == joined(reads) + read,
{
    assert(reads.push(read).drop_last() =~= reads);
}

/// Where a sample of the frame after so many reads comes from.
proof fn lemma_frame_source(
    reads: Seq<Seq<u32>>,
    count: int,
    channel: int,
    in_channels: nat,
    from: int,
)
    requires
        0 <= count <= reads.len(),
        within_frames(reads, in_channels),
        0 <= channel < in_channels,
        -1 <= from < count,
        from >= 0 ==> channel < reads[from].len(),
        forall|g: int| from < g < count ==> (#[trigger] reads[g]).len() <= channel,
    ensures
        frame_after(reads, count, in_channels).len() == in_channels,
        frame_after(reads, count, in_channels)[channel] == (if from >= 0 {
            reads[from][channel]
        } else {
            0
        }),
    decreases count,
{
    if count > 0 {
        let read = reads[count - 1];
        assert(read.len() <= in_channels);
        if from == count - 1 {
            lemma_frame_len(reads, count - 1, in_channels);
        } else {
            lemma_frame_source(reads, count - 1, channel, in_channels, from);
        }
    }
}

proof fn lemma_frame_len(reads: Seq<Seq<u32>>, count: int, in_channels: nat)
    requires
        0 <= count <= reads.len(),
        within_frames(reads, in_channels),
    ensures
        frame_after(reads, count, in_channels).len() == in_channels,
    decreases count,
{
    if count > 0 {
        lemma_frame_len(reads, count - 1, in_channels);
        assert(reads[count - 1].len() <= in_channels);
    }
}

/// Where the channel counts differ, there is a read for every whole frame of the output. A
/// frame for which nothing came out is silent, as are the channels that the input does not
/// have. Any other sample is that of the last read, up to this frame, that had one for the
/// channel, or silence if none had. An incomplete frame at the end of the output stays.
pub proof fn law_output_frames(
    before: SampleConsumer,
    after: SampleConsumer,
    old_data: Seq<u32>,
    data: Seq<u32>,
    out_channels: nat,
    in_channels: nat,
    reads: Seq<Seq<u32>>,
    frame: int,
    channel: int,
    from: int,
)
    requires
        filled_by_frames(before, after, old_data, data, out_channels, in_channels, reads),
        out_channels > 0,
        0 <= frame < reads.len(),
        0 <= channel < out_channels,
        -1 <= from <= frame,
        from >= 0 ==> channel < reads[from].len(),
        forall|g: int| from < g <= frame ==> (#[trigger] reads[g]).len() <= channel,
    ensures
        data.len() == old_data.len(),
        reads.len() * out_channels <= data.len() < (reads.len() + 1) * out_channels,
        crate::ring::popped(after) == crate::ring::popped(before) + joined(reads),
        forall|g: int| 0 <= g < reads.len() ==> (#[trigger] reads[g]).len() <= in_channels,
        0 <= frame * out_channels + channel < data.len(),
        data[frame * out_channels + channel] == (if reads[frame].len() > 0 && channel < in_channels
            && from >= 0 {
            reads[from][channel]
        } else {
            0
        }),
        forall|k: int|
            reads.len() * out_channels <= k < data.len() ==> #[trigger] data[k] == old_data[k],
{
    let total = out_channels as int;
    let len = old_data.len() as int;
    let count = reads.len() as int;
    assert(count * total <= len < (count + 1) * total) by (nonlinear_arith)
        requires
            count == len / total,
            len >= 0,
            total > 0,
    ;
    let k = frame * total + channel;
    assert(0 <= k < len) by (nonlinear_arith)
        requires
            0 <= frame < count,
            count * total <= len,
            0 <= channel < total,
            k == frame * total + channel,
    ;
    lemma_fundamental_div_mod_converse(k, total, frame, channel);
    assert(data[k] == played(reads, frame, channel, in_channels));
    if channel < in_channels {
        lemma_frame_source(reads, frame + 1, channel, in_channels, from);
    }
    assert forall|j: int| reads.len() * out_channels <= j < data.len() implies #[trigger] data[j]
        == old_data[j] by {
        assert(j / total >= count) by (nonlinear_arith)
            requires
                count * total <= j,
                total > 0,
        ;
    }
}

/// Channel `c` of a block holds in frame `f` the sample that stands there in the interleaved
/// samples, or silence where they do not fill the frame.
pub proof fn law_block_holds_frames(
    samples: Seq<u32>,
    frames: nat,
    channels: nat,
    c: int,
    f: int,
)
    requires
        0 <= c < channels,
        0 <= f < frames,
    ensures
        block_of(samples, frames, channels).len() == channels,
        block_of(samples, frames, channels)[c].len() == frames,
        (f + 1) * channels <= samples.len() ==> block_of(samples, frames, channels)[c][f]
            == samples[f * channels + c],
        (f + 1) * channels > samples.len() ==> block_of(samples, frames, channels)[c][f] == 0,
{
    let total = channels as int;
    let len = samples.len() as int;
    assert((f + 1) * total <= len <==> f < len / total) by (nonlinear_arith)
        requires
            total > 0,
            len >= 0,
            f >= 0,
    ;
}

/// An interleaved block holds frame by frame the samples of all channels.
pub proof fn law_interleaved_holds_frames(
    block: Seq<Seq<u32>>,
    frames: nat,
    channels: nat,
    c: int,
    f: int,
)
    requires
        0 <= c < channels,
        0 <= f < frames,
    ensures
        interleaved(block, frames, channels).len() == frames * channels,
        0 <= f * channels + c < frames * channels,
        interleaved(block, frames, channels)[f * channels + c] == block[c][f],
{
    let total = channels as int;
    assert(0 <= f * total + c < frames * total) by (nonlinear_arith)
        requires
            0 <= f < frames,
            0 <= c < total,
    ;
    lemma_fundamental_div_mod_converse(f * total + c, total, f, c);
}

/// Each buffer of a list shows its own samples.
pub proof fn law_buffers_show_their_samples(buffers: Seq<Vec<u32>>)
    ensures
        buffer_views(buffers).len() == buffers.len(),
        forall|i: int|
            0 <= i < buffers.len() ==> buffer_views(buffers)[i] == (#[trigger] buffers[i])@,
{
}

/// A block for the resampler consists of the next samples that come out of the buffer, as many
/// as it has frames of all channels, each in its channel and frame. Without a block nothing
/// comes out, and too few samples are seen waiting.
pub proof fn law_next_block_is_next(
    before: SampleConsumer,
    after: SampleConsumer,
    frames: nat,
    channels: nat,
    block: Option<Vec<Vec<u32>>>,
)
    requires
        channels > 0,
        is_next_block(before, after, frames, channels, block),
    ensures
        block is None ==> crate::ring::popped(after) == crate::ring::popped(before) && (frames == 0
            || crate::ring::seen_waiting(before) < frames * channels
            && crate::ring::seen_waiting(after) < frames * channels),
        block matches Some(b) ==> {
            &&& frames > 0
            &&& crate::ring::popped(before).is_prefix_of(crate::ring::popped(after))
            &&& crate::ring::popped(after).len() == crate::ring::popped(before).len() + frames
                * channels
            &&& b@.len() == channels
            &&& forall|c: int, f: int|
                0 <= c < channels && 0 <= f < frames ==> (#[trigger] b@[c]@[f])
                    == crate::ring::popped(after)[crate::ring::popped(before).len() + f * channels
                    + c]
        },
{
    match block {
        None => {
            assert(crate::ring::popped(before) + Seq::<u32>::empty() =~= crate::ring::popped(
                before,
            ));
        },
        Some(b) => {
            let samples = choose|samples: Seq<u32>|
                {
                    &&& #[trigger] crate::ring::took(before, samples, after)
                    &&& 0 < samples.len() == frames * channels
                    &&& buffer_views(b@) == block_of(samples, frames, channels)
                };
            assert(frames > 0) by (nonlinear_arith)
                requires
                    frames * channels > 0,
            ;
            assert(crate::ring::popped(before) =~= crate::ring::popped(after).subrange(
                0,
                crate::ring::popped(before).len() as int,
            ));
            assert(buffer_views(b@).len() == b@.len());
            assert forall|c: int, f: int|
                0 <= c < channels && 0 <= f < frames implies (#[trigger] b@[c]@[f])
                == crate::ring::popped(after)[crate::ring::popped(before).len() + f * channels + c] by {
                assert(buffer_views(b@)[c] == b@[c]@);
                law_block_holds_frames(samples, frames, channels, c, f);
                assert((f + 1) * channels <= frames * channels && 0 <= f * channels + c < frames
                    * channels) by (nonlinear_arith)
                    requires
                        0 <= f < frames,
                        0 <= c < channels,
                ;
            }
        },
    }
}

} // verus!
