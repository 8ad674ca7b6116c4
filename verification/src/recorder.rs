//! Bookkeeping of a WAV recording.

use vstd::prelude::*;

verus! {

/// Bytes of a WAV header.
pub const WAV_HEADER_BYTES: u64 = 44;

/// Bytes of a recorded sample.
pub const SAMPLE_BYTES: u64 = 4;

/// The layout of a WAV file.
#[derive(Debug, Clone, Copy, PartialEq, Eq, Structural)]
pub struct WavFormat {
    pub channels: u16,
    pub sample_rate: u32,
    pub bits_per_sample: u16,
    /// Whether the samples are real numbers, and not integers.
    pub real_samples: bool,
}

/// A recording in progress.
#[derive(Debug, Clone, PartialEq, Eq)]
pub struct WavRecorder {
    pub frames_written: u64,
    /// Samples of a frame that is not complete yet.
    pub partial: u16,
    pub sample_rate: u32,
    pub channels: u16,
    pub path: String,
}

impl WavRecorder {
    /// A frame that is not complete lacks a sample.
    pub open spec fn wf(&self) -> bool {
        self.partial == 0 || self.partial < self.channels
    }

    /// All the samples of the recording.
    pub open spec fn samples_written(&self) -> int {
        self.frames_written * self.channels + self.partial
    }

    /// The complete frames of the recording after `count` more samples.
    pub open spec fn frames_after(&self, count: nat) -> int {
        (self.samples_written() + count) / self.channels as int
    }

    /// The samples of an incomplete frame after `count` more samples.
    pub open spec fn partial_after(&self, count: nat) -> int {
        (self.partial + count) % self.channels as int
    }

    /// So many more samples can be counted.
    pub open spec fn can_count(&self, count: nat) -> bool {
        self.wf() && self.channels > 0 && self.frames_after(count) <= u64::MAX
    }

    /// `later` is this recording after `count` more samples.
    pub open spec fn counted(&self, count: nat, later: &WavRecorder) -> bool {
        &&& later.frames_written == self.frames_after(count)
        &&& later.partial == self.partial_after(count)
        &&& later.sample_rate == self.sample_rate
        &&& later.channels == self.channels
        &&& later.path == self.path
    }

    /// The size of the file: the header and the samples of complete frames.
    pub open spec fn size(&self) -> int {
        WAV_HEADER_BYTES + self.frames_written * self.channels * SAMPLE_BYTES
    }

    /// A recording that has just begun.
    pub fn new(path: String, sample_rate: u32, channels: u16) -> (recorder: Self)
        ensures
            recorder.wf(),
            recorder.frames_written == 0,
            recorder.partial == 0,
            recorder.sample_rate == sample_rate,
            recorder.channels == channels,
            recorder.path@ == path@,
    {
        WavRecorder { frames_written: 0, partial: 0, sample_rate, channels, path }
    }

    /// The layout of the file: 32-bit real samples.
    pub fn format(&self) -> (format: WavFormat)
        ensures
            format == (WavFormat {
                channels: self.channels,
                sample_rate: self.sample_rate,
                bits_per_sample: 32,
                real_samples: true,
            }),
    {
        WavFormat {
            channels: self.channels,
            sample_rate: self.sample_rate,
            bits_per_sample: 32,
            real_samples: true,
        }
    }

    /// Counts samples that were written to the file. Samples that do not complete a frame
    /// count with those that follow.
    pub fn write_samples(&mut self, samples: &[u32])
        requires
            old(self).can_count(samples@.len()),
        ensures
            final(self).wf(),
            old(self).counted(samples@.len(), final(self)),
    {
        let channels: u64 = self.channels as u64;
        let count: u64 = samples.len() as u64;
        let rest: u64 = self.partial as u64 + count % channels;
        proof {
            lemma_split_count(
                self.frames_written as int,
                self.partial as int,
                count as int,
                channels as int,
            );
        }
        self.frames_written = self.frames_written + count / channels + rest / channels;
        self.partial = (rest % channels) as u16;
    }

    /// Duration of the recorded audio in seconds, where `seconds` divides frames by a sample
    /// rate.
    pub fn duration_secs<S: Fn(u64, u32) -> u32>(&self, seconds: S) -> (duration: u32)
        requires
            seconds.requires((self.frames_written, self.sample_rate)),
        ensures
            seconds.ensures((self.frames_written, self.sample_rate), duration),
    {
        seconds(self.frames_written, self.sample_rate)
    }

    /// Approximate file size in bytes: header and samples.
    pub fn file_size_bytes(&self) -> (bytes: u64)
        requires
            self.size() <= u64::MAX,
        ensures
            bytes == self.size(),
    {
        assert(self.frames_written * self.channels * 4 >= 0 && self.frames_written * self.channels
            <= self.frames_written * self.channels * 4) by (nonlinear_arith)
            requires
                self.frames_written >= 0,
                self.channels >= 0,
        ;
        WAV_HEADER_BYTES + self.frames_written * self.channels as u64 * SAMPLE_BYTES
    }

    /// Path of the WAV file.
    pub fn path(&self) -> (path: &str)
        ensures
            path@ == self.path@,
    {
        self.path.as_str()
    }

    /// Ends the recording: its path and its duration in seconds, where `seconds` divides
    /// frames by a sample rate.
    pub fn finalize<S: Fn(u64, u32) -> u32>(self, seconds: S) -> (ended: (String, u32))
        requires
            seconds.requires((self.frames_written, self.sample_rate)),
        ensures
            ended.0@ == self.path@,
            seconds.ensures((self.frames_written, self.sample_rate), ended.1),
    {
        let duration: u32 = self.duration_secs(seconds);
        (self.path, duration)
    }
}

/// Full frames and the rest can be counted apart.
proof fn lemma_split_count(frames: int, partial: int, count: int, channels: int)
    requires
        frames >= 0,
        partial >= 0,
        count >= 0,
        channels > 0,
    ensures
        (frames * channels + partial + count) / channels == frames + count / channels + (partial
            + count % channels) / channels,
        (partial + count) % channels == (partial + count % channels) % channels,
        count / channels >= 0,
        0 <= count % channels < channels,
        (partial + count % channels) / channels >= 0,
{
    let full = count / channels;
    let rest = count % channels;
    vstd::arithmetic::div_mod::lemma_fundamental_div_mod(count, channels);
    assert(frames * channels + partial + count == (partial + rest) + (frames + full) * channels)
        by (nonlinear_arith)
        requires
            count == channels * full + rest,
    ;
    vstd::arithmetic::div_mod::lemma_hoist_over_denominator(
        partial + rest,
        frames + full,
        channels as nat,
    );
    vstd::arithmetic::div_mod::lemma_add_mod_noop_right(partial, count, channels);
    assert(full >= 0 && (partial + rest) / channels >= 0) by (nonlinear_arith)
        requires
            full == count / channels,
            count >= 0,
            channels > 0,
            partial + rest >= 0,
    ;
}

/// Every sample counts once: the complete frames and the incomplete one make up all samples
/// that were written.
pub proof fn law_every_sample_counts(before: WavRecorder, count: nat, after: WavRecorder)
    requires
        before.wf(),
        before.channels > 0,
        before.counted(count, &after),
    ensures
        after.wf(),
        after.samples_written() == before.samples_written() + count,
{
    let total = before.samples_written() + count;
    let channels = before.channels as int;
    vstd::arithmetic::div_mod::lemma_fundamental_div_mod(total, channels);
    vstd::arithmetic::div_mod::lemma_mod_multiples_vanish(
        before.frames_written as int,
        before.partial + count,
        channels,
    );
    assert(total == channels * before.frames_written + (before.partial + count))
        by (nonlinear_arith)
        requires
            total == before.frames_written * channels + before.partial + count,
    ;
    assert(after.frames_written * channels == channels * (total / channels)) by (nonlinear_arith)
        requires
            after.frames_written == total / channels,
    ;
}

/// Counting in parts or all at once comes to the same, also where a frame is split over two
/// writes.
pub proof fn law_counting_adds_up(
    before: WavRecorder,
    first: nat,
    between: WavRecorder,
    second: nat,
    after: WavRecorder,
)
    requires
        before.wf(),
        before.channels > 0,
        before.counted(first, &between),
        between.counted(second, &after),
    ensures
        before.counted(first + second, &after),
{
    law_every_sample_counts(before, first, between);
    vstd::arithmetic::div_mod::lemma_add_mod_noop_right(
        second as int,
        before.partial + first,
        before.channels as int,
    );
}

/// Samples that fill their frames make the recording longer by those frames and the file
/// larger by the bytes of every sample.
pub proof fn law_full_frames_grow_the_file(before: WavRecorder, count: nat, after: WavRecorder)
    requires
        before.wf(),
        before.channels > 0,
        before.counted(count, &after),
        count % (before.channels as nat) == 0,
    ensures
        after.frames_written == before.frames_written + count as int / before.channels as int,
        after.partial == before.partial,
        after.size() == before.size() + SAMPLE_BYTES * count,
        after.path == before.path,
{
    let channels = before.channels as int;
    lemma_split_count(
        before.frames_written as int,
        before.partial as int,
        count as int,
        channels,
    );
    vstd::arithmetic::div_mod::lemma_fundamental_div_mod(count as int, channels);
    vstd::arithmetic::div_mod::lemma_small_mod(before.partial as nat, channels as nat);
    vstd::arithmetic::div_mod::lemma_basic_div(before.partial as int, channels);
    assert(after.frames_written * channels * 4 == before.frames_written * channels * 4 + 4 * count)
        by (nonlinear_arith)
        requires
            after.frames_written == before.frames_written + count as int / channels,
            count == channels * (count as int / channels),
    ;
}

/// All samples that were written make up the complete frames and the rest, and the rest is
/// less than a frame.
pub proof fn law_frames_are_complete(before: WavRecorder, count: nat, after: WavRecorder)
    requires
        before.partial < before.channels,
        before.counted(count, &after),
    ensures
        after.frames_written * before.channels + after.partial == before.frames_written
            * before.channels + before.partial + count,
        after.partial < before.channels,
        after.channels == before.channels,
        after.sample_rate == before.sample_rate,
        after.path@ == before.path@,
{
    law_every_sample_counts(before, count, after);
    vstd::arithmetic::div_mod::lemma_mod_bound(before.partial + count, before.channels as int);
}

/// The file holds a header of 44 bytes and four bytes for every sample of a complete frame.
pub proof fn law_file_size(recorder: WavRecorder)
    ensures
        recorder.size() == 44 + 4 * (recorder.frames_written * recorder.channels),
{
}

} // verus!
