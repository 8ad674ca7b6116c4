//! The methods of the plugin. Each starts a session that owns its state; the caller waits,
//! watches the device and performs input and output, and the session says what to emit.

use vstd::prelude::*;
use vstd::string::StringExecFns;

use crate::capture::AudioSource;
use crate::device::{name_matches, StreamConfig, UsbDeviceInfo, PREFERRED_CHANNELS, PREFERRED_RATE};
use crate::meter::{
    analyze_channel, channel_correlation, compute_channel_level, compute_levels,
    deinterleave_channel, Arithmetic,
};
use crate::pcm::{encode_samples, magnitude_of, INFINITE};
use crate::recorder::WavRecorder;
use crate::ring::{drain, SampleConsumer};
use crate::text::{append_decimal, parse_index, split_trimmed};
use crate::types::{
    default_channel_label, resolve_channel_labels, AudioDevice, Channel, MicEvent,
};

verus! {

/// Milliseconds between two readings of a level meter.
pub const LEVEL_INTERVAL_MS: u64 = 50;

/// Milliseconds between two looks at the buffer of a recording.
pub const RECORD_INTERVAL_MS: u64 = 20;

/// Milliseconds between two looks at the buffer of a probe.
pub const PROBE_INTERVAL_MS: u64 = 25;

/// Nanoseconds of a millisecond.
pub const NANOS_PER_MS: u128 = 1_000_000;

/// Nanoseconds between two progress events of a recording.
pub const PROGRESS_NANOS: u128 = 1_000_000_000;

/// The bit pattern of 0.99, the correlation above which channels are identical.
pub const IDENTICAL: u32 = 0x3F7D_70A4;

/// The bit pattern of 0.95, the correlation above which channels have the same source.
pub const SAME_SOURCE: u32 = 0x3F73_3333;

/// The bit pattern of 0.5, the correlation above which channels hear each other.
pub const CROSSTALK: u32 = 0x3F00_0000;

/// The bit pattern of 1.0.
pub const ONE: u32 = 0x3F80_0000;

/// The plugin. It has no state of its own.
#[derive(Debug, Clone, Copy, PartialEq, Eq, Structural)]
pub struct MicHub;

/// What a session wants after a tick.
#[derive(Debug, Clone, PartialEq, Eq)]
pub enum Step {
    /// Emit these events and go on.
    Continue(Vec<MicEvent>),
    /// Emit this event and end.
    Stop(MicEvent),
}

/// An error event.
pub open spec fn error_view(message: Seq<char>) -> crate::types::MicEventView {
    crate::types::MicEventView::Error { message }
}

/// The event where the device was lost.
pub open spec fn disconnected_view() -> crate::types::MicEventView {
    error_view("Audio device disconnected"@)
}

/// A value held between two bounds, or the default where none is given.
pub open spec fn clamped(value: Option<u32>, default: u32, low: u32, high: u32) -> u32 {
    let wanted = match value {
        Some(v) => v,
        None => default,
    };
    if wanted < low {
        low
    } else if wanted > high {
        high
    } else {
        wanted
    }
}

/// Holds a value between two bounds.
fn clamp_or(value: Option<u32>, default: u32, low: u32, high: u32) -> (held: u32)
    requires
        low <= high,
    ensures
        held == clamped(value, default, low, high),
{
    let wanted: u32 = match value {
        Some(v) => v,
        None => default,
    };
    if wanted < low {
        low
    } else if wanted > high {
        high
    } else {
        wanted
    }
}

/// The chunk length of a stream in milliseconds: 50 unless chosen, between 10 and 500.
pub fn chunk_duration(chunk_ms: Option<u32>) -> (duration: u32)
    ensures
        duration == clamped(chunk_ms, 50, 10, 500),
{
    clamp_or(chunk_ms, 50, 10, 500)
}

/// The length of a probe in milliseconds: 1000 unless chosen, between 200 and 5000.
pub fn probe_duration(duration_ms: Option<u32>) -> (duration: u32)
    ensures
        duration == clamped(duration_ms, 1000, 200, 5000),
{
    clamp_or(duration_ms, 1000, 200, 5000)
}

/// The event where the device was lost.
fn disconnected_event() -> (event: MicEvent)
    ensures
        event@ == disconnected_view(),
{
    MicEvent::Error { message: "Audio device disconnected".to_owned() }
}

/// A level meter: `levels`, and `monitor` once it plays.
#[derive(Debug, Clone, Copy, PartialEq, Eq, Structural)]
pub struct LevelSession {
    pub channels: u16,
    pub timestamp_ms: u64,
}

/// The level event of a reading.
pub open spec fn level_view(
    reading: crate::meter::LevelReading,
    timestamp_ms: u64,
) -> crate::types::MicEventView {
    crate::types::MicEventView::Level {
        rms_left: reading.rms_left,
        rms_right: reading.rms_right,
        peak_left: reading.peak_left,
        peak_right: reading.peak_right,
        timestamp_ms,
    }
}

/// The events of a level meter for a window of samples: none for an empty window, else one
/// reading of it.
pub open spec fn are_level_events<F: Fn(&[u32]) -> u32>(
    rms: F,
    window: Seq<u32>,
    channels: u16,
    timestamp_ms: u64,
    events: Seq<MicEvent>,
) -> bool {
    if window.len() == 0 {
        events.len() == 0
    } else {
        exists|reading: crate::meter::LevelReading| #[trigger]
            crate::meter::is_level_reading(rms, window, channels, reading)
                && crate::types::event_views(events) == seq![level_view(reading, timestamp_ms)]
    }
}

impl LevelSession {
    /// The events for a window of samples.
    pub fn level_events<F: Fn(&[u32]) -> u32>(&self, window: &Vec<u32>, rms: &F) -> (events: Vec<
        MicEvent,
    >)
        requires
            crate::meter::measures_any(*rms),
        ensures
            are_level_events(*rms, window@, self.channels, self.timestamp_ms, events@),
    {
        let mut events: Vec<MicEvent> = Vec::new();
        if window.len() > 0 {
            let reading = compute_levels(window.as_slice(), self.channels, rms);
            events.push(
                MicEvent::Level {
                    rms_left: reading.rms_left,
                    rms_right: reading.rms_right,
                    peak_left: reading.peak_left,
                    peak_right: reading.peak_right,
                    timestamp_ms: self.timestamp_ms,
                },
            );
            assert(crate::types::event_views(events@) =~= seq![
                level_view(reading, self.timestamp_ms),
            ]);
        }
        events
    }

    /// One tick, fifty milliseconds after the one before.
    pub fn tick<F: Fn(&[u32]) -> u32>(
        &mut self,
        disconnected: bool,
        consumer: &mut SampleConsumer,
        rms: &F,
    ) -> (step: Step)
        requires
            old(self).timestamp_ms + LEVEL_INTERVAL_MS <= u64::MAX,
            crate::meter::measures_any(*rms),
        ensures
            final(self).channels == old(self).channels,
            final(self).timestamp_ms == old(self).timestamp_ms + LEVEL_INTERVAL_MS,
            match step {
                Step::Stop(event) => disconnected && event@ == disconnected_view()
                    && *final(consumer) == *old(consumer),
                Step::Continue(events) => !disconnected && exists|window: Seq<u32>| #[trigger]
                    crate::ring::drained(*old(consumer), window, *final(consumer))
                        && are_level_events(
                        *rms,
                        window,
                        final(self).channels,
                        final(self).timestamp_ms,
                        events@,
                    ),
            },
    {
        self.timestamp_ms = self.timestamp_ms + LEVEL_INTERVAL_MS;
        if disconnected {
            return Step::Stop(disconnected_event());
        }
        let mut window: Vec<u32> = Vec::new();
        drain(consumer, &mut window);
        let events = self.level_events(&window, rms);
        assert(crate::ring::drained(*old(consumer), window@, *consumer));
        Step::Continue(events)
    }
}

/// A stream of interleaved chunks: `stream_audio`.
#[derive(Debug, Clone, Copy, PartialEq, Eq, Structural)]
pub struct AudioStream {
    pub sample_rate: u32,
    pub channels: u16,
    pub chunk_ms: u32,
    pub sequence: u64,
}

/// The number of frames of `count` samples, as far as 32 bits hold it.
pub open spec fn frame_count(count: nat, channels: u16) -> u32 {
    ((count as int / channels as int) % 0x1_0000_0000) as u32
}

/// The lower 32 bits of a count.
fn low_bits(count: usize) -> (low: u32)
    ensures
        low == count as nat % 0x1_0000_0000,
{
    (count as u64 % 0x1_0000_0000) as u32
}

impl AudioStream {
    /// The session can go on: there is a next sequence number, and frames have samples.
    pub open spec fn wf(&self) -> bool {
        self.channels > 0 && self.sequence < u64::MAX
    }

    /// The events for a window of samples: none for an empty window, else one chunk.
    pub open spec fn chunk_views(&self, window: Seq<u32>) -> Seq<crate::types::MicEventView> {
        if window.len() == 0 {
            Seq::empty()
        } else {
            seq![
                crate::types::MicEventView::AudioData {
                    data: crate::pcm::payload(window),
                    frames: frame_count(window.len(), self.channels),
                    channels: self.channels,
                    sample_rate: self.sample_rate,
                    sequence: self.sequence,
                },
            ]
        }
    }

    /// The session after a window of samples.
    pub open spec fn after(&self, window: Seq<u32>) -> AudioStream {
        AudioStream {
            sequence: if window.len() == 0 {
                self.sequence
            } else {
                (self.sequence + 1) as u64
            },
            ..*self
        }
    }

    /// The events for a window of samples.
    pub fn chunk_events(&mut self, window: &Vec<u32>) -> (events: Vec<MicEvent>)
        requires
            old(self).wf(),
            crate::pcm::payload_fits(window@.len()),
        ensures
            *final(self) == old(self).after(window@),
            crate::types::event_views(events@) == old(self).chunk_views(window@),
    {
        let mut events: Vec<MicEvent> = Vec::new();
        if window.len() > 0 {
            let data = encode_samples(window.as_slice());
            let frames: u32 = low_bits(window.len() / self.channels as usize);
            events.push(
                MicEvent::AudioData {
                    data,
                    frames,
                    channels: self.channels,
                    sample_rate: self.sample_rate,
                    sequence: self.sequence,
                },
            );
            self.sequence = self.sequence + 1;
        }
        assert(crate::types::event_views(events@) =~= old(self).chunk_views(window@));
        events
    }

    /// One tick, a chunk length after the one before.
    pub fn tick(&mut self, disconnected: bool, consumer: &mut SampleConsumer) -> (step: Step)
        requires
            old(self).wf(),
            crate::pcm::payload_fits(crate::ring::consumer_capacity(*old(consumer))),
        ensures
            match step {
                Step::Stop(event) => disconnected && event@ == disconnected_view()
                    && *final(consumer) == *old(consumer) && *final(self) == *old(self),
                Step::Continue(events) => !disconnected && exists|window: Seq<u32>| #[trigger]
                    crate::ring::drained(*old(consumer), window, *final(consumer)) && *final(self)
                        == old(self).after(window) && crate::types::event_views(events@) == old(self).chunk_views(window),
            },
    {
        if disconnected {
            return Step::Stop(disconnected_event());
        }
        let mut window: Vec<u32> = Vec::new();
        drain(consumer, &mut window);
        let events = self.chunk_events(&window);
        assert(crate::ring::drained(*old(consumer), window@, *consumer));
        Step::Continue(events)
    }
}

/// A recording: `record`.
#[derive(Debug, Clone, PartialEq, Eq)]
pub struct RecordSession {
    pub recorder: WavRecorder,
    pub timeout_ms: Option<u64>,
    /// When progress was reported last, in nanoseconds since the start.
    pub last_progress: u128,
}

/// What a recording wants after a tick.
#[derive(Debug, Clone, PartialEq, Eq)]
pub enum RecordStep {
    /// Wait for the next tick.
    Wait,
    /// Write these samples to the file.
    Write(Vec<u32>),
    /// Emit the event, if there is one, and finish the file.
    Finish(Option<MicEvent>),
}

/// What a recording wants after samples were written, or could not be.
#[derive(Debug, Clone, PartialEq, Eq)]
pub struct RecordReport {
    pub events: Vec<MicEvent>,
    /// Whether the file is to be finished now.
    pub finish: bool,
}

/// The time limit is reached: `elapsed` nanoseconds are at least so many milliseconds.
pub open spec fn limit_reached(timeout_ms: Option<u64>, elapsed: u128) -> bool {
    timeout_ms is Some && elapsed >= timeout_ms->0 * NANOS_PER_MS
}

/// A second has passed between two times in nanoseconds.
pub open spec fn progress_due(last: u128, now: u128) -> bool {
    now - last >= PROGRESS_NANOS
}

/// The events after samples were written: their levels, stamped with the length of the
/// recording, and the progress if it is due.
pub open spec fn written_views(
    reading: crate::meter::LevelReading,
    timestamp_ms: u64,
    due: bool,
    duration_secs: u32,
    size: u64,
) -> Seq<crate::types::MicEventView> {
    if due {
        seq![
            level_view(reading, timestamp_ms),
            crate::types::MicEventView::RecordingProgress { duration_secs, file_size_bytes: size },
        ]
    } else {
        seq![level_view(reading, timestamp_ms)]
    }
}

/// The report of samples that were written, after which `recorder` has counted them.
pub open spec fn is_written_report<
    F: Fn(&[u32]) -> u32,
    S: Fn(u64, u32) -> u32,
    M: Fn(u32) -> u64,
>(
    recorder: WavRecorder,
    window: Seq<u32>,
    due: bool,
    rms: F,
    seconds: S,
    millis: M,
    events: Seq<MicEvent>,
) -> bool {
    exists|reading: crate::meter::LevelReading, duration: u32, timestamp_ms: u64|
        {
            &&& #[trigger] crate::meter::is_level_reading(rms, window, recorder.channels, reading)
            &&& #[trigger] seconds.ensures(
                (recorder.frames_written, recorder.sample_rate),
                duration,
            )
            &&& #[trigger] millis.ensures((duration,), timestamp_ms)
            &&& crate::types::event_views(events) == written_views(
                reading,
                timestamp_ms,
                due,
                duration,
                recorder.size() as u64,
            )
        }
}

impl RecordSession {
    /// One tick, `elapsed` nanoseconds after the start: a lost device ends the recording with
    /// an error, the time limit without one; else the samples that wait are to be written.
    pub fn tick(&self, disconnected: bool, elapsed: u128, consumer: &mut SampleConsumer) -> (step:
        RecordStep)
        ensures
            match step {
                RecordStep::Finish(Some(event)) => disconnected && event@ == disconnected_view()
                    && *final(consumer) == *old(consumer),
                RecordStep::Finish(None) => !disconnected && limit_reached(self.timeout_ms, elapsed)
                    && *final(consumer) == *old(consumer),
                RecordStep::Wait => !disconnected && !limit_reached(self.timeout_ms, elapsed)
                    && crate::ring::drained(*old(consumer), Seq::empty(), *final(consumer)),
                RecordStep::Write(window) => !disconnected && !limit_reached(
                    self.timeout_ms,
                    elapsed,
                ) && window@.len() > 0 && crate::ring::drained(
                    *old(consumer),
                    window@,
                    *final(consumer),
                ),
            },
    {
        if disconnected {
            return RecordStep::Finish(Some(disconnected_event()));
        }
        if let Some(limit) = self.timeout_ms {
            assert(limit * NANOS_PER_MS <= u128::MAX) by (nonlinear_arith)
                requires
                    limit <= u64::MAX,
                    NANOS_PER_MS == 1_000_000,
            ;
            if elapsed >= limit as u128 * NANOS_PER_MS {
                return RecordStep::Finish(None);
            }
        }
        let mut window: Vec<u32> = Vec::new();
        drain(consumer, &mut window);
        if window.len() == 0 {
            assert(window@ =~= Seq::<u32>::empty());
            return RecordStep::Wait;
        }
        RecordStep::Write(window)
    }

    /// The report after a window was to be written, `now` nanoseconds after the start. A
    /// failed write ends the recording. `seconds` divides frames by a sample rate and
    /// `millis` turns seconds into whole milliseconds.
    pub fn written<F: Fn(&[u32]) -> u32, S: Fn(u64, u32) -> u32, M: Fn(u32) -> u64>(
        &mut self,
        window: &Vec<u32>,
        outcome: Result<(), String>,
        now: u128,
        rms: &F,
        seconds: S,
        millis: M,
    ) -> (report: RecordReport)
        requires
            outcome is Ok ==> old(self).recorder.can_count(window@.len()),
            outcome is Ok ==> crate::recorder::WAV_HEADER_BYTES + old(self).recorder.frames_after(window@.len()) * old(self).recorder.channels
                * crate::recorder::SAMPLE_BYTES <= u64::MAX,
            crate::meter::measures_any(*rms),
            forall|frames: u64, rate: u32| #[trigger] seconds.requires((frames, rate)),
            forall|duration: u32| #[trigger] millis.requires((duration,)),
        ensures
            final(self).timeout_ms == old(self).timeout_ms,
            match outcome {
                Err(message) => {
                    &&& report.finish
                    &&& crate::types::event_views(report.events@) == seq![error_view(message@)]
                    &&& *final(self) == *old(self)
                },
                Ok(_) => {
                    &&& !report.finish
                    &&& final(self).recorder.wf()
                    &&& old(self).recorder.counted(window@.len(), &final(self).recorder)
                    &&& final(self).last_progress == (if progress_due(
                        old(self).last_progress,
                        now,
                    ) {
                        now
                    } else {
                        old(self).last_progress
                    })
                    &&& is_written_report(
                        final(self).recorder,
                        window@,
                        progress_due(old(self).last_progress, now),
                        *rms,
                        seconds,
                        millis,
                        report.events@,
                    )
                },
            },
    {
        let mut events: Vec<MicEvent> = Vec::new();
        if let Err(message) = outcome {
            events.push(MicEvent::Error { message });
            assert(crate::types::event_views(events@) =~= seq![error_view(events@[0]->message@)]);
            return RecordReport { events, finish: true };
        }
        self.recorder.write_samples(window.as_slice());
        let reading = compute_levels(window.as_slice(), self.recorder.channels, rms);
        let duration: u32 = self.recorder.duration_secs(seconds);
        let timestamp_ms: u64 = millis(duration);
        events.push(
            MicEvent::Level {
                rms_left: reading.rms_left,
                rms_right: reading.rms_right,
                peak_left: reading.peak_left,
                peak_right: reading.peak_right,
                timestamp_ms,
            },
        );
        let due = now >= self.last_progress && now - self.last_progress >= PROGRESS_NANOS;
        if due {
            self.last_progress = now;
            events.push(
                MicEvent::RecordingProgress {
                    duration_secs: duration,
                    file_size_bytes: self.recorder.file_size_bytes(),
                },
            );
        }
        proof {
            assert(crate::types::event_views(events@) =~= written_views(
                reading,
                timestamp_ms,
                due,
                duration,
                self.recorder.size() as u64,
            ));
        }
        RecordReport { events, finish: false }
    }

    /// The last event, once the file was finished or could not be.
    pub fn finished<S: Fn(u64, u32) -> u32>(self, outcome: Result<(), String>, seconds: S) -> (event:
        MicEvent)
        requires
            forall|frames: u64, rate: u32| #[trigger] seconds.requires((frames, rate)),
        ensures
            match outcome {
                Ok(_) => exists|duration: u32| #[trigger]
                    seconds.ensures(
                        (self.recorder.frames_written, self.recorder.sample_rate),
                        duration,
                    ) && event@ == (crate::types::MicEventView::RecordingStopped {
                        path: self.recorder.path@,
                        duration_secs: duration,
                    }),
                Err(message) => event@ == error_view(message@),
            },
    {
        match outcome {
            Ok(_) => {
                let (path, duration_secs) = self.recorder.finalize(seconds);
                MicEvent::RecordingStopped { path, duration_secs }
            },
            Err(message) => MicEvent::Error { message },
        }
    }
}

/// The answer to a channel index that the device does not have.
pub open spec fn out_of_range_message(index: u16, num_channels: u16) -> Seq<char> {
    "Channel index "@ + crate::text::decimal(index as nat) + " out of range (device has "@
        + crate::text::decimal(num_channels as nat) + " channels)"@
}

/// The answer to an entry that is no channel index.
pub open spec fn invalid_index_message(entry: Seq<char>) -> Seq<char> {
    "Invalid channel index: '"@ + entry + "'"@
}

/// The channels that a list of entries selects, or the answer to the first entry that
/// selects none.
pub open spec fn selected_entries(entries: Seq<Seq<char>>, num_channels: u16) -> Result<
    Seq<u16>,
    Seq<char>,
>
    decreases entries.len(),
{
    if entries.len() == 0 {
        Ok(Seq::empty())
    } else {
        match selected_entries(entries.drop_last(), num_channels) {
            Err(message) => Err(message),
            Ok(before) => match crate::text::parsed_index(entries.last()) {
                Some(index) => if index < num_channels {
                    Ok(before.push(index))
                } else {
                    Err(out_of_range_message(index, num_channels))
                },
                None => Err(invalid_index_message(entries.last())),
            },
        }
    }
}

/// The channels to stream: those of a comma-separated list, or all.
pub open spec fn selection(channels: Option<Seq<char>>, num_channels: u16) -> Result<
    Seq<u16>,
    Seq<char>,
> {
    match channels {
        Some(list) => selected_entries(crate::text::comma_list(list), num_channels),
        None => Ok(Seq::new(num_channels as nat, |i: int| i as u16)),
    }
}

/// The contents of a selection, or of the message that stands in its place.
pub open spec fn indices_or_message(result: Result<Vec<u16>, String>) -> Result<
    Seq<u16>,
    Seq<char>,
> {
    match result {
        Ok(indices) => Ok(indices@),
        Err(message) => Err(message@),
    }
}

/// An entry that is in error spoils the whole list.
proof fn lemma_error_stays(entries: Seq<Seq<char>>, num_channels: u16, count: int)
    requires
        0 <= count <= entries.len(),
        selected_entries(entries.take(count), num_channels) is Err,
    ensures
        selected_entries(entries, num_channels) == selected_entries(
            entries.take(count),
            num_channels,
        ),
    decreases entries.len(),
{
    if count == entries.len() {
        assert(entries.take(count) =~= entries);
    } else {
        let shorter = entries.drop_last();
        assert(shorter.take(count) =~= entries.take(count));
        lemma_error_stays(shorter, num_channels, count);
    }
}

/// Reads the channels to stream.
pub fn parse_selection(channels: Option<&str>, num_channels: u16) -> (indices: Result<
    Vec<u16>,
    String,
>)
    ensures
        indices_or_message(indices) == selection(
            crate::types::optional_text(channels),
            num_channels,
        ),
{
    let mut indices: Vec<u16> = Vec::new();
    match channels {
        None => {
            let mut index: u16 = 0;
            while index < num_channels
                invariant
                    index <= num_channels,
                    indices@.len() == index,
                    forall|i: int| 0 <= i < index ==> #[trigger] indices@[i] == i,
                decreases num_channels - index,
            {
                indices.push(index);
                index += 1;
            }
            assert(indices@ =~= Seq::new(num_channels as nat, |i: int| i as u16));
            Ok(indices)
        },
        Some(list) => {
            let entries = split_trimmed(list);
            let ghost all = crate::text::comma_list(list@);
            let mut i: usize = 0;
            assert(all.take(0) =~= Seq::<Seq<char>>::empty());
            assert(crate::text::texts(entries@).len() == entries@.len());
            while i < entries.len()
                invariant
                    i <= entries@.len(),
                    entries@.len() == all.len(),
                    all == crate::text::comma_list(list@),
                    crate::text::texts(entries@) == all,
                    selected_entries(all.take(i as int), num_channels) == Ok::<
                        Seq<u16>,
                        Seq<char>,
                    >(indices@),
                    channels == Some(list),
                decreases entries@.len() - i,
            {
                proof {
                    assert(crate::text::texts(entries@)[i as int] == entries@[i as int]@);
                    assert(all.take(i + 1).drop_last() =~= all.take(i as int));
                    assert(all.take(i + 1).last() == entries@[i as int]@);
                }
                match parse_index(entries[i].as_str()) {
                    Some(index) => {
                        if index < num_channels {
                            indices.push(index);
                        } else {
                            let mut message = String::new();
                            message.append("Channel index ");
                            append_decimal(&mut message, index as u64);
                            message.append(" out of range (device has ");
                            append_decimal(&mut message, num_channels as u64);
                            message.append(" channels)");
                            proof {
                                assert(message@ =~= out_of_range_message(index, num_channels));
                                lemma_error_stays(all, num_channels, i + 1);
                            }
                            return Err(message);
                        }
                    },
                    None => {
                        let mut message = String::new();
                        message.append("Invalid channel index: '");
                        message.append(entries[i].as_str());
                        message.append("'");
                        proof {
                            assert(message@ =~= invalid_index_message(entries@[i as int]@));
                            lemma_error_stays(all, num_channels, i + 1);
                        }
                        return Err(message);
                    },
                }
                i += 1;
            }
            assert(all.take(i as int) =~= all);
            Ok(indices)
        },
    }
}

/// A stream of single channels: `stream_channels`.
#[derive(Debug, Clone, PartialEq, Eq)]
pub struct ChannelStream {
    pub sample_rate: u32,
    pub num_channels: u16,
    pub labels: Vec<String>,
    pub selected: Vec<u16>,
    pub chunk_ms: u32,
    pub sequence: u64,
    pub timestamp_ms: u64,
}

/// The level event of a channel.
pub open spec fn channel_level_view(
    channel: u16,
    label: Seq<char>,
    reading: crate::meter::ChannelLevelReading,
    timestamp_ms: u64,
) -> crate::types::MicEventView {
    crate::types::MicEventView::ChannelLevel {
        channel,
        label,
        rms: reading.rms,
        peak: reading.peak,
        timestamp_ms,
    }
}

impl ChannelStream {
    /// Every channel has a label and every selected channel exists.
    pub open spec fn wf(&self) -> bool {
        &&& self.num_channels > 0
        &&& self.labels@.len() == self.num_channels
        &&& forall|i: int|
            0 <= i < self.selected@.len() ==> #[trigger] self.selected@[i] < self.num_channels
    }

    /// The samples of a window that belong to the selected channel number `i`.
    pub open spec fn mono(&self, window: Seq<u32>, i: int) -> Seq<u32> {
        crate::meter::channel_of(window, self.selected@[i] as int, self.num_channels as int)
    }

    /// The label of the selected channel number `i`.
    pub open spec fn label_of(&self, i: int) -> Seq<char> {
        self.labels@[self.selected@[i] as int]@
    }

    /// The audio event of the selected channel number `i`.
    pub open spec fn data_view(&self, window: Seq<u32>, i: int) -> crate::types::MicEventView {
        crate::types::MicEventView::ChannelAudioData {
            channel: self.selected@[i],
            label: self.label_of(i),
            data: crate::pcm::payload(self.mono(window, i)),
            frames: (self.mono(window, i).len() % 0x1_0000_0000) as u32,
            sample_rate: self.sample_rate,
            sequence: self.sequence,
        }
    }

    /// `event` is the level event of the selected channel number `i`.
    pub open spec fn is_level_event<F: Fn(&[u32]) -> u32>(
        &self,
        rms: F,
        window: Seq<u32>,
        i: int,
        event: MicEvent,
    ) -> bool {
        exists|reading: crate::meter::ChannelLevelReading| #[trigger]
            crate::meter::is_channel_reading(rms, self.mono(window, i), reading) && event@
                == channel_level_view(
                self.selected@[i],
                self.label_of(i),
                reading,
                self.timestamp_ms,
            )
    }

    /// The events of the first `count` selected channels: for each its audio, then its level.
    pub open spec fn are_pairs<F: Fn(&[u32]) -> u32>(
        &self,
        rms: F,
        window: Seq<u32>,
        count: int,
        events: Seq<MicEvent>,
    ) -> bool {
        &&& events.len() == 2 * count
        &&& forall|i: int|
            #![trigger self.selected@[i]]
            0 <= i < count ==> events[2 * i]@ == self.data_view(window, i) && self.is_level_event(
                rms,
                window,
                i,
                events[2 * i + 1],
            )
    }

    /// The events for a window of samples: none for an empty window, else a pair for each
    /// selected channel.
    pub open spec fn are_channel_events<F: Fn(&[u32]) -> u32>(
        &self,
        rms: F,
        window: Seq<u32>,
        events: Seq<MicEvent>,
    ) -> bool {
        if window.len() == 0 {
            events.len() == 0
        } else {
            self.are_pairs(rms, window, self.selected@.len() as int, events)
        }
    }

    /// The rest of the session is as before.
    pub open spec fn same_setup(&self, other: &ChannelStream) -> bool {
        &&& self.sample_rate == other.sample_rate
        &&& self.num_channels == other.num_channels
        &&& self.labels == other.labels
        &&& self.selected == other.selected
        &&& self.chunk_ms == other.chunk_ms
    }

    /// The events for a window of samples.
    pub fn channel_events<F: Fn(&[u32]) -> u32>(&mut self, window: &Vec<u32>, rms: &F) -> (events:
        Vec<MicEvent>)
        requires
            old(self).wf(),
            old(self).sequence < u64::MAX,
            crate::pcm::payload_fits(window@.len()),
            crate::meter::measures_any(*rms),
        ensures
            final(self).same_setup(old(self)),
            final(self).timestamp_ms == old(self).timestamp_ms,
            final(self).sequence == old(self).sequence + (if window@.len() == 0 {
                0int
            } else {
                1
            }),
            old(self).are_channel_events(*rms, window@, events@),
    {
        let mut events: Vec<MicEvent> = Vec::new();
        if window.len() == 0 {
            return events;
        }
        let mut i: usize = 0;
        while i < self.selected.len()
            invariant
                i <= self.selected@.len(),
                *self == *old(self),
                self.wf(),
                crate::pcm::payload_fits(window@.len()),
                crate::meter::measures_any(*rms),
                self.are_pairs(*rms, window@, i as int, events@),
            decreases self.selected@.len() - i,
        {
            let channel: u16 = self.selected[i];
            let mono = deinterleave_channel(
                window.as_slice(),
                channel as usize,
                self.num_channels as usize,
            );
            let label = self.labels[channel as usize].clone();
            proof {
                lemma_channel_shorter(window@, channel as int, self.num_channels as int);
            }
            let ghost before = events@;
            events.push(
                MicEvent::ChannelAudioData {
                    channel,
                    label: label.clone(),
                    data: encode_samples(mono.as_slice()),
                    frames: low_bits(mono.len()),
                    sample_rate: self.sample_rate,
                    sequence: self.sequence,
                },
            );
            let level = compute_channel_level(mono.as_slice(), rms);
            events.push(
                MicEvent::ChannelLevel {
                    channel,
                    label,
                    rms: level.rms,
                    peak: level.peak,
                    timestamp_ms: self.timestamp_ms,
                },
            );
            proof {
                assert forall|j: int|
                    #![trigger self.selected@[j]]
                    0 <= j < i + 1 implies events@[2 * j]@ == self.data_view(window@, j)
                    && self.is_level_event(*rms, window@, j, events@[2 * j + 1]) by {
                    if j < i {
                        assert(events@[2 * j] == before[2 * j]);
                        assert(events@[2 * j + 1] == before[2 * j + 1]);
                    } else {
                        assert(crate::meter::is_channel_reading(
                            *rms,
                            self.mono(window@, j),
                            level,
                        ));
                    }
                }
            }
            i += 1;
        }
        self.sequence = self.sequence + 1;
        events
    }

    /// One tick, a chunk length after the one before.
    pub fn tick<F: Fn(&[u32]) -> u32>(
        &mut self,
        disconnected: bool,
        consumer: &mut SampleConsumer,
        rms: &F,
    ) -> (step: Step)
        requires
            old(self).wf(),
            old(self).sequence < u64::MAX,
            old(self).timestamp_ms + old(self).chunk_ms <= u64::MAX,
            crate::pcm::payload_fits(crate::ring::consumer_capacity(*old(consumer))),
            crate::meter::measures_any(*rms),
        ensures
            final(self).wf(),
            final(self).same_setup(old(self)),
            final(self).timestamp_ms == old(self).timestamp_ms + old(self).chunk_ms,
            match step {
                Step::Stop(event) => disconnected && event@ == disconnected_view()
                    && *final(consumer) == *old(consumer) && final(self).sequence == old(self).sequence,
                Step::Continue(events) => !disconnected && exists|window: Seq<u32>| #[trigger]
                    crate::ring::drained(*old(consumer), window, *final(consumer)) && final(self).sequence == old(self).sequence + (if window.len() == 0 {
                        0int
                    } else {
                        1
                    }) && (ChannelStream {
                        timestamp_ms: final(self).timestamp_ms,
                        ..*old(self)
                    }).are_channel_events(*rms, window, events@),
            },
    {
        self.timestamp_ms = self.timestamp_ms + self.chunk_ms as u64;
        if disconnected {
            return Step::Stop(disconnected_event());
        }
        let mut window: Vec<u32> = Vec::new();
        drain(consumer, &mut window);
        let events = self.channel_events(&window, rms);
        assert(crate::ring::drained(*old(consumer), window@, *consumer));
        Step::Continue(events)
    }
}

/// A channel has no more samples than all channels together.
proof fn lemma_channel_shorter(samples: Seq<u32>, channel: int, total: int)
    requires
        0 <= channel,
        total > 0,
    ensures
        crate::meter::channel_of(samples, channel, total).len() <= samples.len(),
{
    let len = samples.len() as int;
    if channel < len {
        assert((len - channel - 1) / total <= len - channel - 1 && (len - channel - 1) / total >= 0)
            by (nonlinear_arith)
            requires
                channel < len,
                total > 0,
        ;
    }
}

/// A probe of the channels of a source: `probe`.
#[derive(Debug, Clone, PartialEq, Eq)]
pub struct ProbeSession {
    pub sample_rate: u32,
    pub channels: u16,
    pub duration_ms: u32,
    /// The samples of the probe so far, interleaved.
    pub samples: Vec<u32>,
}

/// A correlation is a number with a magnitude above the bound.
pub open spec fn exceeds(correlation: u32, bound: u32) -> bool {
    crate::pcm::is_number(correlation) && crate::pcm::magnitude(correlation) > bound
}

/// Channels with this correlation carry signals of their own.
pub open spec fn independent(correlation: u32) -> bool {
    crate::pcm::is_number(correlation) && crate::pcm::magnitude(correlation) < SAME_SOURCE
}

/// What a correlation says of two channels; `shown` is the correlation with three decimals.
pub open spec fn assessment(correlation: u32, shown: Seq<char>) -> Seq<char> {
    if exceeds(correlation, IDENTICAL) {
        "Channels are identical — mono signal duplicated across both channels. Only one transmitter active or mic in mono mode."@
    } else if exceeds(correlation, SAME_SOURCE) {
        "Channels are highly correlated ("@ + shown
            + ") — likely the same source with minor differences."@
    } else if exceeds(correlation, CROSSTALK) {
        "Channels are moderately correlated ("@ + shown
            + ") — partially independent signals, some crosstalk."@
    } else {
        "Channels are independent ("@ + shown + ") — carrying distinct audio."@
    }
}

/// What a correlation says of two channels.
pub fn assess(correlation: u32, shown: &str) -> (text: String)
    ensures
        text@ == assessment(correlation, shown@),
{
    let size: u32 = magnitude_of(correlation);
    let number = size <= INFINITE;
    let mut text = String::new();
    if number && size > IDENTICAL {
        text.append(
            "Channels are identical — mono signal duplicated across both channels. Only one transmitter active or mic in mono mode.",
        );
    } else if number && size > SAME_SOURCE {
        text.append("Channels are highly correlated (");
        text.append(shown);
        text.append(") — likely the same source with minor differences.");
    } else if number && size > CROSSTALK {
        text.append("Channels are moderately correlated (");
        text.append(shown);
        text.append(") — partially independent signals, some crosstalk.");
    } else {
        text.append("Channels are independent (");
        text.append(shown);
        text.append(") — carrying distinct audio.");
    }
    assert(text@ =~= assessment(correlation, shown@));
    text
}

/// Whether channels with this correlation carry signals of their own.
pub fn is_independent(correlation: u32) -> (alone: bool)
    ensures
        alone == independent(correlation),
{
    let size: u32 = magnitude_of(correlation);
    size <= INFINITE && size < SAME_SOURCE
}

/// The event of an analyzed channel.
pub open spec fn probe_view(
    channel: u16,
    label: Seq<char>,
    analysis: crate::meter::ChannelAnalysis,
) -> crate::types::MicEventView {
    crate::types::MicEventView::ChannelProbe {
        channel,
        label,
        rms: analysis.rms,
        peak: analysis.peak,
        rms_dbfs: analysis.rms_dbfs,
        peak_dbfs: analysis.peak_dbfs,
        noise_floor_dbfs: analysis.noise_floor_dbfs,
        dynamic_range_db: analysis.dynamic_range_db,
        has_signal: analysis.has_signal,
        dc_offset: analysis.dc_offset,
    }
}

/// `event` is the event of a channel with these samples.
pub open spec fn is_probe_event<
    R: Fn(&[u32]) -> u32,
    M: Fn(&[u32]) -> u32,
    L: Fn(u32) -> u32,
    P: Fn(u32, u32) -> u32,
    D: Fn(u32, u32) -> u32,
>(
    arithmetic: Arithmetic<R, M, L, P, D>,
    channel: int,
    label: Seq<char>,
    samples: Seq<u32>,
    event: MicEvent,
) -> bool {
    exists|analysis: crate::meter::ChannelAnalysis| #[trigger]
        crate::meter::is_analysis(arithmetic, samples, analysis) && event@ == probe_view(
            channel as u16,
            label,
            analysis,
        )
}

impl ProbeSession {
    /// The samples of one channel.
    pub open spec fn mono(&self, channel: int) -> Seq<u32> {
        crate::meter::channel_of(self.samples@, channel, self.channels as int)
    }

    /// The summary event.
    pub open spec fn summary_view(
        &self,
        duration_secs: u32,
        correlation: u32,
        channels_independent: bool,
        text: Seq<char>,
    ) -> crate::types::MicEventView {
        crate::types::MicEventView::ProbeSummary {
            channels: self.channels,
            sample_rate: self.sample_rate,
            analysis_duration_secs: duration_secs,
            channel_correlation: correlation,
            channels_independent,
            assessment: text,
        }
    }

    /// `event` is the summary: the correlation of the first two channels and what it says, or
    /// that there is only one.
    pub open spec fn is_summary<
        C: Fn(&[u32], &[u32]) -> u32,
        T: Fn(u32) -> String,
        S: Fn(usize, u32, u16) -> u32,
    >(&self, correlate: C, decimals: T, seconds: S, event: MicEvent) -> bool {
        exists|duration: u32|
            {
                &&& #[trigger] seconds.ensures(
                    (self.samples.len(), self.sample_rate, self.channels),
                    duration,
                )
                &&& if self.channels >= 2 {
                    self.is_pair_summary(correlate, decimals, duration, event)
                } else {
                    event@ == self.summary_view(
                        duration,
                        ONE,
                        false,
                        "Single channel device — no independence analysis."@,
                    )
                }
            }
    }

    /// `event` is the summary for two channels.
    pub open spec fn is_pair_summary<C: Fn(&[u32], &[u32]) -> u32, T: Fn(u32) -> String>(
        &self,
        correlate: C,
        decimals: T,
        duration: u32,
        event: MicEvent,
    ) -> bool {
        exists|value: u32, shown: String|
            {
                &&& #[trigger] crate::meter::is_correlation(
                    correlate,
                    self.mono(0),
                    self.mono(1),
                    value,
                )
                &&& #[trigger] decimals.ensures((value,), shown)
                &&& event@ == self.summary_view(
                    duration,
                    value,
                    independent(value),
                    assessment(value, shown@),
                )
            }
    }

    /// Whether the probe goes on, `elapsed` nanoseconds after its start.
    pub fn collecting(&self, elapsed: u128) -> (more: bool)
        ensures
            more == (elapsed < self.duration_ms * NANOS_PER_MS),
    {
        assert(self.duration_ms * NANOS_PER_MS <= u128::MAX) by (nonlinear_arith)
            requires
                self.duration_ms <= u32::MAX,
                NANOS_PER_MS == 1_000_000,
        ;
        elapsed < self.duration_ms as u128 * NANOS_PER_MS
    }

    /// Collects the samples that wait; the event of a lost device ends the probe.
    pub fn collect(&mut self, disconnected: bool, consumer: &mut SampleConsumer) -> (lost: Option<
        MicEvent,
    >)
        ensures
            final(self).sample_rate == old(self).sample_rate,
            final(self).channels == old(self).channels,
            final(self).duration_ms == old(self).duration_ms,
            match lost {
                Some(event) => disconnected && event@ == disconnected_view() && *final(consumer)
                    == *old(consumer) && *final(self) == *old(self),
                None => !disconnected && exists|window: Seq<u32>| #[trigger]
                    crate::ring::drained(*old(consumer), window, *final(consumer))
                        && final(self).samples@ == old(self).samples@ + window,
            },
    {
        if disconnected {
            return Some(disconnected_event());
        }
        let mut window: Vec<u32> = Vec::new();
        drain(consumer, &mut window);
        let ghost taken = window@;
        self.samples.append(&mut window);
        assert(crate::ring::drained(*old(consumer), taken, *consumer));
        None
    }

    /// The summary of the probe.
    fn summary<
        C: Fn(&[u32], &[u32]) -> u32,
        T: Fn(u32) -> String,
        S: Fn(usize, u32, u16) -> u32,
    >(&self, correlate: C, decimals: T, seconds: S) -> (event: MicEvent)
        requires
            self.channels > 0,
            crate::meter::correlates_any(correlate),
            forall|value: u32| #[trigger] decimals.requires((value,)),
            forall|len: usize, rate: u32, channels: u16| #[trigger]
                seconds.requires((len, rate, channels)),
        ensures
            self.is_summary(correlate, decimals, seconds, event),
    {
        let duration: u32 = seconds(self.samples.len(), self.sample_rate, self.channels);
        if self.channels >= 2 {
            let total: usize = self.channels as usize;
            let first = deinterleave_channel(self.samples.as_slice(), 0, total);
            let second = deinterleave_channel(self.samples.as_slice(), 1, total);
            let value: u32 = channel_correlation(&first, &second, &correlate);
            assert(crate::meter::is_correlation(correlate, self.mono(0), self.mono(1), value));
            let shown = decimals(value);
            let event = MicEvent::ProbeSummary {
                channels: self.channels,
                sample_rate: self.sample_rate,
                analysis_duration_secs: duration,
                channel_correlation: value,
                channels_independent: is_independent(value),
                assessment: assess(value, shown.as_str()),
            };
            assert(self.is_pair_summary(correlate, decimals, duration, event));
            event
        } else {
            MicEvent::ProbeSummary {
                channels: self.channels,
                sample_rate: self.sample_rate,
                analysis_duration_secs: duration,
                channel_correlation: ONE,
                channels_independent: false,
                assessment: "Single channel device — no independence analysis.".to_owned(),
            }
        }
    }

    /// The events of a finished probe: one for each channel, then the summary; an error if
    /// nothing was captured. `correlate` is the Pearson correlation coefficient of two rows
    /// of samples, `decimals` writes a number with three decimals and `seconds` divides a
    /// number of samples by a sample rate and a channel count.
    pub fn report<
        R: Fn(&[u32]) -> u32,
        M: Fn(&[u32]) -> u32,
        L: Fn(u32) -> u32,
        P: Fn(u32, u32) -> u32,
        D: Fn(u32, u32) -> u32,
        C: Fn(&[u32], &[u32]) -> u32,
        T: Fn(u32) -> String,
        S: Fn(usize, u32, u16) -> u32,
    >(
        &self,
        device_name: &str,
        is_dji: bool,
        arithmetic: &Arithmetic<R, M, L, P, D>,
        correlate: C,
        decimals: T,
        seconds: S,
    ) -> (events: Vec<MicEvent>)
        requires
            self.channels > 0,
            crate::meter::computes_any(*arithmetic),
            crate::meter::correlates_any(correlate),
            forall|value: u32| #[trigger] decimals.requires((value,)),
            forall|len: usize, rate: u32, channels: u16| #[trigger]
                seconds.requires((len, rate, channels)),
        ensures
            if self.samples@.len() == 0 {
                crate::types::event_views(events@) == seq![
                    error_view("No audio samples captured during probe window"@),
                ]
            } else {
                &&& events@.len() == self.channels + 1
                &&& forall|channel: int|
                    0 <= channel < self.channels ==> is_probe_event(
                        *arithmetic,
                        channel,
                        crate::types::default_label(device_name@, is_dji, channel),
                        self.mono(channel),
                        #[trigger] events@[channel],
                    )
                &&& self.is_summary(correlate, decimals, seconds, events@[self.channels as int])
            },
    {
        let mut events: Vec<MicEvent> = Vec::new();
        if self.samples.len() == 0 {
            events.push(
                MicEvent::Error {
                    message: "No audio samples captured during probe window".to_owned(),
                },
            );
            assert(crate::types::event_views(events@) =~= seq![
                error_view("No audio samples captured during probe window"@),
            ]);
            return events;
        }
        let mut channel: u16 = 0;
        while channel < self.channels
            invariant
                channel <= self.channels,
                crate::meter::computes_any(*arithmetic),
                events@.len() == channel,
                forall|c: int|
                    0 <= c < channel ==> is_probe_event(
                        *arithmetic,
                        c,
                        crate::types::default_label(device_name@, is_dji, c),
                        self.mono(c),
                        #[trigger] events@[c],
                    ),
            decreases self.channels - channel,
        {
            let mono = deinterleave_channel(
                self.samples.as_slice(),
                channel as usize,
                self.channels as usize,
            );
            let analysis = analyze_channel(mono.as_slice(), arithmetic);
            let label = default_channel_label(device_name, is_dji, channel);
            events.push(
                MicEvent::ChannelProbe {
                    channel,
                    label,
                    rms: analysis.rms,
                    peak: analysis.peak,
                    rms_dbfs: analysis.rms_dbfs,
                    peak_dbfs: analysis.peak_dbfs,
                    noise_floor_dbfs: analysis.noise_floor_dbfs,
                    dynamic_range_db: analysis.dynamic_range_db,
                    has_signal: analysis.has_signal,
                    dc_offset: analysis.dc_offset,
                },
            );
            assert(crate::meter::is_analysis(*arithmetic, self.mono(channel as int), analysis));
            assert(is_probe_event(
                *arithmetic,
                channel as int,
                crate::types::default_label(device_name@, is_dji, channel as int),
                self.mono(channel as int),
                events@[channel as int],
            ));
            channel += 1;
        }
        let summary = self.summary(correlate, decimals, seconds);
        events.push(summary);
        events
    }
}

/// Every selected channel is one that the device has.
pub proof fn law_selected_channels_exist(channels: Option<Seq<char>>, num_channels: u16)
    ensures
        match selection(channels, num_channels) {
            Ok(indices) => forall|i: int|
                0 <= i < indices.len() ==> #[trigger] indices[i] < num_channels,
            Err(_) => true,
        },
{
    if let Some(list) = channels {
        lemma_entries_in_range(crate::text::comma_list(list), num_channels);
    }
}

/// Every entry that is read selects a channel that the device has.
proof fn lemma_entries_in_range(entries: Seq<Seq<char>>, num_channels: u16)
    ensures
        match selected_entries(entries, num_channels) {
            Ok(indices) => indices.len() == entries.len() && forall|i: int|
                0 <= i < indices.len() ==> #[trigger] indices[i] < num_channels,
            Err(_) => true,
        },
    decreases entries.len(),
{
    if entries.len() > 0 {
        lemma_entries_in_range(entries.drop_last(), num_channels);
    }
}

/// The labels and the selected channels of a stream, or the answer to what is wrong with
/// them; labels are looked at first.
pub open spec fn channel_setup(
    source: crate::capture::AudioSource,
    channels: Option<Seq<char>>,
    labels: Option<Seq<char>>,
) -> Result<(Seq<Seq<char>>, Seq<u16>), Seq<char>> {
    match crate::types::resolved_labels(
        source.title(),
        source.dji(),
        source.channel_count(),
        labels,
    ) {
        Err(message) => Err(message),
        Ok(resolved) => match selection(channels, source.channel_count()) {
            Err(message) => Err(message),
            Ok(indices) => Ok((resolved, indices)),
        },
    }
}

/// The devices whose channels are listed: those whose name holds the query; without a query
/// the DJI devices, or all if there are none.
pub open spec fn listed_devices(devices: Seq<AudioDevice>, query: Option<Seq<char>>) -> Seq<
    AudioDevice,
> {
    match query {
        Some(part) => devices.filter(
            |device: AudioDevice| crate::device::name_holds(device.name@, part),
        ),
        None => {
            let dji = devices.filter(|device: AudioDevice| device.is_dji);
            if dji.len() == 0 {
                devices
            } else {
                dji
            }
        },
    }
}

/// The channels of one device with these labels, numbered from zero.
pub open spec fn labelled_channels(device: AudioDevice, labels: Seq<Seq<char>>) -> Seq<
    crate::types::ChannelView,
> {
    Seq::new(
        labels.len(),
        |i: int|
            crate::types::ChannelView {
                index: i as u16,
                device: device.name@,
                label: labels[i],
            },
    )
}

/// The channels of all these devices, one device after the other, or the answer to a label
/// list that does not fit one of them.
pub open spec fn channels_of(devices: Seq<AudioDevice>, labels: Option<Seq<char>>) -> Result<
    Seq<crate::types::ChannelView>,
    Seq<char>,
>
    decreases devices.len(),
{
    if devices.len() == 0 {
        Ok(Seq::empty())
    } else {
        match channels_of(devices.drop_last(), labels) {
            Err(message) => Err(message),
            Ok(before) => {
                let device = devices.last();
                match crate::types::resolved_labels(
                    device.name@,
                    device.is_dji,
                    device.channels,
                    labels,
                ) {
                    Err(message) => Err(message),
                    Ok(resolved) => Ok(before + labelled_channels(device, resolved)),
                }
            },
        }
    }
}

/// The event that lists channels, or says why they cannot be.
pub open spec fn channel_list_view(
    channels: Result<Seq<crate::types::ChannelView>, Seq<char>>,
) -> crate::types::MicEventView {
    match channels {
        Ok(list) => crate::types::MicEventView::ChannelList { channels: list },
        Err(message) => error_view(message),
    }
}

/// A device whose labels do not fit spoils the whole list.
proof fn lemma_label_error_stays(devices: Seq<AudioDevice>, labels: Option<Seq<char>>, count: int)
    requires
        0 <= count <= devices.len(),
        channels_of(devices.take(count), labels) is Err,
    ensures
        channels_of(devices, labels) == channels_of(devices.take(count), labels),
    decreases devices.len(),
{
    if count == devices.len() {
        assert(devices.take(count) =~= devices);
    } else {
        let shorter = devices.drop_last();
        assert(shorter.take(count) =~= devices.take(count));
        lemma_label_error_stays(shorter, labels, count);
    }
}

/// The devices whose name holds the query.
fn keep_matching(devices: Vec<AudioDevice>, query: &str) -> (kept: Vec<AudioDevice>)
    ensures
        kept@ == listed_devices(devices@, Some(query@)),
{
    let ghost all = devices@;
    let ghost fits = |device: AudioDevice| crate::device::name_holds(device.name@, query@);
    let mut kept: Vec<AudioDevice> = Vec::new();
    for device in it: devices
        invariant
            it.seq() == all,
            fits == (|device: AudioDevice| crate::device::name_holds(device.name@, query@)),
            kept@ == all.take(it.index()).filter(fits),
    {
        proof {
            let i = it.index();
            assert(all.take(i + 1).drop_last() =~= all.take(i));
            assert(all.take(i + 1).last() == device);
            reveal_with_fuel(Seq::filter, 2);
        }
        if name_matches(device.name.as_str(), query) {
            kept.push(device);
        }
    }
    assert(all.take(all.len() as int) =~= all);
    kept
}

/// The DJI devices.
fn keep_dji(devices: Vec<AudioDevice>) -> (kept: Vec<AudioDevice>)
    ensures
        kept@ == devices@.filter(|device: AudioDevice| device.is_dji),
{
    let ghost all = devices@;
    let ghost fits = |device: AudioDevice| device.is_dji;
    let mut kept: Vec<AudioDevice> = Vec::new();
    for device in it: devices
        invariant
            it.seq() == all,
            fits == (|device: AudioDevice| device.is_dji),
            kept@ == all.take(it.index()).filter(fits),
    {
        proof {
            let i = it.index();
            assert(all.take(i + 1).drop_last() =~= all.take(i));
            assert(all.take(i + 1).last() == device);
            reveal_with_fuel(Seq::filter, 2);
        }
        if device.is_dji {
            kept.push(device);
        }
    }
    assert(all.take(all.len() as int) =~= all);
    kept
}

/// Whether one of the devices is a DJI device.
fn has_dji(devices: &Vec<AudioDevice>) -> (some: bool)
    ensures
        some == (devices@.filter(|device: AudioDevice| device.is_dji).len() > 0),
{
    let ghost fits = |device: AudioDevice| device.is_dji;
    let mut i: usize = 0;
    assert(devices@.take(0) =~= Seq::<AudioDevice>::empty());
    proof {
        reveal_with_fuel(Seq::filter, 2);
    }
    while i < devices.len()
        invariant
            i <= devices@.len(),
            fits == (|device: AudioDevice| device.is_dji),
            devices@.take(i as int).filter(fits).len() == 0,
        decreases devices@.len() - i,
    {
        if devices[i].is_dji {
            proof {
                devices@.lemma_filter_contains(fits, i as int);
                assert(devices@.filter(fits).contains(devices@[i as int]));
            }
            return true;
        }
        i += 1;
        proof {
            reveal_with_fuel(Seq::filter, 2);
            assert(devices@.take(i as int).drop_last() =~= devices@.take(i - 1));
            assert(devices@.take(i as int).last() == devices@[i - 1]);
        }
    }
    assert(devices@.take(i as int) =~= devices@);
    false
}

/// The devices whose channels are listed.
fn choose_devices(devices: Vec<AudioDevice>, query: Option<&str>) -> (chosen: Vec<AudioDevice>)
    ensures
        chosen@ == listed_devices(devices@, crate::types::optional_text(query)),
{
    match query {
        Some(part) => keep_matching(devices, part),
        None => {
            if has_dji(&devices) {
                keep_dji(devices)
            } else {
                devices
            }
        },
    }
}

impl MicHub {
    /// The plugin.
    pub fn new() -> (hub: Self)
        ensures
            hub == MicHub,
    {
        MicHub
    }

    /// The event that describes the USB device, with the stream that `audio` gives for it, or
    /// the usual one.
    pub fn info<A: Fn() -> Option<StreamConfig>>(&self, usb: Option<UsbDeviceInfo>, audio: A) -> (event:
        MicEvent)
        requires
            audio.requires(()),
        ensures
            match usb {
                None => event@ == error_view("DJI MIC MINI USB device not found"@),
                Some(device) => exists|config: Option<StreamConfig>| #[trigger]
                    audio.ensures((), config) && event@ == (crate::types::MicEventView::DeviceInfo {
                        vendor_id: device.vendor_id,
                        product_id: device.product_id,
                        name: device.name@,
                        channels: match config {
                            Some(c) => c.channels,
                            None => PREFERRED_CHANNELS,
                        },
                        sample_rate: match config {
                            Some(c) => c.sample_rate,
                            None => PREFERRED_RATE,
                        },
                    }),
            },
    {
        match usb {
            Some(device) => {
                let config = audio();
                let (channels, sample_rate): (u16, u32) = match config {
                    Some(c) => (c.channels, c.sample_rate),
                    None => (PREFERRED_CHANNELS, PREFERRED_RATE),
                };
                MicEvent::DeviceInfo {
                    vendor_id: device.vendor_id,
                    product_id: device.product_id,
                    name: device.name,
                    channels,
                    sample_rate,
                }
            },
            None => MicEvent::Error { message: "DJI MIC MINI USB device not found".to_owned() },
        }
    }

    /// The event that lists all inputs.
    pub fn list_devices(&self, devices: Vec<AudioDevice>) -> (event: MicEvent)
        ensures
            event@ == (crate::types::MicEventView::DeviceList {
                devices: crate::types::device_views(devices@),
            }),
    {
        MicEvent::DeviceList { devices }
    }

    /// The event that says whether a source is available.
    pub fn status(&self, device_connected: bool) -> (event: MicEvent)
        ensures
            event@ == (crate::types::MicEventView::Status { device_connected }),
    {
        MicEvent::Status { device_connected }
    }

    /// Starts a recording of a source to a file.
    pub fn record(&self, path: String, source: &AudioSource, timeout: Option<u64>) -> (started: (
        RecordSession,
        MicEvent,
    ))
        ensures
            started.0.recorder.wf(),
            started.0.recorder.frames_written == 0,
            started.0.recorder.partial == 0,
            started.0.recorder.sample_rate == source.rate(),
            started.0.recorder.channels == source.channel_count(),
            started.0.recorder.path@ == path@,
            started.0.timeout_ms == timeout,
            started.0.last_progress == 0,
            started.1@ == (crate::types::MicEventView::RecordingStarted { path: path@ }),
    {
        let recorder = WavRecorder::new(path.clone(), source.sample_rate(), source.channels());
        (
            RecordSession { recorder, timeout_ms: timeout, last_progress: 0 },
            MicEvent::RecordingStarted { path },
        )
    }

    /// Starts a level meter on a source.
    pub fn levels(&self, source: &AudioSource) -> (session: LevelSession)
        ensures
            session == (LevelSession { channels: source.channel_count(), timestamp_ms: 0 }),
    {
        LevelSession { channels: source.channels(), timestamp_ms: 0 }
    }

    /// Starts a stream of chunks of a source.
    pub fn stream_audio(&self, source: &AudioSource, chunk_ms: Option<u32>) -> (started: (
        AudioStream,
        MicEvent,
    ))
        ensures
            started.0 == (AudioStream {
                sample_rate: source.rate(),
                channels: source.channel_count(),
                chunk_ms: clamped(chunk_ms, 50, 10, 500),
                sequence: 0,
            }),
            started.1@ == (crate::types::MicEventView::CaptureStarted {
                sample_rate: source.rate(),
                channels: source.channel_count(),
            }),
    {
        let sample_rate: u32 = source.sample_rate();
        let channels: u16 = source.channels();
        (
            AudioStream { sample_rate, channels, chunk_ms: chunk_duration(chunk_ms), sequence: 0 },
            MicEvent::CaptureStarted { sample_rate, channels },
        )
    }

    /// Starts a probe of a source.
    pub fn probe(&self, source: &AudioSource, duration_ms: Option<u32>) -> (session: ProbeSession)
        ensures
            session.sample_rate == source.rate(),
            session.channels == source.channel_count(),
            session.duration_ms == clamped(duration_ms, 1000, 200, 5000),
            session.samples@ == Seq::<u32>::empty(),
    {
        ProbeSession {
            sample_rate: source.sample_rate(),
            channels: source.channels(),
            duration_ms: probe_duration(duration_ms),
            samples: Vec::new(),
        }
    }

    /// Starts the level meter of a source that is played live.
    pub fn monitor(&self, source: &AudioSource) -> (started: (LevelSession, MicEvent))
        ensures
            started.0 == (LevelSession { channels: source.channel_count(), timestamp_ms: 0 }),
            started.1@ == (crate::types::MicEventView::MonitorStarted {
                sample_rate: source.rate(),
                channels: source.channel_count(),
            }),
    {
        let sample_rate: u32 = source.sample_rate();
        let channels: u16 = source.channels();
        (
            LevelSession { channels, timestamp_ms: 0 },
            MicEvent::MonitorStarted { sample_rate, channels },
        )
    }

    /// The event that lists the channels of the chosen inputs with their labels.
    pub fn list_channels(
        &self,
        devices: Vec<AudioDevice>,
        device: Option<&str>,
        labels: Option<&str>,
    ) -> (event: MicEvent)
        ensures
            event@ == channel_list_view(
                channels_of(
                    listed_devices(devices@, crate::types::optional_text(device)),
                    crate::types::optional_text(labels),
                ),
            ),
    {
        let chosen = choose_devices(devices, device);
        let ghost wanted = crate::types::optional_text(labels);
        let mut channels: Vec<Channel> = Vec::new();
        let mut i: usize = 0;
        proof {
            assert(chosen@.take(0) =~= Seq::<AudioDevice>::empty());
            assert(crate::types::channel_views(channels@)
                =~= Seq::<crate::types::ChannelView>::empty());
        }
        while i < chosen.len()
            invariant
                i <= chosen@.len(),
                wanted == crate::types::optional_text(labels),
                chosen@ == listed_devices(devices@, crate::types::optional_text(device)),
                channels_of(chosen@.take(i as int), wanted) == Ok::<
                    Seq<crate::types::ChannelView>,
                    Seq<char>,
                >(crate::types::channel_views(channels@)),
            decreases chosen@.len() - i,
        {
            let one = &chosen[i];
            proof {
                assert(chosen@.take(i + 1).drop_last() =~= chosen@.take(i as int));
                assert(chosen@.take(i + 1).last() == chosen@[i as int]);
            }
            match resolve_channel_labels(one.name.as_str(), one.is_dji, one.channels, labels) {
                Err(message) => {
                    proof {
                        lemma_label_error_stays(chosen@, wanted, i + 1);
                    }
                    return MicEvent::Error { message };
                },
                Ok(resolved) => {
                    append_channels(&mut channels, one, resolved);
                },
            }
            i += 1;
        }
        assert(chosen@.take(i as int) =~= chosen@);
        MicEvent::ChannelList { channels }
    }

    /// Starts a stream of single channels of a source: those of a comma-separated list, or
    /// all. A wrong label list or selection is answered with an error.
    pub fn stream_channels(
        &self,
        source: &AudioSource,
        channels: Option<&str>,
        labels: Option<&str>,
        chunk_ms: Option<u32>,
    ) -> (started: Result<(ChannelStream, MicEvent), MicEvent>)
        ensures
            match (
                started,
                channel_setup(
                    *source,
                    crate::types::optional_text(channels),
                    crate::types::optional_text(labels),
                ),
            ) {
                (Ok((stream, event)), Ok((resolved, indices))) => {
                    &&& source.channel_count() > 0 ==> stream.wf()
                    &&& stream.sample_rate == source.rate()
                    &&& stream.num_channels == source.channel_count()
                    &&& crate::text::texts(stream.labels@) == resolved
                    &&& stream.selected@ == indices
                    &&& stream.chunk_ms == clamped(chunk_ms, 50, 10, 500)
                    &&& stream.sequence == 0
                    &&& stream.timestamp_ms == 0
                    &&& event@ == (crate::types::MicEventView::CaptureStarted {
                        sample_rate: source.rate(),
                        channels: source.channel_count(),
                    })
                },
                (Err(event), Err(message)) => event@ == error_view(message),
                _ => false,
            },
    {
        let sample_rate: u32 = source.sample_rate();
        let num_channels: u16 = source.channels();
        let name = source.name();
        let resolved = match resolve_channel_labels(
            name.as_str(),
            source.is_dji(),
            num_channels,
            labels,
        ) {
            Ok(resolved) => resolved,
            Err(message) => {
                return Err(MicEvent::Error { message });
            },
        };
        let selected = match parse_selection(channels, num_channels) {
            Ok(selected) => selected,
            Err(message) => {
                return Err(MicEvent::Error { message });
            },
        };
        proof {
            law_selected_channels_exist(crate::types::optional_text(channels), num_channels);
            crate::types::law_one_label_per_channel(
                name@,
                source.dji(),
                num_channels,
                crate::types::optional_text(labels),
            );
            assert(crate::text::texts(resolved@).len() == resolved@.len());
        }
        let stream = ChannelStream {
            sample_rate,
            num_channels,
            labels: resolved,
            selected,
            chunk_ms: chunk_duration(chunk_ms),
            sequence: 0,
            timestamp_ms: 0,
        };
        Ok((stream, MicEvent::CaptureStarted { sample_rate, channels: num_channels }))
    }
}

impl Default for MicHub {
    fn default() -> (hub: Self)
        ensures
            hub == MicHub,
    {
        MicHub::new()
    }
}

/// Appends the channels of one device.
fn append_channels(channels: &mut Vec<Channel>, device: &AudioDevice, labels: Vec<String>)
    requires
        labels@.len() <= u16::MAX,
    ensures
        crate::types::channel_views(final(channels)@) == crate::types::channel_views(
            old(channels)@,
        ) + labelled_channels(*device, crate::text::texts(labels@)),
{
    let ghost before = channels@;
    let ghost all = labels@;
    let mut index: usize = 0;
    for label in it: labels
        invariant
            it.seq() == all,
            all.len() <= u16::MAX,
            index == it.index(),
            channels@.len() == before.len() + index,
            forall|j: int| 0 <= j < before.len() ==> #[trigger] channels@[j] == before[j],
            forall|j: int|
                before.len() <= j < channels@.len() ==> (#[trigger] channels@[j])@
                    == labelled_channels(*device, crate::text::texts(all))[j - before.len()],
    {
        channels.push(Channel { index: index as u16, device: device.name.clone(), label });
        index += 1;
    }
    assert(crate::types::channel_views(channels@) =~= crate::types::channel_views(before)
        + labelled_channels(*device, crate::text::texts(all)));
}

/// All the events of a stream of chunks for one window of samples after the other.
pub open spec fn stream_views(stream: AudioStream, windows: Seq<Seq<u32>>) -> Seq<
    crate::types::MicEventView,
>
    decreases windows.len(),
{
    if windows.len() == 0 {
        Seq::empty()
    } else {
        stream.chunk_views(windows[0]) + stream_views(
            stream.after(windows[0]),
            windows.drop_first(),
        )
    }
}

/// All the samples of the windows, in order.
pub open spec fn all_samples(windows: Seq<Seq<u32>>) -> Seq<u32>
    decreases windows.len(),
{
    if windows.len() == 0 {
        Seq::empty()
    } else {
        windows[0] + all_samples(windows.drop_first())
    }
}

/// What a listener decodes from the chunks, in order.
pub open spec fn decoded(events: Seq<crate::types::MicEventView>) -> Seq<u32>
    decreases events.len(),
{
    if events.len() == 0 {
        Seq::empty()
    } else {
        let rest = decoded(events.drop_first());
        match events[0] {
            crate::types::MicEventView::AudioData { data, .. } => crate::pcm::pcm_samples(
                crate::pcm::base64_bytes(data),
            ) + rest,
            _ => rest,
        }
    }
}

/// A listener of a stream of chunks gets every sample that came out of the buffer, once and
/// in order, whatever the windows it was cut into.
pub proof fn law_stream_loses_nothing(stream: AudioStream, windows: Seq<Seq<u32>>)
    ensures
        decoded(stream_views(stream, windows)) == all_samples(windows),
    decreases windows.len(),
{
    if windows.len() > 0 {
        let window = windows[0];
        let next = stream.after(window);
        let rest = windows.drop_first();
        law_stream_loses_nothing(next, rest);
        let later = stream_views(next, rest);
        let events = stream.chunk_views(window) + later;
        if window.len() == 0 {
            assert(events =~= later);
            assert(all_samples(windows) =~= all_samples(rest));
        } else {
            crate::pcm::law_payload_reads_back(window);
            assert(events.drop_first() =~= later);
            assert(events[0] == stream.chunk_views(window)[0]);
        }
    }
}

/// What came out of a new buffer window by window, and with it what a listener decodes from
/// the chunks of these windows, is what the capture puts in, from its first sample on: it is
/// the beginning of all that goes through the buffer, and of what has been put in so far and
/// what has come out one is the beginning of the other.
pub proof fn law_listener_hears_capture(
    stream: AudioStream,
    windows: Seq<Seq<u32>>,
    producer: crate::ring::SampleProducer,
    before: SampleConsumer,
    after: SampleConsumer,
)
    requires
        crate::ring::producer_stream(producer) == crate::ring::consumer_stream(before),
        crate::ring::pushed(producer).is_prefix_of(crate::ring::producer_stream(producer)),
        crate::ring::popped(before) == Seq::<u32>::empty(),
        crate::ring::took(before, all_samples(windows), after),
    ensures
        decoded(stream_views(stream, windows)) == all_samples(windows),
        all_samples(windows).is_prefix_of(crate::ring::producer_stream(producer)),
        all_samples(windows).is_prefix_of(crate::ring::pushed(producer)) || crate::ring::pushed(
            producer,
        ).is_prefix_of(all_samples(windows)),
{
    assert(crate::ring::popped(after) =~= all_samples(windows));
    crate::ring::law_first_in_first_out(producer, after);
    law_stream_loses_nothing(stream, windows);
}

/// Draining a buffer tick by tick takes the windows out one after the other.
pub proof fn law_windows_add_up(
    first: SampleConsumer,
    windows: Seq<Seq<u32>>,
    second: SampleConsumer,
    window: Seq<u32>,
    third: SampleConsumer,
)
    requires
        crate::ring::took(first, all_samples(windows), second),
        crate::ring::drained(second, window, third),
    ensures
        crate::ring::took(first, all_samples(windows.push(window)), third),
{
    lemma_last_window(windows, window);
    crate::ring::law_takes_add_up(first, all_samples(windows), second, window, third);
}

/// The samples of one more window stand at the end.
proof fn lemma_last_window(windows: Seq<Seq<u32>>, window: Seq<u32>)
    ensures
        all_samples(windows.push(window)) == all_samples(windows) + window,
    decreases windows.len(),
{
    let more = windows.push(window);
    if windows.len() == 0 {
        assert(more.drop_first() =~= windows);
        assert(all_samples(windows) == Seq::<u32>::empty());
        assert(all_samples(more) == more[0] + all_samples(more.drop_first()));
        assert(all_samples(more) =~= window);
        assert(all_samples(windows) + window =~= window);
    } else {
        lemma_last_window(windows.drop_first(), window);
        assert(more.drop_first() =~= windows.drop_first().push(window));
        assert(all_samples(more) =~= all_samples(windows) + window);
    }
}

/// The chunks of a stream are numbered one after the other without a gap.
pub proof fn law_chunks_are_numbered(stream: AudioStream, windows: Seq<Seq<u32>>, i: int)
    requires
        stream.sequence + windows.len() <= u64::MAX,
        0 <= i < stream_views(stream, windows).len(),
    ensures
        stream_views(stream, windows)[i] is AudioData,
        stream_views(stream, windows)[i]->AudioData_sequence == stream.sequence + i,
    decreases windows.len(),
{
    let window = windows[0];
    let next = stream.after(window);
    let rest = windows.drop_first();
    let later = stream_views(next, rest);
    if window.len() == 0 {
        assert(stream_views(stream, windows) =~= later);
        law_chunks_are_numbered(next, rest, i);
    } else if i > 0 {
        assert(stream_views(stream, windows)[i] == later[i - 1]);
        law_chunks_are_numbered(next, rest, i - 1);
    }
}

/// A listener of single channels gets the samples of each selected channel, bit for bit, and
/// the chunks of all channels of one tick carry the same number.
pub proof fn law_channel_chunks(stream: ChannelStream, window: Seq<u32>, i: int, j: int)
    requires
        0 <= i < stream.selected@.len(),
        0 <= j < stream.selected@.len(),
    ensures
        crate::pcm::pcm_samples(
            crate::pcm::base64_bytes(stream.data_view(window, i)->ChannelAudioData_data),
        ) == crate::meter::channel_of(
            window,
            stream.selected@[i] as int,
            stream.num_channels as int,
        ),
        stream.data_view(window, i)->ChannelAudioData_sequence == stream.data_view(
            window,
            j,
        )->ChannelAudioData_sequence,
{
    crate::pcm::law_payload_reads_back(stream.mono(window, i));
}

/// Every window holds whole frames.
pub open spec fn whole_windows(windows: Seq<Seq<u32>>, channels: int) -> bool {
    forall|w: int| 0 <= w < windows.len() ==> (#[trigger] windows[w]).len() as int % channels == 0
}

/// What a listener decodes from the chunks of the selected channel number `i`, one window of
/// samples after the other.
pub open spec fn heard_channel(stream: ChannelStream, windows: Seq<Seq<u32>>, i: int) -> Seq<u32>
    decreases windows.len(),
{
    if windows.len() == 0 {
        Seq::empty()
    } else {
        let rest = heard_channel(stream, windows.drop_first(), i);
        if windows[0].len() == 0 {
            rest
        } else {
            crate::pcm::pcm_samples(
                crate::pcm::base64_bytes(
                    stream.data_view(windows[0], i)->ChannelAudioData_data,
                ),
            ) + rest
        }
    }
}

/// Over windows of whole frames a listener of a selected channel gets that channel of all the
/// samples, once and in order.
pub proof fn law_channel_stream_loses_nothing(
    stream: ChannelStream,
    windows: Seq<Seq<u32>>,
    i: int,
)
    requires
        stream.wf(),
        0 <= i < stream.selected@.len(),
        whole_windows(windows, stream.num_channels as int),
    ensures
        heard_channel(stream, windows, i) == crate::meter::channel_of(
            all_samples(windows),
            stream.selected@[i] as int,
            stream.num_channels as int,
        ),
    decreases windows.len(),
{
    let channel = stream.selected@[i] as int;
    let total = stream.num_channels as int;
    assert(channel < total);
    if windows.len() == 0 {
        assert(crate::meter::channel_of(all_samples(windows), channel, total)
            =~= Seq::<u32>::empty());
    } else {
        let window = windows[0];
        let rest = windows.drop_first();
        assert(whole_windows(rest, total)) by {
            assert forall|w: int| 0 <= w < rest.len() implies (#[trigger] rest[w]).len() as int
                % total == 0 by {
                assert(rest[w] == windows[w + 1]);
            }
        }
        law_channel_stream_loses_nothing(stream, rest, i);
        if window.len() == 0 {
            assert(all_samples(windows) =~= all_samples(rest));
        } else {
            law_channel_chunks(stream, window, i, i);
            crate::meter::law_channels_join(window, all_samples(rest), channel, total);
        }
    }
}

/// A clamped value lies between its bounds, is the value itself where that does, and is the
/// default where none was given.
pub proof fn law_clamped(value: Option<u32>, default: u32, low: u32, high: u32)
    requires
        low <= default <= high,
    ensures
        low <= clamped(value, default, low, high) <= high,
        value is Some && low <= value->0 <= high ==> clamped(value, default, low, high) == value->0,
        value is None ==> clamped(value, default, low, high) == default,
{
}

/// Without a query only DJI devices are listed as soon as there is one, and every device is
/// where there is none.
pub proof fn law_dji_preferred(devices: Seq<AudioDevice>, i: int)
    requires
        0 <= i < devices.len(),
    ensures
        devices[i].is_dji ==> listed_devices(devices, None).contains(devices[i]) && forall|j: int|
            0 <= j < listed_devices(devices, None).len() ==> (#[trigger] listed_devices(
                devices,
                None,
            )[j]).is_dji,
        (forall|j: int| 0 <= j < devices.len() ==> !(#[trigger] devices[j]).is_dji)
            ==> listed_devices(devices, None) == devices,
{
    let fits = |device: AudioDevice| device.is_dji;
    let dji = devices.filter(fits);
    if devices[i].is_dji {
        devices.lemma_filter_contains(fits, i);
        assert(dji.contains(devices[i]));
        assert forall|j: int| 0 <= j < dji.len() implies (#[trigger] dji[j]).is_dji by {
            devices.lemma_filter_pred(fits, j);
        }
    }
    if forall|j: int| 0 <= j < devices.len() ==> !(#[trigger] devices[j]).is_dji {
        if dji.len() > 0 {
            devices.lemma_filter_pred(fits, 0);
            assert(dji.contains(dji[0]));
            devices.lemma_filter_contains_rev(fits, dji[0]);
            let k = choose|k: int| 0 <= k < devices.len() && devices[k] == dji[0];
            assert(!devices[k].is_dji);
        }
    }
}

/// Channels with identical audio are not independent, and a correlation that is no number
/// does not make channels independent.
pub proof fn law_assessment_consistent(correlation: u32)
    ensures
        exceeds(correlation, IDENTICAL) || exceeds(correlation, SAME_SOURCE) ==> !independent(
            correlation,
        ),
        !crate::pcm::is_number(correlation) ==> !independent(correlation),
        crate::pcm::is_number(correlation) && crate::pcm::magnitude(correlation) <= CROSSTALK
            ==> independent(correlation),
{
}

/// Every channel that the device has can be selected by its index.
pub proof fn law_every_channel_can_be_selected(index: u16, num_channels: u16)
    requires
        index < num_channels,
    ensures
        selection(Some(crate::text::decimal(index as nat)), num_channels) == Ok::<
            Seq<u16>,
            Seq<char>,
        >(seq![index]),
{
    crate::text::law_single_index_list(index);
    crate::text::law_index_reads_back(index);
    let entries = crate::text::comma_list(crate::text::decimal(index as nat));
    assert(entries.drop_last() =~= Seq::<Seq<char>>::empty());
    reveal_with_fuel(selected_entries, 2);
    assert(Seq::<u16>::empty().push(index) =~= seq![index]);
}

/// The channels that are listed for a device are the ones that a stream of it offers: one
/// for each index, under the same label.
pub proof fn law_listed_channels_can_be_streamed(
    device: AudioDevice,
    source: crate::capture::AudioSource,
    labels: Option<Seq<char>>,
    index: u16,
)
    requires
        source.title() == device.name@,
        source.dji() == device.is_dji,
        source.channel_count() == device.channels,
        index < device.channels,
        channels_of(seq![device], labels) is Ok,
    ensures
        channels_of(seq![device], labels)->Ok_0.len() == device.channels,
        channels_of(seq![device], labels)->Ok_0[index as int].index == index,
        channels_of(seq![device], labels)->Ok_0[index as int].device == device.name@,
        channel_setup(source, Some(crate::text::decimal(index as nat)), labels) is Ok,
        channel_setup(source, Some(crate::text::decimal(index as nat)), labels)->Ok_0.1
            == seq![index],
        channel_setup(source, Some(crate::text::decimal(index as nat)), labels)->Ok_0.0[index as int]
            == channels_of(seq![device], labels)->Ok_0[index as int].label,
{
    law_every_channel_can_be_selected(index, device.channels);
    assert(seq![device].drop_last() =~= Seq::<AudioDevice>::empty());
    reveal_with_fuel(channels_of, 2);
}

/// A level meter reads every fifty milliseconds, a recording looks every twenty and a probe
/// every twenty-five; a recording reports progress once a second.
pub proof fn law_intervals()
    ensures
        LEVEL_INTERVAL_MS == 50,
        RECORD_INTERVAL_MS == 20,
        PROBE_INTERVAL_MS == 25,
        NANOS_PER_MS == 1_000_000,
        PROGRESS_NANOS == 1_000 * NANOS_PER_MS,
{
}

/// A value below the bounds is raised to the lower one and a value above them lowered to the
/// upper one.
pub proof fn law_clamped_at_the_bounds(value: u32, default: u32, low: u32, high: u32)
    requires
        low <= high,
    ensures
        value < low ==> clamped(Some(value), default, low, high) == low,
        value > high ==> clamped(Some(value), default, low, high) == high,
        low <= value <= high ==> clamped(Some(value), default, low, high) == value,
{
}

/// An error event carries its message, and that of a lost device says so.
pub proof fn law_errors_carry_their_message(event: MicEvent, message: Seq<char>)
    ensures
        event@ == error_view(message) <==> (event matches MicEvent::Error { message: text }
            && text@ == message),
        event@ == disconnected_view() <==> (event matches MicEvent::Error { message: text }
            && text@ == "Audio device disconnected"@),
{
}

/// A level meter is silent on an empty window and emits one event for any other: its stamp,
/// with the left side measured on the first channel of the window and the right side on the
/// second, or on the first where there is no other.
pub proof fn law_level_event_reads_window<F: Fn(&[u32]) -> u32>(
    rms: F,
    window: Seq<u32>,
    channels: u16,
    stamp: u64,
    events: Seq<MicEvent>,
)
    requires
        are_level_events(rms, window, channels, stamp, events),
    ensures
        window.len() == 0 ==> events.len() == 0,
        window.len() > 0 ==> events.len() == 1,
        window.len() > 0 ==> match events[0] {
            MicEvent::Level { rms_left, rms_right, peak_left, peak_right, timestamp_ms } => {
                let left = crate::meter::channel_of(window, 0, channels as int);
                let right = crate::meter::channel_of(window, 1, channels as int);
                &&& timestamp_ms == stamp
                &&& channels > 0 ==> peak_left == crate::meter::peak_of(left)
                &&& channels > 0 ==> exists|w: &[u32]|
                    w@ == left && #[trigger] rms.ensures((w,), rms_left)
                &&& channels == 1 ==> peak_right == peak_left && rms_right == rms_left
                &&& channels > 1 ==> peak_right == crate::meter::peak_of(right)
                &&& channels > 1 && right.len() > 0 ==> exists|w: &[u32]|
                    w@ == right && #[trigger] rms.ensures((w,), rms_right)
                &&& channels > 1 && right.len() == 0 ==> rms_right == 0
                &&& channels == 0 ==> peak_left == 0 && peak_right == 0 && rms_left == 0 && rms_right == 0
            },
            _ => false,
        },
{
    if window.len() > 0 {
        let reading = choose|reading: crate::meter::LevelReading| #[trigger]
            crate::meter::is_level_reading(rms, window, channels, reading)
                && crate::types::event_views(events) == seq![level_view(reading, stamp)];
        lemma_level_event(rms, window, channels, stamp, reading, events, 0);
        assert(crate::types::event_views(events).len() == 1);
    }
}

/// `event` is a level event with this stamp that shows on its left side the peak and the RMS
/// of the first channel of the window, and on its right side those of the second, or of the
/// first where there is no other.
spec fn level_reads_window<F: Fn(&[u32]) -> u32>(
    rms: F,
    window: Seq<u32>,
    channels: u16,
    stamp: u64,
    event: MicEvent,
) -> bool {
    match event {
        MicEvent::Level { rms_left, rms_right, peak_left, peak_right, timestamp_ms } => {
            let left = crate::meter::channel_of(window, 0, channels as int);
            let right = crate::meter::channel_of(window, 1, channels as int);
            &&& timestamp_ms == stamp
            &&& channels > 0 ==> peak_left == crate::meter::peak_of(left)
            &&& channels > 0 ==> exists|w: &[u32]|
                w@ == left && #[trigger] rms.ensures((w,), rms_left)
            &&& channels == 1 ==> peak_right == peak_left && rms_right == rms_left
            &&& channels > 1 ==> peak_right == crate::meter::peak_of(right)
            &&& channels > 1 && right.len() > 0 ==> exists|w: &[u32]|
                w@ == right && #[trigger] rms.ensures((w,), rms_right)
            &&& channels > 1 && right.len() == 0 ==> rms_right == 0
            &&& channels == 0 ==> peak_left == 0 && peak_right == 0 && rms_left == 0 && rms_right
                == 0
        },
        _ => false,
    }
}

/// The event of a reading reads the window that was read.
proof fn lemma_level_event<F: Fn(&[u32]) -> u32>(
    rms: F,
    window: Seq<u32>,
    channels: u16,
    stamp: u64,
    reading: crate::meter::LevelReading,
    events: Seq<MicEvent>,
    i: int,
)
    requires
        window.len() > 0,
        crate::meter::is_level_reading(rms, window, channels, reading),
        0 <= i < crate::types::event_views(events).len(),
        crate::types::event_views(events)[i] == level_view(reading, stamp),
    ensures
        level_reads_window(rms, window, channels, stamp, events[i]),
{
    crate::meter::law_sides_are_measured(rms, window, channels, reading);
    assert(events[i]@ == level_view(reading, stamp));
    if channels > 0 {
        crate::meter::law_channel_is_every_nth(window, 1, channels as int);
    }
}

/// A chunk holds the samples of its window, bit for bit, says where it stands in the stream
/// and counts the frames that the samples fill; less than a frame is left over. An empty
/// window makes no chunk and takes no number.
pub proof fn law_chunk_counts_its_frames(stream: AudioStream, window: Seq<u32>)
    requires
        stream.channels > 0,
        stream.sequence < u64::MAX,
    ensures
        window.len() == 0 ==> stream.chunk_views(window).len() == 0 && stream.after(window)
            == stream,
        window.len() > 0 ==> {
            &&& stream.chunk_views(window).len() == 1
            &&& match stream.chunk_views(window)[0] {
                crate::types::MicEventView::AudioData {
                    data,
                    frames,
                    channels,
                    sample_rate,
                    sequence,
                } => {
                    &&& crate::pcm::pcm_samples(crate::pcm::base64_bytes(data)) == window
                    &&& channels == stream.channels
                    &&& sample_rate == stream.sample_rate
                    &&& sequence == stream.sequence
                    &&& window.len() < 0x1_0000_0000 * channels ==> frames * channels
                        <= window.len() < (frames + 1) * channels
                },
                _ => false,
            }
            &&& stream.after(window).sequence == stream.sequence + 1
            &&& stream.after(window).channels == stream.channels
            &&& stream.after(window).sample_rate == stream.sample_rate
            &&& stream.after(window).chunk_ms == stream.chunk_ms
        },
{
    if window.len() > 0 {
        crate::pcm::law_payload_reads_back(window);
        let total = stream.channels as int;
        let len = window.len() as int;
        let frames = len / total;
        assert(frames >= 0 && frames * total <= len < (frames + 1) * total && (len < 0x1_0000_0000
            * total ==> frames < 0x1_0000_0000)) by (nonlinear_arith)
            requires
                frames == len / total,
                len >= 0,
                total > 0,
        ;
    }
}

/// A time limit is reached once so many milliseconds have passed, and progress is due once a
/// second has.
pub proof fn law_time_passes(timeout_ms: Option<u64>, elapsed: u128, last: u128, now: u128)
    ensures
        timeout_ms is None ==> !limit_reached(timeout_ms, elapsed),
        timeout_ms matches Some(ms) ==> (limit_reached(timeout_ms, elapsed) <==> elapsed
            >= 1_000_000 * ms),
        progress_due(last, now) <==> now >= last + 1_000_000_000,
{
}

/// After samples were written to a recording the level event reads them side by side, stamped
/// with the length of the recording in milliseconds; where progress is due it follows, with
/// the length and the size of the recording.
pub proof fn law_recording_reads_what_was_written<
    F: Fn(&[u32]) -> u32,
    S: Fn(u64, u32) -> u32,
    M: Fn(u32) -> u64,
>(
    recorder: WavRecorder,
    window: Seq<u32>,
    due: bool,
    rms: F,
    seconds: S,
    millis: M,
    events: Seq<MicEvent>,
)
    requires
        window.len() > 0,
        is_written_report(recorder, window, due, rms, seconds, millis, events),
    ensures
        events.len() == (if due {
            2int
        } else {
            1
        }),
        exists|duration: u32, stamp: u64|
            {
                &&& #[trigger] seconds.ensures(
                    (recorder.frames_written, recorder.sample_rate),
                    duration,
                )
                &&& #[trigger] millis.ensures((duration,), stamp)
                &&& match events[0] {
                    MicEvent::Level { rms_left, rms_right, peak_left, peak_right, timestamp_ms } => {
                        let left = crate::meter::channel_of(window, 0, recorder.channels as int);
                        let right = crate::meter::channel_of(window, 1, recorder.channels as int);
                        &&& timestamp_ms == stamp
                        &&& recorder.channels > 0 ==> peak_left == crate::meter::peak_of(left)
                        &&& recorder.channels > 0 ==> exists|w: &[u32]|
                            w@ == left && #[trigger] rms.ensures((w,), rms_left)
                        &&& recorder.channels == 1 ==> peak_right == peak_left && rms_right == rms_left
                        &&& recorder.channels > 1 ==> peak_right == crate::meter::peak_of(right)
                        &&& recorder.channels > 1 && right.len() > 0 ==> exists|w: &[u32]|
                            w@ == right && #[trigger] rms.ensures((w,), rms_right)
                        &&& recorder.channels > 1 && right.len() == 0 ==> rms_right == 0
                        &&& recorder.channels == 0 ==> peak_left == 0 && peak_right == 0 && rms_left == 0 && rms_right == 0
                    },
                    _ => false,
                }
                &&& due ==> (events[1] matches MicEvent::RecordingProgress {
                    duration_secs,
                    file_size_bytes,
                } && duration_secs == duration && file_size_bytes == recorder.size() as u64)
            },
{
    let (reading, duration, stamp) = choose|
        reading: crate::meter::LevelReading,
        duration: u32,
        timestamp_ms: u64,
    |
        {
            &&& #[trigger] crate::meter::is_level_reading(rms, window, recorder.channels, reading)
            &&& #[trigger] seconds.ensures(
                (recorder.frames_written, recorder.sample_rate),
                duration,
            )
            &&& #[trigger] millis.ensures((duration,), timestamp_ms)
            &&& crate::types::event_views(events) == written_views(
                reading,
                timestamp_ms,
                due,
                duration,
                recorder.size() as u64,
            )
        };
    assert(crate::types::event_views(events).len() == events.len());
    lemma_level_event(rms, window, recorder.channels, stamp, reading, events, 0);
    if due {
        assert(events[1]@ == crate::types::event_views(events)[1]);
    }
}

/// The answers to a wrong channel index name the index or entry, and the channels that the
/// device has.
pub proof fn law_wrong_index_is_named(index: u16, num_channels: u16, entry: Seq<char>)
    ensures
        out_of_range_message(index, num_channels) == "Channel index "@ + crate::text::decimal(
            index as nat,
        ) + " out of range (device has "@ + crate::text::decimal(num_channels as nat)
            + " channels)"@,
        invalid_index_message(entry) == "Invalid channel index: '"@ + entry + "'"@,
{
}

/// `at` is the place of the first entry that selects no channel, and `message` names it.
spec fn is_first_wrong_entry(
    entries: Seq<Seq<char>>,
    num_channels: u16,
    at: int,
    message: Seq<char>,
) -> bool {
    &&& 0 <= at < entries.len()
    &&& forall|j: int|
        0 <= j < at ==> crate::text::parsed_index(#[trigger] entries[j]) is Some
            && crate::text::parsed_index(entries[j])->0 < num_channels
    &&& match crate::text::parsed_index(entries[at]) {
        None => message == invalid_index_message(entries[at]),
        Some(index) => index >= num_channels && message == out_of_range_message(
            index,
            num_channels,
        ),
    }
}

/// Entries select one channel each, in their order, if every one is the index of a channel
/// that the device has; the first that is not is named.
proof fn lemma_entries_select(entries: Seq<Seq<char>>, num_channels: u16)
    ensures
        match selected_entries(entries, num_channels) {
            Ok(indices) => indices.len() == entries.len() && forall|i: int|
                0 <= i < entries.len() ==> crate::text::parsed_index(#[trigger] entries[i]) == Some(
                    indices[i],
                ) && indices[i] < num_channels,
            Err(message) => exists|at: int| #[trigger]
                is_first_wrong_entry(entries, num_channels, at, message),
        },
    decreases entries.len(),
{
    if entries.len() > 0 {
        let shorter = entries.drop_last();
        let last = entries.len() - 1;
        lemma_entries_select(shorter, num_channels);
        match selected_entries(shorter, num_channels) {
            Err(message) => {
                let at = choose|at: int| #[trigger]
                    is_first_wrong_entry(shorter, num_channels, at, message);
                assert forall|j: int| 0 <= j < at implies crate::text::parsed_index(
                    #[trigger] entries[j],
                ) is Some && crate::text::parsed_index(entries[j])->0 < num_channels by {
                    assert(entries[j] == shorter[j]);
                }
                assert(entries[at] == shorter[at]);
                assert(is_first_wrong_entry(entries, num_channels, at, message));
            },
            Ok(before) => {
                assert(entries[last] == entries.last());
                assert forall|j: int| 0 <= j < last implies crate::text::parsed_index(
                    #[trigger] entries[j],
                ) == Some(before[j]) && before[j] < num_channels by {
                    assert(entries[j] == shorter[j]);
                }
                match selected_entries(entries, num_channels) {
                    Ok(indices) => {
                        assert(indices == before.push(indices[last]));
                    },
                    Err(message) => {
                        assert(is_first_wrong_entry(entries, num_channels, last, message));
                    },
                }
            },
        }
    }
}

/// A list selects one channel for each of its entries, in their order, if every entry is the
/// index of a channel that the device has; the first that is not is named. Without a list all
/// channels are selected, in their order.
pub proof fn law_selection_follows_list(channels: Option<Seq<char>>, num_channels: u16)
    ensures
        match (channels, selection(channels, num_channels)) {
            (None, Ok(indices)) => indices.len() == num_channels && forall|i: int|
                0 <= i < num_channels ==> #[trigger] indices[i] == i,
            (None, Err(_)) => false,
            (Some(list), Ok(indices)) => {
                let entries = crate::text::comma_list(list);
                &&& indices.len() == entries.len()
                &&& forall|i: int|
                    0 <= i < entries.len() ==> crate::text::parsed_index(#[trigger] entries[i])
                        == Some(indices[i]) && indices[i] < num_channels
            },
            (Some(list), Err(message)) => exists|at: int|
                {
                    let entries = crate::text::comma_list(list);
                    &&& 0 <= at < entries.len()
                    &&& forall|j: int|
                        0 <= j < at ==> crate::text::parsed_index(#[trigger] entries[j]) is Some
                            && crate::text::parsed_index(entries[j])->0 < num_channels
                    &&& match crate::text::parsed_index(#[trigger] crate::text::comma_list(list)[at]) {
                        None => message == "Invalid channel index: '"@ + entries[at] + "'"@,
                        Some(index) => index >= num_channels && message == "Channel index "@
                            + crate::text::decimal(index as nat) + " out of range (device has "@
                            + crate::text::decimal(num_channels as nat) + " channels)"@,
                    }
                },
        },
{
    if let Some(list) = channels {
        let entries = crate::text::comma_list(list);
        lemma_entries_select(entries, num_channels);
        if let Err(message) = selection(channels, num_channels) {
            let at = choose|at: int| #[trigger]
                is_first_wrong_entry(entries, num_channels, at, message);
            assert(crate::text::comma_list(list)[at] == entries[at]);
        }
    }
}

/// For each selected channel a window makes two events, in the order of the selection. The
/// first carries the index of the channel and the label that stands at this index in the list
/// of labels; it holds the samples of the channel, bit for bit, and counts them. An empty
/// window makes no events.
pub proof fn law_channel_audio_is_labelled<F: Fn(&[u32]) -> u32>(
    stream: ChannelStream,
    rms: F,
    window: Seq<u32>,
    events: Seq<MicEvent>,
    i: int,
)
    requires
        stream.are_channel_events(rms, window, events),
        0 <= i < stream.selected@.len(),
    ensures
        window.len() == 0 ==> events.len() == 0,
        window.len() > 0 ==> events.len() == 2 * stream.selected@.len(),
        window.len() > 0 ==> match events[2 * i] {
            MicEvent::ChannelAudioData { channel, label, data, frames, sample_rate, sequence } => {
                let mono = crate::meter::channel_of(
                    window,
                    channel as int,
                    stream.num_channels as int,
                );
                &&& channel == stream.selected@[i]
                &&& label@ == stream.labels@[channel as int]@
                &&& crate::pcm::pcm_samples(crate::pcm::base64_bytes(data@)) == mono
                &&& mono.len() < 0x1_0000_0000 ==> frames == mono.len()
                &&& sample_rate == stream.sample_rate
                &&& sequence == stream.sequence
            },
            _ => false,
        },
{
    if window.len() > 0 {
        let mono = stream.mono(window, i);
        assert(stream.selected@[i] == stream.selected@[i]);
        assert(events[2 * i]@ == stream.data_view(window, i));
        lemma_channel_audio_event(stream, window, i, events[2 * i]);
        assert(crate::pcm::pcm_samples(crate::pcm::base64_bytes(crate::pcm::payload(mono))) == mono)
            by {
            crate::pcm::law_payload_reads_back(mono);
        }
    }
}

/// The event of a channel's samples carries its label and the text of the samples.
proof fn lemma_channel_audio_event(
    stream: ChannelStream,
    window: Seq<u32>,
    i: int,
    event: MicEvent,
)
    requires
        event@ == stream.data_view(window, i),
    ensures
        match event {
            MicEvent::ChannelAudioData { channel, label, data, frames, sample_rate, sequence } => {
                &&& channel == stream.selected@[i]
                &&& label@ == stream.labels@[channel as int]@
                &&& data@ == crate::pcm::payload(stream.mono(window, i))
                &&& stream.mono(window, i).len() < 0x1_0000_0000 ==> frames == stream.mono(
                    window,
                    i,
                ).len()
                &&& sample_rate == stream.sample_rate
                &&& sequence == stream.sequence
            },
            _ => false,
        },
{
}

/// The second of the two events of a selected channel carries the same index and label and
/// measures the samples of the channel: their peak, and their RMS or silence where there are
/// none.
pub proof fn law_channel_level_is_labelled<F: Fn(&[u32]) -> u32>(
    stream: ChannelStream,
    rms: F,
    window: Seq<u32>,
    events: Seq<MicEvent>,
    i: int,
)
    requires
        stream.are_channel_events(rms, window, events),
        window.len() > 0,
        0 <= i < stream.selected@.len(),
    ensures
        match events[2 * i + 1] {
            MicEvent::ChannelLevel { channel, label, rms: value, peak, timestamp_ms } => {
                let mono = crate::meter::channel_of(
                    window,
                    channel as int,
                    stream.num_channels as int,
                );
                &&& channel == stream.selected@[i]
                &&& label@ == stream.labels@[channel as int]@
                &&& peak == crate::meter::peak_of(mono)
                &&& mono.len() == 0 ==> value == 0
                &&& mono.len() > 0 ==> exists|w: &[u32]|
                    w@ == mono && #[trigger] rms.ensures((w,), value)
                &&& timestamp_ms == stream.timestamp_ms
            },
            _ => false,
        },
{
    let event = events[2 * i + 1];
    assert(stream.selected@[i] == stream.selected@[i]);
    assert(stream.is_level_event(rms, window, i, event));
    let reading = choose|reading: crate::meter::ChannelLevelReading| #[trigger]
        crate::meter::is_channel_reading(rms, stream.mono(window, i), reading) && event@
            == channel_level_view(
            stream.selected@[i],
            stream.label_of(i),
            reading,
            stream.timestamp_ms,
        );
    lemma_channel_level_event(stream, rms, window, i, reading, event);
}

/// The event of a channel's reading carries its label and values.
proof fn lemma_channel_level_event<F: Fn(&[u32]) -> u32>(
    stream: ChannelStream,
    rms: F,
    window: Seq<u32>,
    i: int,
    reading: crate::meter::ChannelLevelReading,
    event: MicEvent,
)
    requires
        crate::meter::is_channel_reading(rms, stream.mono(window, i), reading),
        event@ == channel_level_view(
            stream.selected@[i],
            stream.label_of(i),
            reading,
            stream.timestamp_ms,
        ),
    ensures
        match event {
            MicEvent::ChannelLevel { channel, label, rms: value, peak, timestamp_ms } => {
                &&& channel == stream.selected@[i]
                &&& label@ == stream.labels@[channel as int]@
                &&& peak == reading.peak
                &&& value == reading.rms
                &&& timestamp_ms == stream.timestamp_ms
            },
            _ => false,
        },
{
}

/// A stream of channels keeps its rate, channels, labels, selection and chunk length.
pub proof fn law_channel_stream_keeps_its_setup(a: ChannelStream, b: ChannelStream)
    requires
        a.same_setup(&b),
    ensures
        a.sample_rate == b.sample_rate,
        a.num_channels == b.num_channels,
        a.labels@ == b.labels@,
        a.selected@ == b.selected@,
        a.chunk_ms == b.chunk_ms,
{
}

/// Channels are assessed by the size of their correlation: identical above 0.99, highly
/// correlated above 0.95, moderately above 0.5 and independent up to that, or where the
/// correlation is no number. They count as independent below 0.95.
pub proof fn law_assessment_goes_by_size(correlation: u32, shown: Seq<char>)
    ensures
        ({
            let size = crate::pcm::magnitude(correlation);
            let number = size <= 0x7F80_0000;
            &&& independent(correlation) <==> number && size < 0x3F73_3333
            &&& number && size > 0x3F7D_70A4 ==> assessment(correlation, shown)
                == "Channels are identical — mono signal duplicated across both channels. Only one transmitter active or mic in mono mode."@
            &&& 0x3F73_3333 < size <= 0x3F7D_70A4 ==> assessment(correlation, shown)
                == "Channels are highly correlated ("@ + shown
                + ") — likely the same source with minor differences."@
            &&& 0x3F00_0000 < size <= 0x3F73_3333 ==> assessment(correlation, shown)
                == "Channels are moderately correlated ("@ + shown
                + ") — partially independent signals, some crosstalk."@
            &&& size <= 0x3F00_0000 || !number ==> assessment(correlation, shown)
                == "Channels are independent ("@ + shown + ") — carrying distinct audio."@
        }),
{
}

/// The event of a probed channel carries its index, its label and each value of the analysis
/// of its samples.
pub proof fn law_probe_event_shows_analysis<
    R: Fn(&[u32]) -> u32,
    M: Fn(&[u32]) -> u32,
    L: Fn(u32) -> u32,
    P: Fn(u32, u32) -> u32,
    D: Fn(u32, u32) -> u32,
>(
    arithmetic: Arithmetic<R, M, L, P, D>,
    index: u16,
    name: Seq<char>,
    samples: Seq<u32>,
    event: MicEvent,
)
    requires
        is_probe_event(arithmetic, index as int, name, samples, event),
    ensures
        match event {
            MicEvent::ChannelProbe {
                channel,
                label,
                rms,
                peak,
                rms_dbfs,
                peak_dbfs,
                noise_floor_dbfs,
                dynamic_range_db,
                has_signal,
                dc_offset,
            } => {
                &&& channel == index
                &&& label@ == name
                &&& crate::meter::is_analysis(
                    arithmetic,
                    samples,
                    (crate::meter::ChannelAnalysis {
                        rms,
                        peak,
                        rms_dbfs,
                        peak_dbfs,
                        noise_floor_dbfs,
                        dynamic_range_db,
                        has_signal,
                        dc_offset,
                    }),
                )
            },
            _ => false,
        },
{
}

/// The summary of a probe shows the channels and the rate of the source and the length of the
/// samples. With two channels or more it shows the correlation of the first two and what that
/// says; a single channel counts as fully correlated and not independent.
pub proof fn law_summary_correlates_first_two<
    C: Fn(&[u32], &[u32]) -> u32,
    T: Fn(u32) -> String,
    S: Fn(usize, u32, u16) -> u32,
>(session: ProbeSession, correlate: C, decimals: T, seconds: S, event: MicEvent)
    requires
        session.is_summary(correlate, decimals, seconds, event),
    ensures
        match event {
            MicEvent::ProbeSummary {
                channels,
                sample_rate,
                analysis_duration_secs,
                channel_correlation: value,
                channels_independent,
                assessment: text,
            } => {
                &&& channels == session.channels
                &&& sample_rate == session.sample_rate
                &&& seconds.ensures(
                    (session.samples.len(), session.sample_rate, session.channels),
                    analysis_duration_secs,
                )
                &&& channels < 2 ==> value == 0x3F80_0000 && !channels_independent && text@
                    == "Single channel device — no independence analysis."@
                &&& channels >= 2 ==> {
                    &&& crate::meter::is_correlation(
                        correlate,
                        crate::meter::channel_of(session.samples@, 0, channels as int),
                        crate::meter::channel_of(session.samples@, 1, channels as int),
                        value,
                    )
                    &&& channels_independent == independent(value)
                    &&& exists|shown: String| #[trigger]
                        decimals.ensures((value,), shown) && text@ == assessment(value, shown@)
                }
            },
            _ => false,
        },
{
    let duration = choose|duration: u32|
        {
            &&& #[trigger] seconds.ensures(
                (session.samples.len(), session.sample_rate, session.channels),
                duration,
            )
            &&& if session.channels >= 2 {
                session.is_pair_summary(correlate, decimals, duration, event)
            } else {
                event@ == session.summary_view(
                    duration,
                    ONE,
                    false,
                    "Single channel device — no independence analysis."@,
                )
            }
        };
    if session.channels >= 2 {
        let (value, shown) = choose|value: u32, shown: String|
            {
                &&& #[trigger] crate::meter::is_correlation(
                    correlate,
                    session.mono(0),
                    session.mono(1),
                    value,
                )
                &&& #[trigger] decimals.ensures((value,), shown)
                &&& event@ == session.summary_view(
                    duration,
                    value,
                    independent(value),
                    assessment(value, shown@),
                )
            };
        assert(decimals.ensures((value,), shown));
    }
}

/// A probe analyzes the samples of each channel of the source.
pub proof fn law_probe_splits_samples(session: ProbeSession, channel: int)
    ensures
        session.mono(channel) == crate::meter::channel_of(
            session.samples@,
            channel,
            session.channels as int,
        ),
{
}

/// A stream of channels has the labels of the source and the selection of its channels; a
/// wrong list of labels is answered before a wrong selection.
pub proof fn law_channel_setup_of_source(
    source: crate::capture::AudioSource,
    channels: Option<Seq<char>>,
    labels: Option<Seq<char>>,
)
    ensures
        ({
            let resolved = crate::types::resolved_labels(
                source.title(),
                source.dji(),
                source.channel_count(),
                labels,
            );
            let chosen = selection(channels, source.channel_count());
            match channel_setup(source, channels, labels) {
                Ok((names, indices)) => resolved == Ok::<Seq<Seq<char>>, Seq<char>>(names) && chosen
                    == Ok::<Seq<u16>, Seq<char>>(indices),
                Err(message) => resolved == Err::<Seq<Seq<char>>, Seq<char>>(message) || (
                resolved is Ok && chosen == Err::<Seq<u16>, Seq<char>>(message)),
            }
        }),
{
}

/// With a query every device whose name holds it is listed, in the order of the devices.
/// Without one only the DJI devices are as soon as there is one, and all devices until then.
pub proof fn law_devices_are_chosen(
    devices: Seq<AudioDevice>,
    device: AudioDevice,
    query: Seq<char>,
)
    ensures
        listed_devices(Seq::empty(), Some(query)).len() == 0,
        listed_devices(devices.push(device), Some(query)) == (if crate::device::name_holds(
            device.name@,
            query,
        ) {
            listed_devices(devices, Some(query)).push(device)
        } else {
            listed_devices(devices, Some(query))
        }),
        ({
            let some = exists|j: int| 0 <= j < devices.len() && (#[trigger] devices[j]).is_dji;
            &&& !some && !device.is_dji ==> listed_devices(devices.push(device), None)
                == devices.push(device)
            &&& !some && device.is_dji ==> listed_devices(devices.push(device), None) == seq![device]
            &&& some && device.is_dji ==> listed_devices(devices.push(device), None)
                == listed_devices(devices, None).push(device)
            &&& some && !device.is_dji ==> listed_devices(devices.push(device), None)
                == listed_devices(devices, None)
        }),
{
    reveal_with_fuel(Seq::filter, 2);
    let more = devices.push(device);
    assert(more.drop_last() =~= devices);
    let fits = |d: AudioDevice| d.is_dji;
    let dji = devices.filter(fits);
    if exists|j: int| 0 <= j < devices.len() && (#[trigger] devices[j]).is_dji {
        let j = choose|j: int| 0 <= j < devices.len() && (#[trigger] devices[j]).is_dji;
        devices.lemma_filter_contains(fits, j);
        assert(dji.contains(devices[j]));
        assert(dji.len() > 0);
    } else if dji.len() > 0 {
        devices.lemma_filter_pred(fits, 0);
        assert(dji.contains(dji[0]));
        devices.lemma_filter_contains_rev(fits, dji[0]);
        let k = choose|k: int| 0 <= k < devices.len() && devices[k] == dji[0];
        assert(devices[k].is_dji);
    } else {
        assert(dji =~= Seq::<AudioDevice>::empty());
        assert(dji.push(device) =~= seq![device]);
    }
}

/// The channels of one more device follow those of the others, numbered from zero, each with
/// the name of the device and its label; where labels do not fit a device, the list is refused
/// with what was wrong for the first such device.
pub proof fn law_channels_follow_devices(
    devices: Seq<AudioDevice>,
    device: AudioDevice,
    labels: Option<Seq<char>>,
)
    ensures
        channels_of(Seq::empty(), labels) == Ok::<Seq<crate::types::ChannelView>, Seq<char>>(
            Seq::empty(),
        ),
        match channels_of(devices, labels) {
            Err(message) => channels_of(devices.push(device), labels) == Err::<
                Seq<crate::types::ChannelView>,
                Seq<char>,
            >(message),
            Ok(before) => match crate::types::resolved_labels(
                device.name@,
                device.is_dji,
                device.channels,
                labels,
            ) {
                Err(message) => channels_of(devices.push(device), labels) == Err::<
                    Seq<crate::types::ChannelView>,
                    Seq<char>,
                >(message),
                Ok(names) => channels_of(devices.push(device), labels) matches Ok(list)
                    && list.len() == before.len() + names.len() && before.is_prefix_of(list)
                    && forall|i: int|
                    0 <= i < names.len() ==> list[before.len() + i]
                        == (crate::types::ChannelView {
                        index: i as u16,
                        device: device.name@,
                        label: #[trigger] names[i],
                    }),
            },
        },
{
    assert(devices.push(device).drop_last() =~= devices);
    if let Ok(before) = channels_of(devices, labels) {
        if let Ok(list) = channels_of(devices.push(device), labels) {
            assert(before =~= list.subrange(0, before.len() as int));
        }
    }
}

/// A list of channels is shown as it is, and what is wrong with it as an error.
pub proof fn law_channel_list_is_shown(
    channels: Result<Seq<crate::types::ChannelView>, Seq<char>>,
)
    ensures
        match channels {
            Ok(list) => channel_list_view(channels) == (crate::types::MicEventView::ChannelList {
                channels: list,
            }),
            Err(message) => channel_list_view(channels) == (crate::types::MicEventView::Error {
                message,
            }),
        },
{
}

/// A selection and a message are the ones that came out.
pub proof fn law_selection_is_shown(indices: Vec<u16>, message: String)
    ensures
        indices_or_message(Ok(indices)) == Ok::<Seq<u16>, Seq<char>>(indices@),
        indices_or_message(Err(message)) == Err::<Seq<u16>, Seq<char>>(message@),
{
}

} // verus!
